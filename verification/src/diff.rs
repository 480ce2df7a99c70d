//! The line-level diff codec.  A script is an ordered sequence of operations
//! over the `\n`-split line decomposition of a prior content: keep `n` lines,
//! delete `n` lines, or insert the given lines.  Applying a script walks the
//! old lines; any unclaimed suffix of the old content is appended afterwards
//! (the tolerant tail).  Generating a script diffs the two line sequences and
//! collapses runs of same-kind changes into single operations.

use vstd::prelude::*;

use crate::strutil::push_char;

verus! {

/// One operation of a diff script, over `\n`-split lines.
/// On the wire these are `{"eq": n}`, `{"del": n}` and `{"ins": [lines]}`.
#[derive(Clone, Debug)]
pub enum DiffOp {
    /// Copy the next `n` lines of the old content.
    Keep(usize),
    /// Skip the next `n` lines of the old content.
    Del(usize),
    /// Append these lines, each without an embedded or trailing newline.
    Ins(Vec<String>),
}

/// The views of a sequence of owned lines.
pub open spec fn lines_view(ls: Seq<String>) -> Seq<Seq<char>> {
    ls.map_values(|l: String| l@)
}

/// The `\n`-split line decomposition of a character sequence.  Splitting the
/// empty sequence yields one empty line, and a trailing newline yields a
/// final empty line, as `str::split('\n')` does.
pub open spec fn spec_split_lines(s: Seq<char>) -> Seq<Seq<char>>
    decreases s.len(),
{
    if s.len() == 0 {
        seq![Seq::<char>::empty()]
    } else {
        let rest = spec_split_lines(s.drop_last());
        if s.last() == '\n' {
            rest.push(Seq::<char>::empty())
        } else {
            rest.update(rest.len() - 1, rest.last().push(s.last()))
        }
    }
}

/// Joining lines with `\n`, the inverse of splitting.
pub open spec fn spec_join_lines(ls: Seq<Seq<char>>) -> Seq<char>
    decreases ls.len(),
{
    if ls.len() == 0 {
        Seq::<char>::empty()
    } else if ls.len() == 1 {
        ls[0]
    } else {
        ls[0] + seq!['\n'] + spec_join_lines(ls.drop_first())
    }
}

pub proof fn lemma_split_lines_len(s: Seq<char>)
    ensures
        spec_split_lines(s).len() >= 1,
    decreases s.len(),
{
    if s.len() > 0 {
        lemma_split_lines_len(s.drop_last());
    }
}

proof fn lemma_join_push(ls: Seq<Seq<char>>, l: Seq<char>)
    requires
        ls.len() >= 1,
    ensures
        spec_join_lines(ls.push(l)) == spec_join_lines(ls) + seq!['\n'] + l,
    decreases ls.len(),
{
    if ls.len() == 1 {
        let p = ls.push(l);
        assert(p.drop_first() =~= seq![l]);
        assert(seq![l][0] == l);
        assert(spec_join_lines(seq![l]) == l);
        assert(p[0] == ls[0]);
        assert(spec_join_lines(p) == ls[0] + seq!['\n'] + l);
    } else {
        lemma_join_push(ls.drop_first(), l);
        let p = ls.push(l);
        assert(p.drop_first() =~= ls.drop_first().push(l));
        assert(p[0] == ls[0]);
        assert(ls[0] + seq!['\n'] + (spec_join_lines(ls.drop_first()) + seq!['\n'] + l) =~= (ls[0]
            + seq!['\n'] + spec_join_lines(ls.drop_first())) + seq!['\n'] + l);
    }
}

proof fn lemma_join_update_last(ls: Seq<Seq<char>>, c: char)
    requires
        ls.len() >= 1,
    ensures
        spec_join_lines(ls.update(ls.len() - 1, ls.last().push(c))) == spec_join_lines(ls).push(c),
    decreases ls.len(),
{
    let u = ls.update(ls.len() - 1, ls.last().push(c));
    if ls.len() == 1 {
        assert(spec_join_lines(u) == u[0]);
        assert(u[0] == ls[0].push(c));
    } else {
        lemma_join_update_last(ls.drop_first(), c);
        assert(u.drop_first() =~= ls.drop_first().update(ls.drop_first().len() - 1,
            ls.drop_first().last().push(c)));
        assert(u[0] == ls[0]);
        assert(ls[0] + seq!['\n'] + spec_join_lines(ls.drop_first()).push(c) =~= (ls[0]
            + seq!['\n'] + spec_join_lines(ls.drop_first())).push(c));
    }
}

/// Joining the split of a content gives the content back.
pub proof fn lemma_join_split(s: Seq<char>)
    ensures
        spec_join_lines(spec_split_lines(s)) == s,
    decreases s.len(),
{
    if s.len() == 0 {
        assert(spec_join_lines(spec_split_lines(s)) =~= s);
    } else {
        let t = s.drop_last();
        lemma_join_split(t);
        lemma_split_lines_len(t);
        if s.last() == '\n' {
            lemma_join_push(spec_split_lines(t), Seq::<char>::empty());
            assert(t + seq!['\n'] + Seq::<char>::empty() =~= s);
        } else {
            lemma_join_update_last(spec_split_lines(t), s.last());
            assert(t.push(s.last()) =~= s);
        }
    }
}

/// A line of a decomposition: no newline inside it.
pub open spec fn line_ok(l: Seq<char>) -> bool {
    forall|j: int| 0 <= j < l.len() ==> (#[trigger] l[j]) != '\n'
}

/// Splitting on newlines leaves no newline inside any line.
pub proof fn lemma_split_lines_ok(s: Seq<char>)
    ensures
        forall|i: int|
            0 <= i < spec_split_lines(s).len() ==> line_ok(#[trigger] spec_split_lines(s)[i]),
    decreases s.len(),
{
    if s.len() == 0 {
        assert(line_ok(Seq::<char>::empty()));
        assert(spec_split_lines(s)[0] == Seq::<char>::empty());
    } else {
        lemma_split_lines_ok(s.drop_last());
        lemma_split_lines_len(s.drop_last());
        let rest = spec_split_lines(s.drop_last());
        let whole = spec_split_lines(s);
        if s.last() == '\n' {
            assert forall|i: int| 0 <= i < whole.len() implies line_ok(#[trigger] whole[i]) by {
                if i < rest.len() {
                    assert(whole[i] == rest[i]);
                } else {
                    assert(whole[i] == Seq::<char>::empty());
                }
            }
        } else {
            assert forall|i: int| 0 <= i < whole.len() implies line_ok(#[trigger] whole[i]) by {
                if i < rest.len() - 1 {
                    assert(whole[i] == rest[i]);
                } else {
                    assert(whole[i] == rest.last().push(s.last()));
                    assert(line_ok(rest[rest.len() - 1]));
                    assert forall|j: int| 0 <= j < whole[i].len() implies (#[trigger] whole[i][j])
                        != '\n' by {
                        if j < whole[i].len() - 1 {
                            assert(whole[i][j] == rest.last()[j]);
                        } else {
                            assert(whole[i][j] == s.last());
                        }
                    }
                }
            }
        }
    }
}

/// One operation in generator form: a positive count, or a nonempty
/// insertion of newline-free lines.
pub open spec fn wf_op(op: DiffOp) -> bool {
    match op {
        DiffOp::Keep(n) => n >= 1,
        DiffOp::Del(n) => n >= 1,
        DiffOp::Ins(xs) => xs@.len() >= 1 && (forall|j: int|
            0 <= j < xs@.len() ==> line_ok(#[trigger] xs@[j]@)),
    }
}

/// Two operations of the same kind.
pub open spec fn same_kind(a: DiffOp, b: DiffOp) -> bool {
    match (a, b) {
        (DiffOp::Keep(_), DiffOp::Keep(_)) => true,
        (DiffOp::Del(_), DiffOp::Del(_)) => true,
        (DiffOp::Ins(_), DiffOp::Ins(_)) => true,
        _ => false,
    }
}

/// A script as the generator emits it: every operation well-formed, and no
/// two consecutive operations of one kind — runs are collapsed.
pub open spec fn wf_script(ops: Seq<DiffOp>) -> bool {
    &&& forall|i: int| 0 <= i < ops.len() ==> wf_op(#[trigger] ops[i])
    &&& forall|i: int|
        0 <= i && i + 1 < ops.len() ==> !(#[trigger] same_kind(ops[i], ops[i + 1]))
}

/// Walks a script over `old` starting at line `pos`: on success, the produced
/// lines together with the next unconsumed position.
pub open spec fn spec_apply_ops(old: Seq<Seq<char>>, ops: Seq<DiffOp>, pos: int) -> Option<
    (Seq<Seq<char>>, int),
>
    decreases ops.len(),
{
    if ops.len() == 0 {
        Some((Seq::<Seq<char>>::empty(), pos))
    } else {
        let rest = ops.drop_first();
        match ops[0] {
            DiffOp::Keep(n) => if pos + n <= old.len() {
                match spec_apply_ops(old, rest, pos + n) {
                    Some(t) => Some((old.subrange(pos, pos + n) + t.0, t.1)),
                    None => None,
                }
            } else {
                None
            },
            DiffOp::Del(n) => if pos + n <= old.len() {
                spec_apply_ops(old, rest, pos + n)
            } else {
                None
            },
            DiffOp::Ins(xs) => match spec_apply_ops(old, rest, pos) {
                Some(t) => Some((lines_view(xs@) + t.0, t.1)),
                None => None,
            },
        }
    }
}

/// On success the consumed position only moves forward, never past the end.
pub proof fn lemma_apply_ops_pos(old: Seq<Seq<char>>, ops: Seq<DiffOp>, pos: int)
    requires
        0 <= pos <= old.len(),
        spec_apply_ops(old, ops, pos) is Some,
    ensures
        pos <= spec_apply_ops(old, ops, pos)->Some_0.1 <= old.len(),
    decreases ops.len(),
{
    if ops.len() > 0 {
        let rest = ops.drop_first();
        match ops[0] {
            DiffOp::Keep(n) => lemma_apply_ops_pos(old, rest, pos + n),
            DiffOp::Del(n) => lemma_apply_ops_pos(old, rest, pos + n),
            DiffOp::Ins(xs) => lemma_apply_ops_pos(old, rest, pos),
        }
    }
}

/// Composing two scripts: apply the first, then the second from where the
/// first stopped.
pub proof fn lemma_apply_ops_append(old: Seq<Seq<char>>, a: Seq<DiffOp>, b: Seq<DiffOp>, pos: int)
    ensures
        spec_apply_ops(old, a + b, pos) == match spec_apply_ops(old, a, pos) {
            Some(t) => match spec_apply_ops(old, b, t.1) {
                Some(u) => Some(((t.0 + u.0), u.1)),
                None => None::<(Seq<Seq<char>>, int)>,
            },
            None => None::<(Seq<Seq<char>>, int)>,
        },
    decreases a.len(),
{
    if a.len() == 0 {
        assert(a + b =~= b);
        match spec_apply_ops(old, b, pos) {
            Some(u) => {
                assert(Seq::<Seq<char>>::empty() + u.0 =~= u.0);
            },
            None => {},
        }
    } else {
        let ab = a + b;
        assert(ab[0] == a[0]);
        assert(ab.drop_first() =~= a.drop_first() + b);
        match a[0] {
            DiffOp::Keep(n) => {
                if pos + n <= old.len() {
                    lemma_apply_ops_append(old, a.drop_first(), b, pos + n);
                    match spec_apply_ops(old, a.drop_first(), pos + n) {
                        Some(t) => {
                            match spec_apply_ops(old, b, t.1) {
                                Some(u) => {
                                    assert(old.subrange(pos, pos + n) + (t.0 + u.0) =~= (old
                                        .subrange(pos, pos + n) + t.0) + u.0);
                                },
                                None => {},
                            }
                        },
                        None => {},
                    }
                }
            },
            DiffOp::Del(n) => {
                if pos + n <= old.len() {
                    lemma_apply_ops_append(old, a.drop_first(), b, pos + n);
                }
            },
            DiffOp::Ins(xs) => {
                lemma_apply_ops_append(old, a.drop_first(), b, pos);
                match spec_apply_ops(old, a.drop_first(), pos) {
                    Some(t) => {
                        match spec_apply_ops(old, b, t.1) {
                            Some(u) => {
                                assert(lines_view(xs@) + (t.0 + u.0) =~= (lines_view(xs@) + t.0)
                                    + u.0);
                            },
                            None => {},
                        }
                    },
                    None => {},
                }
            },
        }
    }
}

/// Applying a script to a line decomposition: the produced lines, then the
/// tolerant tail — whatever the script did not claim.
pub open spec fn spec_apply_lines(old: Seq<Seq<char>>, ops: Seq<DiffOp>) -> Option<Seq<Seq<char>>> {
    match spec_apply_ops(old, ops, 0) {
        Some(t) => Some(t.0 + old.skip(t.1)),
        None => None,
    }
}

/// Applying a script to a content: split, walk the script, join.
pub open spec fn spec_apply(old: Seq<char>, ops: Seq<DiffOp>) -> Option<Seq<char>> {
    match spec_apply_lines(spec_split_lines(old), ops) {
        Some(ls) => Some(spec_join_lines(ls)),
        None => None,
    }
}

/// Splits a content into its `\n`-separated lines.
pub fn split_lines(s: &str) -> (r: Vec<String>)
    ensures
        lines_view(r@) == spec_split_lines(s@),
{
    let len = s.unicode_len();
    let mut out: Vec<String> = Vec::new();
    let mut cur = String::new();
    let mut i: usize = 0;
    while i < len
        invariant
            len == s@.len(),
            0 <= i <= len,
            lines_view(out@).push(cur@) =~= spec_split_lines(s@.subrange(0, i as int)),
        decreases len - i,
    {
        let c = s.get_char(i);
        proof {
            assert(s@.subrange(0, i + 1).drop_last() =~= s@.subrange(0, i as int));
            assert(s@.subrange(0, i + 1).last() == s@[i as int]);
            lemma_split_lines_len(s@.subrange(0, i as int));
        }
        if c == '\n' {
            out.push(cur);
            cur = String::new();
            proof {
                assert(lines_view(out@).push(cur@) =~= spec_split_lines(s@.subrange(0,
                    i as int)).push(Seq::<char>::empty()));
            }
        } else {
            push_char(&mut cur, c);
            proof {
                let prev = spec_split_lines(s@.subrange(0, i as int));
                assert(prev.last() == cur@.drop_last());
                assert(cur@.drop_last().push(c) =~= cur@);
                assert(lines_view(out@).push(cur@) =~= prev.update(prev.len() - 1, prev.last().push(
                    c)));
            }
        }
        i = i + 1;
    }
    out.push(cur);
    proof {
        assert(s@.subrange(0, len as int) =~= s@);
        assert(lines_view(out@) =~= lines_view(out@.drop_last()).push(cur@));
    }
    out
}

/// Joins lines with `\n`.
pub fn join_lines(ls: &Vec<String>) -> (r: String)
    ensures
        r@ == spec_join_lines(lines_view(ls@)),
{
    let mut out = String::new();
    if ls.len() == 0 {
        return out;
    }
    out.append(ls[0].as_str());
    let mut i: usize = 1;
    while i < ls.len()
        invariant
            1 <= i <= ls@.len(),
            out@ == spec_join_lines(lines_view(ls@.subrange(0, i as int))),
        decreases ls@.len() - i,
    {
        proof {
            let pre = lines_view(ls@.subrange(0, i as int));
            assert(pre.len() == i);
            lemma_join_push(pre, ls@[i as int]@);
            assert(lines_view(ls@.subrange(0, i + 1)) =~= pre.push(ls@[i as int]@));
        }
        push_char(&mut out, '\n');
        out.append(ls[i].as_str());
        proof {
            let pre = lines_view(ls@.subrange(0, i as int));
            assert(out@ =~= spec_join_lines(pre) + seq!['\n'] + ls@[i as int]@);
        }
        i = i + 1;
    }
    proof {
        assert(ls@.subrange(0, ls@.len() as int) =~= ls@);
        assert(lines_view(ls@.subrange(0, 1)) =~= seq![ls@[0]@]);
    }
    out
}

/// Applies a diff script to a content.  `None` signals a length mismatch:
/// the script claims more old lines than exist.  `None` is not an error to
/// surface; it tells the caller to fall back to a full fetch.
pub fn apply_line_diff(old_content: &str, diff: &Vec<DiffOp>) -> (r: Option<String>)
    ensures
        r is Some <==> spec_apply(old_content@, diff@) is Some,
        r matches Some(out) ==> spec_apply(old_content@, diff@) == Some(out@),
{
    let old_lines = split_lines(old_content);
    let ghost ol = lines_view(old_lines@);
    let mut result: Vec<String> = Vec::new();
    let mut pos: usize = 0;
    let mut k: usize = 0;
    proof {
        assert(diff@.skip(0) =~= diff@);
        assert(lines_view(result@) =~= Seq::<Seq<char>>::empty());
        match spec_apply_ops(ol, diff@, 0) {
            Some(t) => {
                assert(lines_view(result@) + t.0 =~= t.0);
            },
            None => {},
        }
    }
    while k < diff.len()
        invariant
            0 <= k <= diff@.len(),
            0 <= pos <= ol.len(),
            ol == lines_view(old_lines@),
            ol == spec_split_lines(old_content@),
            old_lines@.len() == ol.len(),
            spec_apply_ops(ol, diff@, 0) == match spec_apply_ops(ol, diff@.skip(k as int),
                pos as int) {
                Some(t) => Some(((lines_view(result@) + t.0), t.1)),
                None => None::<(Seq<Seq<char>>, int)>,
            },
        decreases diff@.len() - k,
    {
        proof {
            assert(diff@.skip(k as int)[0] == diff@[k as int]);
            assert(diff@.skip(k as int).drop_first() =~= diff@.skip(k + 1));
        }
        match &diff[k] {
            DiffOp::Keep(n) => {
                let n = *n;
                if n > old_lines.len() - pos {
                    assert(spec_apply_ops(ol, diff@.skip(k as int), pos as int) is None);
                    assert(spec_apply_ops(ol, diff@, 0) is None);
                    return None;
                }
                let ghost base = result@;
                let mut j: usize = 0;
                while j < n
                    invariant
                        0 <= j <= n,
                        pos + n <= old_lines@.len(),
                        old_lines@.len() <= usize::MAX,
                        ol == lines_view(old_lines@),
                        old_lines@.len() == ol.len(),
                        result@.len() == base.len() + j,
                        lines_view(result@) =~= lines_view(base) + ol.subrange(pos as int, pos
                            + j),
                    decreases n - j,
                {
                    let ghost before = result@;
                    result.push(old_lines[pos + j].clone());
                    proof {
                        assert(lines_view(result@) =~= lines_view(before).push(
                            old_lines@[pos + j]@));
                        assert(ol.subrange(pos as int, pos + j + 1) =~= ol.subrange(pos as int, pos
                            + j).push(ol[pos + j]));
                        assert(lines_view(base) + ol.subrange(pos as int, pos + j + 1) =~= (
                        lines_view(base) + ol.subrange(pos as int, pos + j)).push(ol[pos + j]));
                    }
                    j = j + 1;
                }
                proof {
                    match spec_apply_ops(ol, diff@.skip(k + 1), pos + n as int) {
                        Some(t) => {
                            assert(lines_view(base) + (ol.subrange(pos as int, pos + n) + t.0)
                                =~= (lines_view(base) + ol.subrange(pos as int, pos + n)) + t.0);
                        },
                        None => {},
                    }
                }
                pos = pos + n;
            },
            DiffOp::Del(n) => {
                let n = *n;
                if n > old_lines.len() - pos {
                    assert(spec_apply_ops(ol, diff@.skip(k as int), pos as int) is None);
                    assert(spec_apply_ops(ol, diff@, 0) is None);
                    return None;
                }
                pos = pos + n;
            },
            DiffOp::Ins(xs) => {
                let mut j: usize = 0;
                let ghost base = result@;
                while j < xs.len()
                    invariant
                        0 <= j <= xs@.len(),
                        result@ =~= base + xs@.subrange(0, j as int),
                    decreases xs@.len() - j,
                {
                    result.push(xs[j].clone());
                    proof {
                        assert(base + xs@.subrange(0, j + 1) =~= (base + xs@.subrange(0,
                            j as int)).push(xs@[j as int]));
                    }
                    j = j + 1;
                }
                proof {
                    assert(xs@.subrange(0, xs@.len() as int) =~= xs@);
                    assert(result@ =~= base + xs@);
                    assert(lines_view(base + xs@) =~= lines_view(base) + lines_view(xs@));
                    match spec_apply_ops(ol, diff@.skip(k + 1), pos as int) {
                        Some(t) => {
                            assert(lines_view(base) + (lines_view(xs@) + t.0) =~= (lines_view(base)
                                + lines_view(xs@)) + t.0);
                        },
                        None => {},
                    }
                }
            },
        }
        k = k + 1;
    }
    proof {
        assert(diff@.skip(diff@.len() as int).len() == 0);
        assert(lines_view(result@) + Seq::<Seq<char>>::empty() =~= lines_view(result@));
    }
    // tolerant tail: append the unclaimed suffix of the old lines
    let ghost mid = result@;
    let mut t: usize = pos;
    while t < old_lines.len()
        invariant
            pos <= t <= old_lines@.len(),
            ol == lines_view(old_lines@),
            old_lines@.len() == ol.len(),
            lines_view(result@) =~= lines_view(mid) + ol.subrange(pos as int, t as int),
        decreases old_lines@.len() - t,
    {
        result.push(old_lines[t].clone());
        proof {
            assert(ol.subrange(pos as int, t + 1) =~= ol.subrange(pos as int, t as int).push(
                ol[t as int]));
            assert(lines_view(mid) + ol.subrange(pos as int, t + 1) =~= (lines_view(mid)
                + ol.subrange(pos as int, t as int)).push(ol[t as int]));
        }
        t = t + 1;
    }
    proof {
        assert(ol.skip(pos as int) =~= ol.subrange(pos as int, ol.len() as int));
    }
    let joined = join_lines(&result);
    Some(joined)
}

/// What became of one line between the old and the new content.
#[derive(Clone, Copy, PartialEq, Eq, Structural)]
pub enum ChangeKind {
    /// The line occurs in both contents.
    Same,
    /// The line occurs only in the old content.
    Gone,
    /// The line occurs only in the new content.
    Added,
}

/// One line of a computed diff, tagged with its fate.
pub struct LineChange {
    pub kind: ChangeKind,
    pub line: String,
}

/// The old content's lines: every change that is not an insertion, in order.
pub open spec fn old_side(cs: Seq<LineChange>) -> Seq<Seq<char>>
    decreases cs.len(),
{
    if cs.len() == 0 {
        Seq::<Seq<char>>::empty()
    } else if cs[0].kind is Added {
        old_side(cs.drop_first())
    } else {
        seq![cs[0].line@] + old_side(cs.drop_first())
    }
}

/// The new content's lines: every change that is not a deletion, in order.
pub open spec fn new_side(cs: Seq<LineChange>) -> Seq<Seq<char>>
    decreases cs.len(),
{
    if cs.len() == 0 {
        Seq::<Seq<char>>::empty()
    } else if cs[0].kind is Gone {
        new_side(cs.drop_first())
    } else {
        seq![cs[0].line@] + new_side(cs.drop_first())
    }
}

proof fn lemma_side_step(cs: Seq<LineChange>, k: int)
    requires
        0 <= k < cs.len(),
    ensures
        old_side(cs.skip(k)) == if cs[k].kind is Added {
            old_side(cs.skip(k + 1))
        } else {
            seq![cs[k].line@] + old_side(cs.skip(k + 1))
        },
        new_side(cs.skip(k)) == if cs[k].kind is Gone {
            new_side(cs.skip(k + 1))
        } else {
            seq![cs[k].line@] + new_side(cs.skip(k + 1))
        },
{
    assert(cs.skip(k)[0] == cs[k]);
    assert(cs.skip(k).drop_first() =~= cs.skip(k + 1));
}

/// The change sequence the line differ computes for two line lists, as
/// plain triples `(in_old, in_new, line)`: a kept line is in both lists, a
/// deleted one only in the old, an inserted one only in the new.  The diff
/// is a function of the two line lists alone.
pub uninterp spec fn lcs_changes(old: Seq<Seq<char>>, new: Seq<Seq<char>>) -> Seq<
    (bool, bool, Seq<char>),
>;

/// A change list as the triples the differ's name speaks of.
pub open spec fn change_views(cs: Seq<LineChange>) -> Seq<(bool, bool, Seq<char>)> {
    cs.map_values(|c: LineChange| (!(c.kind is Added), !(c.kind is Gone), c.line@))
}

/// An operation as a plain triple: lines kept, lines deleted, lines
/// inserted.  On generator-form scripts the encoding is one to one.
pub open spec fn op_view(op: DiffOp) -> (nat, nat, Seq<Seq<char>>) {
    match op {
        DiffOp::Keep(n) => (n as nat, 0nat, Seq::<Seq<char>>::empty()),
        DiffOp::Del(n) => (0nat, n as nat, Seq::<Seq<char>>::empty()),
        DiffOp::Ins(xs) => (0nat, 0nat, lines_view(xs@)),
    }
}

/// A script as operation triples.
pub open spec fn script_view(ops: Seq<DiffOp>) -> Seq<(nat, nat, Seq<Seq<char>>)> {
    ops.map_values(|op: DiffOp| op_view(op))
}

/// The length of the leading run of one change kind.
pub open spec fn spec_run_len(cs: Seq<(bool, bool, Seq<char>)>) -> int
    decreases cs.len(),
{
    if cs.len() == 0 {
        0
    } else if cs.len() >= 2 && cs[1].0 == cs[0].0 && cs[1].1 == cs[0].1 {
        1 + spec_run_len(cs.drop_first())
    } else {
        1
    }
}

proof fn lemma_run_len(cs: Seq<(bool, bool, Seq<char>)>)
    requires
        cs.len() > 0,
    ensures
        1 <= spec_run_len(cs) <= cs.len(),
        forall|t: int|
            0 <= t < spec_run_len(cs) ==> (#[trigger] cs[t]).0 == cs[0].0 && cs[t].1 == cs[0].1,
        spec_run_len(cs) < cs.len() ==> !(cs[spec_run_len(cs)].0 == cs[0].0
            && cs[spec_run_len(cs)].1 == cs[0].1),
    decreases cs.len(),
{
    if cs.len() >= 2 && cs[1].0 == cs[0].0 && cs[1].1 == cs[0].1 {
        lemma_run_len(cs.drop_first());
        let r = spec_run_len(cs);
        assert forall|t: int|
            0 <= t < r implies (#[trigger] cs[t]).0 == cs[0].0 && cs[t].1 == cs[0].1 by {
            if t > 0 {
                assert(cs.drop_first()[t - 1] == cs[t]);
            }
        }
        if r < cs.len() {
            assert(cs.drop_first()[r - 1] == cs[r]);
        }
    }
}

/// The run the leading changes form has this exact length.
proof fn lemma_run_len_determined(cs: Seq<(bool, bool, Seq<char>)>, r: int)
    requires
        cs.len() > 0,
        1 <= r <= cs.len(),
        forall|t: int| 0 <= t < r ==> (#[trigger] cs[t]).0 == cs[0].0 && cs[t].1 == cs[0].1,
        r < cs.len() ==> !(cs[r].0 == cs[0].0 && cs[r].1 == cs[0].1),
    ensures
        spec_run_len(cs) == r,
    decreases cs.len(),
{
    if cs.len() >= 2 && cs[1].0 == cs[0].0 && cs[1].1 == cs[0].1 {
        assert(r >= 2) by {
            if r == 1 {
                assert(cs[1].0 == cs[0].0 && cs[1].1 == cs[0].1);
            }
        }
        assert forall|t: int|
            0 <= t < r - 1 implies (#[trigger] cs.drop_first()[t]).0 == cs.drop_first()[0].0
            && cs.drop_first()[t].1 == cs.drop_first()[0].1 by {
            assert(cs.drop_first()[t] == cs[t + 1]);
            assert(cs.drop_first()[0] == cs[1]);
        }
        if r - 1 < cs.drop_first().len() {
            assert(cs.drop_first()[r - 1] == cs[r]);
            assert(cs.drop_first()[0] == cs[1]);
        }
        lemma_run_len_determined(cs.drop_first(), r - 1);
    } else if cs.len() >= 2 {
        assert(r == 1) by {
            if r >= 2 {
                assert(cs[1].0 == cs[0].0 && cs[1].1 == cs[0].1);
            }
        }
    }
}

/// Collapsing a change sequence at the triple level: one operation per run.
pub open spec fn spec_collapse(cs: Seq<(bool, bool, Seq<char>)>) -> Seq<
    (nat, nat, Seq<Seq<char>>),
>
    decreases cs.len(),
    via spec_collapse_decreases
{
    if cs.len() == 0 {
        Seq::<(nat, nat, Seq<Seq<char>>)>::empty()
    } else {
        let k = spec_run_len(cs);
        let op = if cs[0].0 && cs[0].1 {
            (k as nat, 0nat, Seq::<Seq<char>>::empty())
        } else if cs[0].0 {
            (0nat, k as nat, Seq::<Seq<char>>::empty())
        } else {
            (0nat, 0nat, cs.take(k).map_values(|c: (bool, bool, Seq<char>)| c.2))
        };
        seq![op] + spec_collapse(cs.skip(k))
    }
}

#[via_fn]
proof fn spec_collapse_decreases(cs: Seq<(bool, bool, Seq<char>)>) {
    if cs.len() > 0 {
        lemma_run_len(cs);
    }
}

/// Every change keeps a line — the shape a diff of equal inputs has.
pub open spec fn all_same_changes(cs: Seq<LineChange>) -> bool {
    forall|i: int| 0 <= i < cs.len() ==> (#[trigger] cs[i]).kind is Same
}

/// No change line holds a newline.
pub open spec fn lines_ok_changes(cs: Seq<LineChange>) -> bool {
    forall|i: int| 0 <= i < cs.len() ==> line_ok((#[trigger] cs[i]).line@)
}

/// The operation a run of this change kind collapses into.
pub open spec fn op_matches(op: DiffOp, ck: ChangeKind) -> bool {
    match (op, ck) {
        (DiffOp::Keep(_), ChangeKind::Same) => true,
        (DiffOp::Del(_), ChangeKind::Gone) => true,
        (DiffOp::Ins(_), ChangeKind::Added) => true,
        _ => false,
    }
}

/// Every change's line occurs on at least one side of the diff.
proof fn lemma_change_line_in_sides(cs: Seq<LineChange>, i: int)
    requires
        0 <= i < cs.len(),
    ensures
        old_side(cs).contains(cs[i].line@) || new_side(cs).contains(cs[i].line@),
    decreases cs.len(),
{
    if i == 0 {
        if cs[0].kind is Added {
            assert(new_side(cs)[0] == cs[0].line@);
            assert(new_side(cs).contains(cs[0].line@));
        } else {
            assert(old_side(cs)[0] == cs[0].line@);
            assert(old_side(cs).contains(cs[0].line@));
        }
    } else {
        lemma_change_line_in_sides(cs.drop_first(), i - 1);
        assert(cs.drop_first()[i - 1] == cs[i]);
        let l = cs[i].line@;
        if old_side(cs.drop_first()).contains(l) {
            let t = choose|t: int|
                0 <= t < old_side(cs.drop_first()).len() && old_side(cs.drop_first())[t] == l;
            if cs[0].kind is Added {
                assert(old_side(cs)[t] == l);
            } else {
                assert(old_side(cs)[t + 1] == old_side(cs.drop_first())[t]);
            }
            assert(old_side(cs).contains(l));
        } else {
            let t = choose|t: int|
                0 <= t < new_side(cs.drop_first()).len() && new_side(cs.drop_first())[t] == l;
            if cs[0].kind is Gone {
                assert(new_side(cs)[t] == l);
            } else {
                assert(new_side(cs)[t + 1] == new_side(cs.drop_first())[t]);
            }
            assert(new_side(cs).contains(l));
        }
    }
}

/// When every change keeps its line, the old side lists them all.
proof fn lemma_all_same_old_side(cs: Seq<LineChange>)
    requires
        all_same_changes(cs),
    ensures
        old_side(cs).len() == cs.len(),
    decreases cs.len(),
{
    if cs.len() > 0 {
        assert(cs[0].kind is Same);
        assert forall|i: int| 0 <= i < cs.drop_first().len() implies (
        #[trigger] cs.drop_first()[i]).kind is Same by {
            assert(cs.drop_first()[i] == cs[i + 1]);
        }
        lemma_all_same_old_side(cs.drop_first());
    }
}

/// Computes the line changes between two line sequences.
///
/// Relies on `similar::TextDiff::from_slices` and `iter_all_changes`: the
/// changes of a diff, walked in order, yield exactly the old lines when
/// insertions are skipped, and exactly the new lines when deletions are
/// skipped.  `from_slices` runs Myers' algorithm, which finds a shortest
/// edit script, so two equal line sequences diff to equal changes only; the
/// run uses no deadline and no randomness, so the changes are a function of
/// the two line lists alone, named `lcs_changes`.
#[verifier::external_body]
fn diff_line_changes(old: &Vec<String>, new: &Vec<String>) -> (r: Vec<LineChange>)
    ensures
        old_side(r@) == lines_view(old@),
        new_side(r@) == lines_view(new@),
        lines_view(old@) == lines_view(new@) ==> all_same_changes(r@),
        change_views(r@) == lcs_changes(lines_view(old@), lines_view(new@)),
{
    let old_refs: Vec<&str> = old.iter().map(|s| s.as_str()).collect();
    let new_refs: Vec<&str> = new.iter().map(|s| s.as_str()).collect();
    let d = similar::TextDiff::from_slices(&old_refs, &new_refs);
    let mut out = Vec::new();
    for ch in d.iter_all_changes() {
        let kind = match ch.tag() {
            similar::ChangeTag::Equal => ChangeKind::Same,
            similar::ChangeTag::Delete => ChangeKind::Gone,
            similar::ChangeTag::Insert => ChangeKind::Added,
        };
        out.push(LineChange { kind, line: ch.value().to_string() });
    }
    out
}

/// Collapses a change sequence into a script: runs of equal lines become one
/// `Keep`, runs of deletions one `Del`, runs of insertions one `Ins` carrying
/// the lines verbatim.  Applying the script to the old side yields the new
/// side; the script is in generator form, and a diff of only kept lines
/// collapses to a single `Keep`.
#[verifier::rlimit(100)]
fn collapse_changes(cs: &Vec<LineChange>) -> (ops: Vec<DiffOp>)
    requires
        lines_ok_changes(cs@),
    ensures
        spec_apply_lines(old_side(cs@), ops@) == Some(new_side(cs@)),
        wf_script(ops@),
        script_view(ops@) == spec_collapse(change_views(cs@)),
        all_same_changes(cs@) ==> ops@ == (if cs@.len() == 0 {
            Seq::<DiffOp>::empty()
        } else {
            seq![DiffOp::Keep(cs@.len() as usize)]
        }),
{
    let ghost cv = change_views(cs@);
    let ghost co = old_side(cs@);
    let ghost cn = new_side(cs@);
    let total = cs.len();
    let mut ops: Vec<DiffOp> = Vec::new();
    let mut k: usize = 0;
    let ghost mut opos: int = 0;
    let ghost mut npos: int = 0;
    proof {
        assert(cs@.len() == total);
        assert(cs@.skip(0) =~= cs@);
        assert(cv.skip(0) =~= cv);
        assert(cn.take(0) =~= Seq::<Seq<char>>::empty());
        assert(script_view(Seq::<DiffOp>::empty()) =~= Seq::<(nat, nat, Seq<Seq<char>>)>::empty());
        assert(script_view(Seq::<DiffOp>::empty()) + spec_collapse(cv) =~= spec_collapse(cv));
    }
    while k < cs.len()
        invariant
            0 <= k <= cs@.len(),
            cs@.len() <= usize::MAX,
            lines_ok_changes(cs@),
            0 <= opos <= co.len(),
            0 <= npos <= cn.len(),
            co == old_side(cs@),
            cn == new_side(cs@),
            old_side(cs@.skip(k as int)) == co.skip(opos),
            new_side(cs@.skip(k as int)) == cn.skip(npos),
            spec_apply_ops(co, ops@, 0) == Some((cn.take(npos), opos)),
            forall|i: int| 0 <= i < ops@.len() ==> wf_op(#[trigger] ops@[i]),
            forall|i: int|
                0 <= i && i + 1 < ops@.len() ==> !(#[trigger] same_kind(ops@[i], ops@[i + 1])),
            (k == 0) <==> (ops@.len() == 0),
            k > 0 ==> op_matches(ops@[ops@.len() - 1], cs@[k - 1].kind),
            k > 0 && k < cs@.len() ==> cs@[k as int].kind != cs@[k - 1].kind,
            all_same_changes(cs@) ==> ((k == 0 && ops@.len() == 0) || (k == cs@.len() && ops@
                == seq![DiffOp::Keep(cs@.len() as usize)])),
            cv == change_views(cs@),
            cv.len() == cs@.len(),
            spec_collapse(cv) == script_view(ops@) + spec_collapse(cv.skip(k as int)),
        decreases cs@.len() - k,
    {
        let ghost ops0 = ops@;
        match cs[k].kind {
            ChangeKind::Same => {
                let mut j: usize = k;
                while j < cs.len() && cs[j].kind == ChangeKind::Same
                    invariant
                        k <= j <= cs@.len(),
                        k < cs@.len(),
                        cs@[k as int].kind is Same,
                        forall|t: int| k <= t < j ==> (#[trigger] cs@[t]).kind is Same,
                        0 <= opos,
                        0 <= npos,
                        opos + (j - k) <= co.len(),
                        npos + (j - k) <= cn.len(),
                        co == old_side(cs@),
                        cn == new_side(cs@),
                        old_side(cs@.skip(j as int)) == co.skip(opos + (j - k)),
                        new_side(cs@.skip(j as int)) == cn.skip(npos + (j - k)),
                        co.subrange(opos, opos + (j - k)) =~= cn.subrange(npos, npos + (j - k)),
                    decreases cs@.len() - j,
                {
                    proof {
                        assert(cs@[j as int].kind is Same);
                        let d = j - k;
                        lemma_side_step(cs@, j as int);
                        let os = co.skip(opos + d);
                        let ns = cn.skip(npos + d);
                        assert(os.len() >= 1);
                        assert(ns.len() >= 1);
                        assert(os[0] == cs@[j as int].line@);
                        assert(ns[0] == cs@[j as int].line@);
                        assert(co[opos + d] == cs@[j as int].line@);
                        assert(cn[npos + d] == cs@[j as int].line@);
                        assert(os.drop_first() =~= co.skip(opos + d + 1));
                        assert(ns.drop_first() =~= cn.skip(npos + d + 1));
                        assert(co.subrange(opos, opos + d + 1) =~= co.subrange(opos, opos
                            + d).push(co[opos + d]));
                        assert(cn.subrange(npos, npos + d + 1) =~= cn.subrange(npos, npos
                            + d).push(cn[npos + d]));
                    }
                    j = j + 1;
                }
                let n = j - k;
                proof {
                    assert(j > k);
                    assert(cs@[j - 1].kind is Same);
                    if j < cs@.len() {
                        assert(!(cs@[j as int].kind is Same));
                    }
                }
                ops.push(DiffOp::Keep(n));
                proof {
                    assert(wf_op(DiffOp::Keep(n)));
                    assert forall|i: int| 0 <= i < ops@.len() implies wf_op(
                    #[trigger] ops@[i]) by {
                        if i < ops0.len() {
                            assert(ops@[i] == ops0[i]);
                        } else {
                            assert(ops@[i] == DiffOp::Keep(n));
                        }
                    }
                    if ops0.len() > 0 {
                        assert(op_matches(ops0[ops0.len() - 1], cs@[k - 1].kind));
                        assert(cs@[k as int].kind != cs@[k - 1].kind);
                        assert(!same_kind(ops0[ops0.len() - 1], DiffOp::Keep(n)));
                    }
                    assert forall|i: int|
                        0 <= i && i + 1 < ops@.len() implies !(#[trigger] same_kind(ops@[i],
                        ops@[i + 1])) by {
                        if i + 1 < ops0.len() {
                            assert(ops@[i] == ops0[i]);
                            assert(ops@[i + 1] == ops0[i + 1]);
                        } else {
                            assert(ops@[i] == ops0[i]);
                            assert(ops@[i + 1] == DiffOp::Keep(n));
                        }
                    }
                    if all_same_changes(cs@) {
                        assert(k == 0);
                        assert(j == cs@.len()) by {
                            if j < cs@.len() {
                                assert(cs@[j as int].kind is Same);
                            }
                        }
                        assert(ops@ =~= seq![DiffOp::Keep(cs@.len() as usize)]);
                    }
                    lemma_apply_ops_append(co, ops0, seq![DiffOp::Keep(n)], 0);
                    let single = seq![DiffOp::Keep(n)];
                    assert(single[0] == DiffOp::Keep(n));
                    assert(single.drop_first() =~= Seq::<DiffOp>::empty());
                    assert(spec_apply_ops(co, single.drop_first(), opos + n) == Some((
                        Seq::<Seq<char>>::empty(), opos + n)));
                    assert(spec_apply_ops(co, single, opos) == Some((co.subrange(opos, opos + n)
                        + Seq::<Seq<char>>::empty(), opos + n)));
                    assert(co.subrange(opos, opos + n) + Seq::<Seq<char>>::empty() =~= co.subrange(
                        opos, opos + n));
                    assert(ops@ =~= ops0 + single);
                    assert(cn.take(npos) + cn.subrange(npos, npos + n) =~= cn.take(npos + n));
                    opos = opos + n;
                    npos = npos + n;
                }
                proof {
                    let rest = cv.skip(k as int);
                    assert forall|t: int| 0 <= t < rest.len() implies #[trigger] rest[t] == cv[k
                        + t] by {}
                    assert forall|t: int| 0 <= t < n implies (#[trigger] rest[t]).0 == rest[0].0
                        && rest[t].1 == rest[0].1 by {
                        assert(cv[k + t] == (!(cs@[k + t].kind is Added), !(cs@[k
                            + t].kind is Gone), cs@[k + t].line@));
                        assert(cs@[k + t].kind is Same);
                        assert(cv[k as int] == (!(cs@[k as int].kind is Added), !(cs@[
                            k as int].kind is Gone), cs@[k as int].line@));
                    }
                    if n < rest.len() {
                        assert(cv[j as int] == (!(cs@[j as int].kind is Added), !(cs@[
                            j as int].kind is Gone), cs@[j as int].line@));
                        assert(!(cs@[j as int].kind is Same));
                        assert(!(rest[n as int].0 == rest[0].0 && rest[n as int].1
                            == rest[0].1));
                    }
                    lemma_run_len_determined(rest, n as int);
                    assert(rest.skip(n as int) =~= cv.skip(j as int));
                    let opv = op_view(DiffOp::Keep(n));
                    assert(rest[0].0 && rest[0].1);
                    assert(spec_collapse(rest) == seq![opv] + spec_collapse(cv.skip(j as int)));
                    assert(script_view(ops@) =~= script_view(ops0).push(opv));
                    assert(script_view(ops0) + (seq![opv] + spec_collapse(cv.skip(j as int)))
                        =~= script_view(ops0).push(opv) + spec_collapse(cv.skip(j as int)));
                }
                k = j;
            },
            ChangeKind::Gone => {
                let mut j: usize = k;
                while j < cs.len() && cs[j].kind == ChangeKind::Gone
                    invariant
                        k <= j <= cs@.len(),
                        k < cs@.len(),
                        cs@[k as int].kind is Gone,
                        forall|t: int| k <= t < j ==> (#[trigger] cs@[t]).kind is Gone,
                        0 <= opos,
                        0 <= npos <= cn.len(),
                        opos + (j - k) <= co.len(),
                        co == old_side(cs@),
                        cn == new_side(cs@),
                        old_side(cs@.skip(j as int)) == co.skip(opos + (j - k)),
                        new_side(cs@.skip(j as int)) == cn.skip(npos),
                    decreases cs@.len() - j,
                {
                    proof {
                        assert(cs@[j as int].kind is Gone);
                        let d = j - k;
                        lemma_side_step(cs@, j as int);
                        let os = co.skip(opos + d);
                        assert(os.len() >= 1);
                        assert(os.drop_first() =~= co.skip(opos + d + 1));
                    }
                    j = j + 1;
                }
                let n = j - k;
                proof {
                    assert(j > k);
                    assert(cs@[j - 1].kind is Gone);
                    if j < cs@.len() {
                        assert(!(cs@[j as int].kind is Gone));
                    }
                    assert(!all_same_changes(cs@)) by {
                        assert(!((cs@[k as int]).kind is Same));
                    }
                }
                ops.push(DiffOp::Del(n));
                proof {
                    assert(wf_op(DiffOp::Del(n)));
                    assert forall|i: int| 0 <= i < ops@.len() implies wf_op(
                    #[trigger] ops@[i]) by {
                        if i < ops0.len() {
                            assert(ops@[i] == ops0[i]);
                        } else {
                            assert(ops@[i] == DiffOp::Del(n));
                        }
                    }
                    if ops0.len() > 0 {
                        assert(op_matches(ops0[ops0.len() - 1], cs@[k - 1].kind));
                        assert(cs@[k as int].kind != cs@[k - 1].kind);
                        assert(!same_kind(ops0[ops0.len() - 1], DiffOp::Del(n)));
                    }
                    assert forall|i: int|
                        0 <= i && i + 1 < ops@.len() implies !(#[trigger] same_kind(ops@[i],
                        ops@[i + 1])) by {
                        if i + 1 < ops0.len() {
                            assert(ops@[i] == ops0[i]);
                            assert(ops@[i + 1] == ops0[i + 1]);
                        } else {
                            assert(ops@[i] == ops0[i]);
                            assert(ops@[i + 1] == DiffOp::Del(n));
                        }
                    }
                    lemma_apply_ops_append(co, ops0, seq![DiffOp::Del(n)], 0);
                    let single = seq![DiffOp::Del(n)];
                    assert(single[0] == DiffOp::Del(n));
                    assert(single.drop_first() =~= Seq::<DiffOp>::empty());
                    assert(spec_apply_ops(co, single.drop_first(), opos + n) == Some((
                        Seq::<Seq<char>>::empty(), opos + n)));
                    assert(spec_apply_ops(co, single, opos) == Some((Seq::<Seq<char>>::empty(),
                        opos + n)));
                    assert(ops@ =~= ops0 + single);
                    assert(cn.take(npos) + Seq::<Seq<char>>::empty() =~= cn.take(npos));
                    opos = opos + n;
                }
                proof {
                    let rest = cv.skip(k as int);
                    assert forall|t: int| 0 <= t < rest.len() implies #[trigger] rest[t] == cv[k
                        + t] by {}
                    assert forall|t: int| 0 <= t < n implies (#[trigger] rest[t]).0 == rest[0].0
                        && rest[t].1 == rest[0].1 by {
                        assert(cv[k + t] == (!(cs@[k + t].kind is Added), !(cs@[k
                            + t].kind is Gone), cs@[k + t].line@));
                        assert(cs@[k + t].kind is Gone);
                        assert(cv[k as int] == (!(cs@[k as int].kind is Added), !(cs@[
                            k as int].kind is Gone), cs@[k as int].line@));
                    }
                    if n < rest.len() {
                        assert(cv[j as int] == (!(cs@[j as int].kind is Added), !(cs@[
                            j as int].kind is Gone), cs@[j as int].line@));
                        assert(!(cs@[j as int].kind is Gone));
                        assert(!(rest[n as int].0 == rest[0].0 && rest[n as int].1
                            == rest[0].1));
                    }
                    lemma_run_len_determined(rest, n as int);
                    assert(rest.skip(n as int) =~= cv.skip(j as int));
                    let opv = op_view(DiffOp::Del(n));
                    assert(rest[0].0 && !rest[0].1);
                    assert(spec_collapse(rest) == seq![opv] + spec_collapse(cv.skip(j as int)));
                    assert(script_view(ops@) =~= script_view(ops0).push(opv));
                    assert(script_view(ops0) + (seq![opv] + spec_collapse(cv.skip(j as int)))
                        =~= script_view(ops0).push(opv) + spec_collapse(cv.skip(j as int)));
                }
                k = j;
            },
            ChangeKind::Added => {
                let mut xs: Vec<String> = Vec::new();
                let mut j: usize = k;
                while j < cs.len() && cs[j].kind == ChangeKind::Added
                    invariant
                        k <= j <= cs@.len(),
                        k < cs@.len(),
                        cs@[k as int].kind is Added,
                        forall|t: int| k <= t < j ==> (#[trigger] cs@[t]).kind is Added,
                        lines_ok_changes(cs@),
                        forall|t: int| 0 <= t < xs@.len() ==> line_ok(#[trigger] xs@[t]@),
                        forall|t: int| 0 <= t < xs@.len() ==> (#[trigger] xs@[t])@ == cs@[k
                            + t].line@,
                        0 <= opos <= co.len(),
                        0 <= npos,
                        npos + (j - k) <= cn.len(),
                        xs@.len() == j - k,
                        co == old_side(cs@),
                        cn == new_side(cs@),
                        old_side(cs@.skip(j as int)) == co.skip(opos),
                        new_side(cs@.skip(j as int)) == cn.skip(npos + (j - k)),
                        lines_view(xs@) =~= cn.subrange(npos, npos + (j - k)),
                    decreases cs@.len() - j,
                {
                    proof {
                        assert(cs@[j as int].kind is Added);
                        let d = j - k;
                        lemma_side_step(cs@, j as int);
                        let ns = cn.skip(npos + d);
                        assert(ns.len() >= 1);
                        assert(ns[0] == cs@[j as int].line@);
                        assert(cn[npos + d] == cs@[j as int].line@);
                        assert(ns.drop_first() =~= cn.skip(npos + d + 1));
                    }
                    let ghost xs0 = xs@;
                    xs.push(cs[j].line.clone());
                    proof {
                        let d = j - k;
                        assert(xs@[xs@.len() - 1]@ == cs@[j as int].line@);
                        assert(line_ok(cs@[j as int].line@));
                        assert forall|t: int| 0 <= t < xs@.len() implies line_ok(
                        #[trigger] xs@[t]@) by {
                            if t < xs0.len() {
                                assert(xs@[t] == xs0[t]);
                            }
                        }
                        assert forall|t: int| 0 <= t < xs@.len() implies (#[trigger] xs@[t])@
                            == cs@[k + t].line@ by {
                            if t < xs0.len() {
                                assert(xs@[t] == xs0[t]);
                            }
                        }
                        assert(lines_view(xs@) =~= lines_view(xs0).push(cs@[j as int].line@));
                        assert(cn.subrange(npos, npos + d + 1) =~= cn.subrange(npos, npos
                            + d).push(cn[npos + d]));
                    }
                    j = j + 1;
                }
                let n = j - k;
                let ghost gxs = xs@;
                let op = DiffOp::Ins(xs);
                let ghost gop = op;
                proof {
                    assert(gop matches DiffOp::Ins(v) && v@ == gxs);
                    assert(j > k);
                    assert(cs@[j - 1].kind is Added);
                    if j < cs@.len() {
                        assert(!(cs@[j as int].kind is Added));
                    }
                    assert(!all_same_changes(cs@)) by {
                        assert(!((cs@[k as int]).kind is Same));
                    }
                    assert(wf_op(gop));
                }
                ops.push(op);
                proof {
                    assert forall|i: int| 0 <= i < ops@.len() implies wf_op(
                    #[trigger] ops@[i]) by {
                        if i < ops0.len() {
                            assert(ops@[i] == ops0[i]);
                        } else {
                            assert(ops@[i] == gop);
                        }
                    }
                    if ops0.len() > 0 {
                        assert(op_matches(ops0[ops0.len() - 1], cs@[k - 1].kind));
                        assert(cs@[k as int].kind != cs@[k - 1].kind);
                        assert(!same_kind(ops0[ops0.len() - 1], gop));
                    }
                    assert forall|i: int|
                        0 <= i && i + 1 < ops@.len() implies !(#[trigger] same_kind(ops@[i],
                        ops@[i + 1])) by {
                        if i + 1 < ops0.len() {
                            assert(ops@[i] == ops0[i]);
                            assert(ops@[i + 1] == ops0[i + 1]);
                        } else {
                            assert(ops@[i] == ops0[i]);
                            assert(ops@[i + 1] == gop);
                        }
                    }
                    lemma_apply_ops_append(co, ops0, seq![gop], 0);
                    let single = seq![gop];
                    assert(single.drop_first() =~= Seq::<DiffOp>::empty());
                    assert(single[0] == gop);
                    assert(spec_apply_ops(co, single.drop_first(), opos) == Some((
                        Seq::<Seq<char>>::empty(), opos)));
                    assert(spec_apply_ops(co, single, opos) == Some((lines_view(gxs)
                        + Seq::<Seq<char>>::empty(), opos)));
                    assert(lines_view(gxs) + Seq::<Seq<char>>::empty() =~= lines_view(gxs));
                    assert(ops@ =~= ops0 + single);
                    assert(cn.take(npos) + cn.subrange(npos, npos + n) =~= cn.take(npos + n));
                    npos = npos + n;
                }
                proof {
                    let rest = cv.skip(k as int);
                    assert forall|t: int| 0 <= t < rest.len() implies #[trigger] rest[t] == cv[k
                        + t] by {}
                    assert forall|t: int| 0 <= t < n implies (#[trigger] rest[t]).0 == rest[0].0
                        && rest[t].1 == rest[0].1 by {
                        assert(cv[k + t] == (!(cs@[k + t].kind is Added), !(cs@[k
                            + t].kind is Gone), cs@[k + t].line@));
                        assert(cs@[k + t].kind is Added);
                        assert(cv[k as int] == (!(cs@[k as int].kind is Added), !(cs@[
                            k as int].kind is Gone), cs@[k as int].line@));
                    }
                    if n < rest.len() {
                        assert(cv[j as int] == (!(cs@[j as int].kind is Added), !(cs@[
                            j as int].kind is Gone), cs@[j as int].line@));
                        assert(!(cs@[j as int].kind is Added));
                        assert(!(rest[n as int].0 == rest[0].0 && rest[n as int].1
                            == rest[0].1));
                    }
                    lemma_run_len_determined(rest, n as int);
                    assert(rest.skip(n as int) =~= cv.skip(j as int));
                    let opv = op_view(gop);
                    assert(!rest[0].0 && rest[0].1);
                    assert(rest.take(n as int).map_values(|c: (bool, bool, Seq<char>)| c.2)
                        =~= lines_view(gxs)) by {
                        assert forall|t: int|
                            0 <= t < n implies rest.take(n as int).map_values(
                            |c: (bool, bool, Seq<char>)| c.2)[t] == lines_view(gxs)[t] by {
                            assert(rest.take(n as int)[t] == cv[k + t]);
                            assert(cv[k + t] == (!(cs@[k + t].kind is Added), !(cs@[k
                                + t].kind is Gone), cs@[k + t].line@));
                            assert(gxs[t]@ == cs@[k + t].line@);
                        }
                    }
                    assert(spec_collapse(rest) == seq![opv] + spec_collapse(cv.skip(j as int)));
                    assert(script_view(ops@) =~= script_view(ops0).push(opv));
                    assert(script_view(ops0) + (seq![opv] + spec_collapse(cv.skip(j as int)))
                        =~= script_view(ops0).push(opv) + spec_collapse(cv.skip(j as int)));
                }
                k = j;
            },
        }
    }
    proof {
        assert(cs@.skip(cs@.len() as int).len() == 0);
        assert(old_side(cs@.skip(cs@.len() as int)).len() == 0);
        assert(new_side(cs@.skip(cs@.len() as int)).len() == 0);
        assert(opos == co.len());
        assert(npos == cn.len());
        assert(cn.take(npos) =~= cn);
        assert(co.skip(opos) =~= Seq::<Seq<char>>::empty());
        assert(cn + Seq::<Seq<char>>::empty() =~= cn);
        assert(cv.skip(cv.len() as int).len() == 0);
        assert(spec_collapse(cv.skip(cv.len() as int)) =~= Seq::<(
            nat,
            nat,
            Seq<Seq<char>>,
        )>::empty());
        assert(script_view(ops@) + spec_collapse(cv.skip(cv.len() as int)) =~= script_view(ops@));
    }
    ops
}

/// Generates a diff script from `old_content` to `new_content`: a
/// longest-common-subsequence diff over the `\n`-split lines, with runs of
/// same-kind changes collapsed.  Applying the script to `old_content` always
/// reproduces `new_content` — the round-trip law of the codec.  The script
/// is in generator form: positive counts, nonempty insertions free of
/// embedded newlines, no two consecutive operations of one kind.  Equal
/// contents yield the single operation that keeps every line, and the
/// script is a function of the two contents: its operation triples are the
/// collapse of the named change sequence.
pub fn generate_line_diff(old_content: &str, new_content: &str) -> (ops: Vec<DiffOp>)
    ensures
        spec_apply(old_content@, ops@) == Some(new_content@),
        wf_script(ops@),
        script_view(ops@) == spec_collapse(lcs_changes(spec_split_lines(old_content@),
            spec_split_lines(new_content@))),
        old_content@ == new_content@ ==> ops@ == seq![DiffOp::Keep(spec_split_lines(
            old_content@).len() as usize)],
{
    let old_lines = split_lines(old_content);
    let new_lines = split_lines(new_content);
    let cs = diff_line_changes(&old_lines, &new_lines);
    proof {
        lemma_split_lines_ok(old_content@);
        lemma_split_lines_ok(new_content@);
        assert forall|i: int| 0 <= i < cs@.len() implies line_ok(
        (#[trigger] cs@[i]).line@) by {
            lemma_change_line_in_sides(cs@, i);
            let l = cs@[i].line@;
            if old_side(cs@).contains(l) {
                let t = choose|t: int| 0 <= t < old_side(cs@).len() && old_side(cs@)[t] == l;
                assert(spec_split_lines(old_content@)[t] == l);
            } else {
                let t = choose|t: int| 0 <= t < new_side(cs@).len() && new_side(cs@)[t] == l;
                assert(spec_split_lines(new_content@)[t] == l);
            }
        }
    }
    let ops = collapse_changes(&cs);
    proof {
        lemma_join_split(new_content@);
        if old_content@ == new_content@ {
            assert(lines_view(old_lines@) == lines_view(new_lines@));
            assert(all_same_changes(cs@));
            lemma_all_same_old_side(cs@);
            lemma_split_lines_len(old_content@);
            assert(cs@.len() == spec_split_lines(old_content@).len());
            assert(cs@.len() >= 1);
        }
    }
    ops
}

} // verus!
