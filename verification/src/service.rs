//! The local file service's rules: bearer authentication, path confinement,
//! and the shape of a file response.  The HTTP server itself runs outside;
//! every request's token passes through `check_auth` and every requested
//! path through `confine_path` before any filesystem work, so no served
//! operation ever resolves outside the root.

use vstd::prelude::*;

use crate::strutil::{has_prefix, push_char, str_eq, str_starts_with};
use crate::types::FileContent;
use vstd::string::StringSliceAdditionalSpecFns;
use vstd::utf8::encode_utf8;

verus! {

/// The header authorizes the request: `Bearer ` followed exactly by the
/// server's token.
pub open spec fn spec_authorized(header: Option<Seq<char>>, token: Seq<char>) -> bool {
    match header {
        Some(h) => has_prefix(h, "Bearer "@) && h.skip(7) == token,
        None => false,
    }
}

/// Checks a request's `Authorization` header against the server token.
/// Anything but `Bearer <token>`, character for character, is refused.
pub fn check_auth(header: &Option<String>, token: &str) -> (r: bool)
    ensures
        r == spec_authorized(
            match header {
                Some(h) => Some(h@),
                None => None,
            },
            token@,
        ),
{
    match header {
        Some(h) => {
            if str_starts_with(h.as_str(), "Bearer ") {
                proof {
                    reveal_strlit("Bearer ");
                    assert(h@.len() >= 7);
                }
                let rest = h.as_str().substring_char(7, h.as_str().unicode_len());
                proof {
                    assert(rest@ =~= h@.skip(7));
                }
                str_eq(rest, token)
            } else {
                false
            }
        },
        None => false,
    }
}

/// The `/`-separated components of a path.
pub open spec fn spec_split_slash(s: Seq<char>) -> Seq<Seq<char>>
    decreases s.len(),
{
    if s.len() == 0 {
        seq![Seq::<char>::empty()]
    } else {
        let rest = spec_split_slash(s.drop_last());
        if s.last() == '/' {
            rest.push(Seq::<char>::empty())
        } else {
            rest.update(rest.len() - 1, rest.last().push(s.last()))
        }
    }
}

proof fn lemma_split_slash_len(s: Seq<char>)
    ensures
        spec_split_slash(s).len() >= 1,
    decreases s.len(),
{
    if s.len() > 0 {
        lemma_split_slash_len(s.drop_last());
    }
}

/// A component that names a real entry: not empty, not `.`, not `..`.
pub open spec fn is_plain_component(c: Seq<char>) -> bool {
    c.len() > 0 && c != "."@ && c != ".."@
}

/// Lexical normalization of a component list over a stack: empty and `.`
/// components vanish, `..` pops — and escapes when there is nothing left to
/// pop.
pub open spec fn spec_norm(stack: Seq<Seq<char>>, parts: Seq<Seq<char>>) -> Option<
    Seq<Seq<char>>,
>
    decreases parts.len(),
{
    if parts.len() == 0 {
        Some(stack)
    } else {
        let head = parts[0];
        if head.len() == 0 || head == "."@ {
            spec_norm(stack, parts.drop_first())
        } else if head == ".."@ {
            if stack.len() == 0 {
                None
            } else {
                spec_norm(stack.drop_last(), parts.drop_first())
            }
        } else {
            spec_norm(stack.push(head), parts.drop_first())
        }
    }
}

/// The confined components of a decoded request path: `None` when the path
/// is absolute or its `..` components would climb out of the root.
pub open spec fn spec_confine_parts(raw: Seq<char>) -> Option<Seq<Seq<char>>> {
    if raw.len() > 0 && raw[0] == '/' {
        None
    } else {
        spec_norm(Seq::<Seq<char>>::empty(), spec_split_slash(raw))
    }
}

/// Components joined with `/`.
pub open spec fn spec_join_slash(parts: Seq<Seq<char>>) -> Seq<char>
    decreases parts.len(),
{
    if parts.len() == 0 {
        Seq::<char>::empty()
    } else if parts.len() == 1 {
        parts[0]
    } else {
        parts[0] + seq!['/'] + spec_join_slash(parts.drop_first())
    }
}

/// The confined relative path, or `None` for a path that escapes.
pub open spec fn spec_confine(raw: Seq<char>) -> Option<Seq<char>> {
    match spec_confine_parts(raw) {
        Some(parts) => Some(spec_join_slash(parts)),
        None => None,
    }
}

/// Splits a decoded path on `/`.
fn split_slash(s: &str) -> (r: Vec<String>)
    ensures
        r@.map_values(|p: String| p@) == spec_split_slash(s@),
{
    let len = s.unicode_len();
    let mut out: Vec<String> = Vec::new();
    let mut cur = String::new();
    let mut i: usize = 0;
    while i < len
        invariant
            len == s@.len(),
            0 <= i <= len,
            out@.map_values(|p: String| p@).push(cur@) =~= spec_split_slash(
                s@.subrange(0, i as int),
            ),
        decreases len - i,
    {
        let c = s.get_char(i);
        proof {
            assert(s@.subrange(0, i + 1).drop_last() =~= s@.subrange(0, i as int));
            assert(s@.subrange(0, i + 1).last() == s@[i as int]);
            lemma_split_slash_len(s@.subrange(0, i as int));
        }
        if c == '/' {
            out.push(cur);
            cur = String::new();
            proof {
                assert(out@.map_values(|p: String| p@).push(cur@) =~= spec_split_slash(
                    s@.subrange(0, i as int)).push(Seq::<char>::empty()));
            }
        } else {
            push_char(&mut cur, c);
            proof {
                let prev = spec_split_slash(s@.subrange(0, i as int));
                assert(prev.last() == cur@.drop_last());
                assert(cur@.drop_last().push(c) =~= cur@);
                assert(out@.map_values(|p: String| p@).push(cur@) =~= prev.update(prev.len() - 1,
                    prev.last().push(c)));
            }
        }
        i = i + 1;
    }
    out.push(cur);
    proof {
        assert(s@.subrange(0, len as int) =~= s@);
        assert(out@.map_values(|p: String| p@) =~= out@.drop_last().map_values(
            |p: String| p@).push(cur@));
    }
    out
}

/// Joins components with `/`.
fn join_slash(parts: &Vec<String>) -> (r: String)
    ensures
        r@ == spec_join_slash(parts@.map_values(|p: String| p@)),
{
    let mut out = String::new();
    if parts.len() == 0 {
        return out;
    }
    out.append(parts[0].as_str());
    let mut i: usize = 1;
    while i < parts.len()
        invariant
            1 <= i <= parts@.len(),
            out@ == spec_join_slash(parts@.subrange(0, i as int).map_values(|p: String| p@)),
        decreases parts@.len() - i,
    {
        proof {
            let pre = parts@.subrange(0, i as int).map_values(|p: String| p@);
            assert(pre.len() == i);
            lemma_join_slash_push(pre, parts@[i as int]@);
            assert(parts@.subrange(0, i + 1).map_values(|p: String| p@) =~= pre.push(
                parts@[i as int]@));
        }
        push_char(&mut out, '/');
        out.append(parts[i].as_str());
        proof {
            let pre = parts@.subrange(0, i as int).map_values(|p: String| p@);
            assert(out@ =~= spec_join_slash(pre) + seq!['/'] + parts@[i as int]@);
        }
        i = i + 1;
    }
    proof {
        assert(parts@.subrange(0, parts@.len() as int) =~= parts@);
        assert(parts@.subrange(0, 1).map_values(|p: String| p@) =~= seq![parts@[0]@]);
    }
    out
}

proof fn lemma_join_slash_push(ls: Seq<Seq<char>>, l: Seq<char>)
    requires
        ls.len() >= 1,
    ensures
        spec_join_slash(ls.push(l)) == spec_join_slash(ls) + seq!['/'] + l,
    decreases ls.len(),
{
    if ls.len() == 1 {
        let p = ls.push(l);
        assert(p.drop_first() =~= seq![l]);
        assert(seq![l][0] == l);
        assert(spec_join_slash(seq![l]) == l);
        assert(p[0] == ls[0]);
    } else {
        lemma_join_slash_push(ls.drop_first(), l);
        let p = ls.push(l);
        assert(p.drop_first() =~= ls.drop_first().push(l));
        assert(p[0] == ls[0]);
        assert(ls[0] + seq!['/'] + (spec_join_slash(ls.drop_first()) + seq!['/'] + l) =~= (ls[0]
            + seq!['/'] + spec_join_slash(ls.drop_first())) + seq!['/'] + l);
    }
}

/// Confines a decoded request path to the root: resolves `.` and `..`
/// lexically and rejects anything absolute or climbing out.  `Some` is the
/// clean relative path to serve; `None` is a confinement violation.
pub fn confine_path(raw: &str) -> (r: Option<String>)
    ensures
        r is Some <==> spec_confine(raw@) is Some,
        r matches Some(p) ==> Some(p@) == spec_confine(raw@),
{
    if raw.unicode_len() > 0 && raw.get_char(0) == '/' {
        return None;
    }
    let parts = split_slash(raw);
    let mut stack: Vec<String> = Vec::new();
    let mut i: usize = 0;
    let ghost pviews = parts@.map_values(|p: String| p@);
    proof {
        assert(pviews.skip(0) =~= pviews);
        assert(stack@.map_values(|p: String| p@) =~= Seq::<Seq<char>>::empty());
    }
    while i < parts.len()
        invariant
            0 <= i <= parts@.len(),
            pviews == parts@.map_values(|p: String| p@),
            pviews.len() == parts@.len(),
            pviews == spec_split_slash(raw@),
            !(raw@.len() > 0 && raw@[0] == '/'),
            spec_norm(Seq::<Seq<char>>::empty(), pviews) == spec_norm(
                stack@.map_values(|p: String| p@),
                pviews.skip(i as int),
            ),
        decreases parts@.len() - i,
    {
        proof {
            assert(pviews.skip(i as int)[0] == pviews[i as int]);
            assert(pviews.skip(i as int).drop_first() =~= pviews.skip(i + 1));
            assert(parts@[i as int]@ == pviews[i as int]);
            reveal_strlit(".");
            reveal_strlit("..");
        }
        let part = &parts[i];
        if part.as_str().is_empty() || str_eq(part.as_str(), ".") {
        } else if str_eq(part.as_str(), "..") {
            if stack.len() == 0 {
                proof {
                    assert(spec_norm(Seq::<Seq<char>>::empty(), pviews) is None);
                }
                return None;
            }
            let ghost st0 = stack@;
            stack.pop();
            proof {
                assert(stack@ =~= st0.drop_last());
                assert(stack@.map_values(|p: String| p@) =~= st0.map_values(
                    |p: String| p@).drop_last());
            }
        } else {
            let ghost st0 = stack@;
            stack.push(part.clone());
            proof {
                assert(stack@.map_values(|p: String| p@) =~= st0.map_values(|p: String| p@).push(
                    pviews[i as int]));
            }
        }
        i = i + 1;
    }
    proof {
        assert(pviews.skip(pviews.len() as int).len() == 0);
    }
    let joined = join_slash(&stack);
    Some(joined)
}

/// A component is free of separators.
pub open spec fn slash_free(c: Seq<char>) -> bool {
    forall|j: int| 0 <= j < c.len() ==> (#[trigger] c[j]) != '/'
}

/// Every component of a confined path names a real entry: the normalized
/// parts hold no empty, `.` or `..` component and no separator, so resolving
/// the path under the root cannot leave it.
pub proof fn lemma_confined_stays_under_root(raw: Seq<char>)
    ensures
        spec_confine_parts(raw) matches Some(parts) ==> forall|i: int|
            0 <= i < parts.len() ==> is_plain_component(#[trigger] parts[i]) && slash_free(
                parts[i]),
{
    if spec_confine_parts(raw) is Some {
        lemma_split_slash_free(raw);
        lemma_norm_plain(Seq::<Seq<char>>::empty(), spec_split_slash(raw));
    }
}

proof fn lemma_norm_plain(stack: Seq<Seq<char>>, parts: Seq<Seq<char>>)
    requires
        forall|i: int|
            0 <= i < stack.len() ==> is_plain_component(#[trigger] stack[i]) && slash_free(
                stack[i]),
        forall|i: int| 0 <= i < parts.len() ==> slash_free(#[trigger] parts[i]),
        spec_norm(stack, parts) is Some,
    ensures
        forall|i: int|
            0 <= i < spec_norm(stack, parts)->Some_0.len() ==> is_plain_component(
                #[trigger] spec_norm(stack, parts)->Some_0[i]) && slash_free(
                spec_norm(stack, parts)->Some_0[i]),
    decreases parts.len(),
{
    if parts.len() > 0 {
        let head = parts[0];
        assert(forall|i: int|
            0 <= i < parts.drop_first().len() ==> slash_free(#[trigger] parts.drop_first()[i]));
        if head.len() == 0 || head == "."@ {
            lemma_norm_plain(stack, parts.drop_first());
        } else if head == ".."@ {
            lemma_norm_plain(stack.drop_last(), parts.drop_first());
        } else {
            assert(is_plain_component(head));
            assert(slash_free(head));
            let st = stack.push(head);
            assert(forall|i: int|
                0 <= i < st.len() ==> is_plain_component(#[trigger] st[i]) && slash_free(st[i]));
            lemma_norm_plain(st, parts.drop_first());
        }
    }
}

proof fn lemma_split_slash_free(s: Seq<char>)
    ensures
        forall|i: int|
            0 <= i < spec_split_slash(s).len() ==> slash_free(#[trigger] spec_split_slash(s)[i]),
    decreases s.len(),
{
    if s.len() == 0 {
        assert(slash_free(Seq::<char>::empty()));
        assert(spec_split_slash(s)[0] == Seq::<char>::empty());
    } else {
        lemma_split_slash_free(s.drop_last());
        lemma_split_slash_len(s.drop_last());
        let rest = spec_split_slash(s.drop_last());
        let whole = spec_split_slash(s);
        if s.last() == '/' {
            assert forall|i: int| 0 <= i < whole.len() implies slash_free(#[trigger] whole[i]) by {
                if i < rest.len() {
                    assert(whole[i] == rest[i]);
                } else {
                    assert(whole[i] == Seq::<char>::empty());
                }
            }
        } else {
            assert forall|i: int| 0 <= i < whole.len() implies slash_free(#[trigger] whole[i]) by {
                if i < rest.len() - 1 {
                    assert(whole[i] == rest[i]);
                } else {
                    assert(whole[i] == rest.last().push(s.last()));
                    assert(slash_free(rest[rest.len() - 1]));
                    assert forall|j: int| 0 <= j < whole[i].len() implies (#[trigger] whole[i][j])
                        != '/' by {
                        if j < whole[i].len() - 1 {
                            assert(whole[i][j] == rest.last()[j]);
                        } else {
                            assert(whole[i][j] == s.last());
                        }
                    }
                }
            }
        }
    }
}

proof fn lemma_split_single(c: Seq<char>)
    requires
        slash_free(c),
    ensures
        spec_split_slash(c) == seq![c],
    decreases c.len(),
{
    if c.len() == 0 {
        assert(c =~= Seq::<char>::empty());
        assert(spec_split_slash(c) =~= seq![c]);
    } else {
        assert(slash_free(c.drop_last())) by {
            assert(forall|j: int|
                0 <= j < c.drop_last().len() ==> (#[trigger] c.drop_last()[j]) == c[j]);
        }
        lemma_split_single(c.drop_last());
        assert(c.last() != '/');
        assert(spec_split_slash(c) =~= seq![c.drop_last().push(c.last())]);
        assert(c.drop_last().push(c.last()) =~= c);
    }
}

proof fn lemma_split_concat(a: Seq<char>, b: Seq<char>)
    ensures
        spec_split_slash(a + seq!['/'] + b) == spec_split_slash(a) + spec_split_slash(b),
    decreases b.len(),
{
    lemma_split_slash_len(a);
    if b.len() == 0 {
        let w = a + seq!['/'] + b;
        assert(w =~= a.push('/'));
        assert(w.drop_last() =~= a);
        assert(w.last() == '/');
        assert(spec_split_slash(w) == spec_split_slash(a).push(Seq::<char>::empty()));
        assert(spec_split_slash(a).push(Seq::<char>::empty()) =~= spec_split_slash(a)
            + spec_split_slash(b));
    } else {
        lemma_split_concat(a, b.drop_last());
        lemma_split_slash_len(b.drop_last());
        let w = a + seq!['/'] + b;
        let wp = a + seq!['/'] + b.drop_last();
        assert(w.drop_last() =~= wp);
        assert(w.last() == b.last());
        let sa = spec_split_slash(a);
        let sp = spec_split_slash(b.drop_last());
        if b.last() == '/' {
            assert(spec_split_slash(w) == (sa + sp).push(Seq::<char>::empty()));
            assert((sa + sp).push(Seq::<char>::empty()) =~= sa + sp.push(Seq::<char>::empty()));
        } else {
            assert(spec_split_slash(w) == (sa + sp).update((sa + sp).len() - 1, (sa
                + sp).last().push(b.last())));
            assert((sa + sp).last() == sp.last());
            assert((sa + sp).update((sa + sp).len() - 1, sp.last().push(b.last())) =~= sa
                + sp.update(sp.len() - 1, sp.last().push(b.last())));
        }
    }
}

proof fn lemma_split_join(parts: Seq<Seq<char>>)
    requires
        parts.len() >= 1,
        forall|i: int| 0 <= i < parts.len() ==> slash_free(#[trigger] parts[i]),
    ensures
        spec_split_slash(spec_join_slash(parts)) == parts,
    decreases parts.len(),
{
    if parts.len() == 1 {
        lemma_split_single(parts[0]);
        assert(spec_split_slash(spec_join_slash(parts)) =~= parts);
    } else {
        assert(forall|i: int|
            0 <= i < parts.drop_first().len() ==> slash_free(#[trigger] parts.drop_first()[i]));
        lemma_split_join(parts.drop_first());
        lemma_split_single(parts[0]);
        lemma_split_concat(parts[0], spec_join_slash(parts.drop_first()));
        assert(seq![parts[0]] + parts.drop_first() =~= parts);
    }
}

/// The confinement law in full: the absolute path the service resolves is
/// the root followed by the confined components, which are all plain names.
/// Its component list therefore begins with the root's own, and what follows
/// never climbs: every served path stays under the root.
pub proof fn lemma_resolved_path_components(root: Seq<char>, raw: Seq<char>)
    ensures
        spec_confine_parts(raw) matches Some(parts) ==> {
            &&& (parts.len() > 0 ==> spec_split_slash(root + seq!['/'] + spec_join_slash(parts))
                == spec_split_slash(root) + parts)
            &&& forall|i: int|
                0 <= i < parts.len() ==> is_plain_component(#[trigger] parts[i])
        },
{
    lemma_confined_stays_under_root(raw);
    match spec_confine_parts(raw) {
        Some(parts) => {
            if parts.len() > 0 {
                lemma_split_join(parts);
                lemma_split_concat(root, spec_join_slash(parts));
            }
        },
        None => {},
    }
}

/// Builds a file response: the path and content as given, the size the
/// content's byte length.
pub fn make_file_content(path: String, content: String, modified: String) -> (r: FileContent)
    ensures
        r.path@ == path@,
        r.content@ == content@,
        r.modified@ == modified@,
        r.size == encode_utf8(content@).len(),
{
    let cstr = content.as_str();
    let size = cstr.as_bytes().len() as u64;
    proof {
        assert(cstr.spec_bytes() == encode_utf8(content@));
    }
    FileContent { path, content, size, modified }
}

} // verus!
