//! The ordering and filtering rules of the local scanner: hidden entries are
//! dropped, only Markdown files count, and siblings are sorted with folders
//! first, then files, then lexicographically by name.  The walk over the
//! filesystem happens outside; each directory's raw entries pass through
//! `clean_children`, so every sibling list in a scanned tree is clean and
//! sorted.

use vstd::prelude::*;

use vstd::multiset::Multiset;

use crate::strutil::{has_suffix, lex_lt, lemma_lex_lt_asym, lemma_lex_lt_connex,
    lemma_lex_lt_trans, str_eq, str_ends_with};
use crate::types::{FileItem, is_folder};

verus! {

/// The name denotes a hidden entry: it begins with a dot.
pub open spec fn spec_hidden_name(name: Seq<char>) -> bool {
    name.len() > 0 && name[0] == '.'
}

/// The name has the Markdown extension: it ends in `.md` with a non-empty
/// stem, as a path's extension is read.
pub open spec fn spec_md_name(name: Seq<char>) -> bool {
    name.len() > 3 && has_suffix(name, ".md"@)
}

/// Hidden entries — names beginning with `.` — are never scanned.
pub fn is_hidden_name(name: &str) -> (r: bool)
    ensures
        r == spec_hidden_name(name@),
{
    if name.unicode_len() == 0 {
        return false;
    }
    name.get_char(0) == '.'
}

/// The file counts as Markdown: its extension is exactly `md`.
pub fn is_md_name(name: &str) -> (r: bool)
    ensures
        r == spec_md_name(name@),
{
    name.unicode_len() > 3 && str_ends_with(name, ".md")
}

/// The sibling order of a scanned tree: folders before files, then
/// lexicographically by name.
pub open spec fn node_le(a: FileItem, b: FileItem) -> bool {
    if is_folder(a) && !is_folder(b) {
        true
    } else if !is_folder(a) && is_folder(b) {
        false
    } else {
        !lex_lt(b.name@, a.name@)
    }
}

/// A sibling list in scanner order.
pub open spec fn sorted_nodes(s: Seq<FileItem>) -> bool {
    forall|i: int, j: int| 0 <= i < j < s.len() ==> node_le(#[trigger] s[i], #[trigger] s[j])
}

proof fn lemma_node_le_total(a: FileItem, b: FileItem)
    ensures
        node_le(a, b) || node_le(b, a),
{
    if a.name@ == b.name@ {
        lemma_lex_lt_asym(a.name@, b.name@);
    } else {
        lemma_lex_lt_connex(a.name@, b.name@);
        lemma_lex_lt_asym(a.name@, b.name@);
    }
}

proof fn lemma_node_le_trans(a: FileItem, b: FileItem, c: FileItem)
    requires
        node_le(a, b),
        node_le(b, c),
    ensures
        node_le(a, c),
{
    if !(is_folder(a) && !is_folder(c)) && (is_folder(a) == is_folder(c)) {
        if lex_lt(c.name@, a.name@) {
            if is_folder(a) == is_folder(b) {
                if lex_lt(b.name@, a.name@) {
                } else if b.name@ == a.name@ {
                } else {
                    lemma_lex_lt_connex(a.name@, b.name@);
                    lemma_lex_lt_trans(c.name@, a.name@, b.name@);
                    lemma_lex_lt_asym(c.name@, b.name@);
                }
            }
        }
    }
}

/// `node_le` as executable code.
fn node_le_fn(a: &FileItem, b: &FileItem) -> (r: bool)
    ensures
        r == node_le(*a, *b),
{
    let af = str_eq(a.file_type.as_str(), "folder");
    let bf = str_eq(b.file_type.as_str(), "folder");
    if af && !bf {
        true
    } else if !af && bf {
        false
    } else {
        !crate::strutil::str_lt(b.name.as_str(), a.name.as_str())
    }
}

proof fn lemma_insert_to_multiset<A>(s: Seq<A>, k: int, x: A)
    requires
        0 <= k <= s.len(),
    ensures
        s.insert(k, x).to_multiset() == s.to_multiset().insert(x),
{
    broadcast use vstd::seq_lib::group_to_multiset_ensures;

    let t = s.insert(k, x);
    assert(t.remove(k) =~= s);
    assert(t[k] == x);
    assert(t.remove(k).to_multiset() =~= t.to_multiset().remove(x));
    assert(t.contains(x));
    assert(t.to_multiset().count(x) > 0);
    assert(t.to_multiset() =~= s.to_multiset().insert(x));
}

/// Sorts a sibling list into scanner order.  The result holds exactly the
/// given nodes.
pub fn sort_nodes(items: Vec<FileItem>) -> (r: Vec<FileItem>)
    ensures
        sorted_nodes(r@),
        r@.to_multiset() == items@.to_multiset(),
{
    broadcast use vstd::seq_lib::group_to_multiset_ensures;

    let mut rest = items;
    let ghost all = rest@;
    let n0 = rest.len();
    let mut out: Vec<FileItem> = Vec::new();
    proof {
        assert(all.len() == n0);
        assert(out@.to_multiset() =~= Multiset::<FileItem>::empty());
        assert(all.skip(0) =~= all);
    }
    let mut i: usize = 0;
    while rest.len() > 0
        invariant
            i + rest@.len() == all.len(),
            all.len() <= usize::MAX,
            rest@ =~= all.skip(i as int),
            sorted_nodes(out@),
            out@.to_multiset().add(rest@.to_multiset()) == all.to_multiset(),
        decreases rest@.len(),
    {
        let ghost rest0 = rest@;
        let x = rest.remove(0);
        proof {
            broadcast use vstd::seq_lib::group_to_multiset_ensures;

            assert(rest0.remove(0) =~= rest@);
            assert(rest0[0] == x);
            assert(rest0.remove(0).to_multiset() == rest0.to_multiset().remove(rest0[0]));
            assert(rest0.to_multiset().remove(x) =~= rest@.to_multiset());
            assert(rest0.contains(x));
            assert(rest0.to_multiset().count(x) > 0);
            assert(rest@ =~= all.skip(i + 1));
        }
        let mut k: usize = 0;
        while k < out.len() && node_le_fn(&out[k], &x)
            invariant
                0 <= k <= out@.len(),
                forall|j: int| 0 <= j < k ==> node_le(#[trigger] out@[j], x),
            decreases out@.len() - k,
        {
            k = k + 1;
        }
        let ghost out0 = out@;
        proof {
            if k < out0.len() {
                lemma_node_le_total(out0[k as int], x);
                assert forall|j: int| k <= j < out0.len() implies node_le(x, #[trigger] out0[j]) by {
                    if j > k {
                        lemma_node_le_trans(x, out0[k as int], out0[j]);
                    }
                }
            }
            lemma_insert_to_multiset(out0, k as int, x);
        }
        out.insert(k, x);
        proof {
            broadcast use vstd::seq_lib::group_to_multiset_ensures;

            assert forall|p: int, q: int| 0 <= p < q < out@.len() implies node_le(
                #[trigger] out@[p], #[trigger] out@[q]) by {
                if q < k {
                } else if p < k && q == k {
                } else if p < k && q > k {
                    assert(out@[q] == out0[q - 1]);
                } else if p == k {
                    assert(out@[q] == out0[q - 1]);
                } else {
                    assert(out@[p] == out0[p - 1]);
                    assert(out@[q] == out0[q - 1]);
                }
            }
            assert(out@.to_multiset().add(rest@.to_multiset()) =~= all.to_multiset());
        }
        i = i + 1;
    }
    proof {
        assert(rest@.to_multiset().len() == 0);
        assert(out@.to_multiset().add(rest@.to_multiset()) =~= out@.to_multiset());
    }
    out
}

/// The visible entries of a raw sibling list: those whose names do not begin
/// with a dot.
pub open spec fn visible_of(s: Seq<FileItem>) -> Seq<FileItem> {
    s.filter(|it: FileItem| !spec_hidden_name(it.name@))
}

/// Drops hidden entries from a raw sibling list and sorts the rest into
/// scanner order.  Every sibling list of a scanned tree passes through here,
/// so no scanned tree holds a hidden entry or an unsorted sibling list.
pub fn clean_children(items: Vec<FileItem>) -> (r: Vec<FileItem>)
    ensures
        sorted_nodes(r@),
        forall|i: int| 0 <= i < r@.len() ==> !spec_hidden_name(#[trigger] r@[i].name@),
        r@.to_multiset() == visible_of(items@).to_multiset(),
{
    broadcast use vstd::seq_lib::group_to_multiset_ensures;

    let mut rest = items;
    let ghost all = rest@;
    let n0 = rest.len();
    let mut keep: Vec<FileItem> = Vec::new();
    proof {
        assert(all.len() == n0);
        assert(all.skip(0) =~= all);
        assert(visible_of(all.take(0)) =~= Seq::<FileItem>::empty());
    }
    let mut i: usize = 0;
    while rest.len() > 0
        invariant
            i + rest@.len() == all.len(),
            all.len() <= usize::MAX,
            rest@ =~= all.skip(i as int),
            keep@ =~= visible_of(all.take(i as int)),
        decreases rest@.len(),
    {
        let ghost rest0 = rest@;
        let x = rest.remove(0);
        proof {
            assert(rest0.remove(0) =~= rest@);
            assert(rest0[0] == x);
            assert(all[i as int] == x);
            assert(rest@ =~= all.skip(i + 1));
            assert(all.take(i + 1).drop_last() =~= all.take(i as int));
            assert(all.take(i + 1).last() == x);
            reveal_with_fuel(Seq::filter, 2);
            assert(visible_of(all.take(i + 1)) == if !spec_hidden_name(x.name@) {
                visible_of(all.take(i as int)).push(x)
            } else {
                visible_of(all.take(i as int))
            });
        }
        if !is_hidden_name(x.name.as_str()) {
            keep.push(x);
        }
        i = i + 1;
    }
    proof {
        assert(all.take(all.len() as int) =~= all);
    }
    let ghost kept = keep@;
    let sorted = sort_nodes(keep);
    proof {
        broadcast use vstd::seq_lib::group_to_multiset_ensures;
        broadcast use vstd::seq_lib::group_filter_ensures;

        assert forall|i: int| 0 <= i < sorted@.len() implies !spec_hidden_name(
            #[trigger] sorted@[i].name@) by {
            assert(sorted@.contains(sorted@[i]));
            assert(sorted@.to_multiset().count(sorted@[i]) > 0);
            assert(kept.to_multiset().count(sorted@[i]) > 0);
            assert(kept.contains(sorted@[i]));
            let j = choose|j: int| 0 <= j < kept.len() && kept[j] == sorted@[i];
            assert(visible_of(all)[j] == kept[j]);
        }
    }
    sorted
}

/// A scanned folder is emitted only when it still holds something after its
/// own children were cleaned: a subtree whose Markdown files are all hidden
/// stays hidden with them.
pub fn keep_folder(children: &Vec<FileItem>) -> (r: bool)
    ensures
        r == (children@.len() > 0),
{
    !children.is_empty()
}

/// The files of a tree, depth first and in order; folders contribute their
/// children and are themselves dropped.
pub open spec fn spec_flatten(items: Seq<FileItem>) -> Seq<FileItem>
    decreases items,
{
    if items.len() == 0 {
        Seq::<FileItem>::empty()
    } else {
        let head = items[0];
        let head_part = if is_folder(head) {
            match head.children {
                Some(c) => spec_flatten(c@),
                None => Seq::<FileItem>::empty(),
            }
        } else {
            seq![FileItem { children: None, ..head }]
        };
        head_part + spec_flatten(items.drop_first())
    }
}

/// Flattens a tree into its files only, depth first.
pub fn flatten_file_paths(items: &Vec<FileItem>) -> (r: Vec<FileItem>)
    ensures
        r@ == spec_flatten(items@),
    decreases items@,
{
    let mut out: Vec<FileItem> = Vec::new();
    let mut i: usize = 0;
    proof {
        assert(items@.skip(0) =~= items@);
    }
    while i < items.len()
        invariant
            0 <= i <= items@.len(),
            out@ + spec_flatten(items@.skip(i as int)) == spec_flatten(items@),
        decreases items@.len() - i,
    {
        proof {
            assert(items@.skip(i as int)[0] == items@[i as int]);
            assert(items@.skip(i as int).drop_first() =~= items@.skip(i + 1));
        }
        let item = &items[i];
        if str_eq(item.file_type.as_str(), "folder") {
            match &item.children {
                Some(children) => {
                    proof {
                        assert(decreases_to!(items@ => items@[i as int]));
                        assert(decreases_to!(items@[i as int] => items@[i as int].children));
                        assert(decreases_to!(items@[i as int].children => children@));
                    }
                    let mut sub = flatten_file_paths(children);
                    let ghost out0 = out@;
                    out.append(&mut sub);
                    proof {
                        assert(out@ =~= out0 + spec_flatten(children@));
                        assert((out0 + spec_flatten(children@)) + spec_flatten(items@.skip(i + 1))
                            =~= out0 + (spec_flatten(children@) + spec_flatten(items@.skip(i
                            + 1))));
                    }
                },
                None => {
                    proof {
                        assert(Seq::<FileItem>::empty() + spec_flatten(items@.skip(i + 1))
                            =~= spec_flatten(items@.skip(i + 1)));
                    }
                },
            }
        } else {
            let ghost out0 = out@;
            out.push(clone_file_leaf(&items[i]));
            proof {
                let leaf = FileItem { children: None, ..items@[i as int] };
                assert(out@ =~= out0.push(leaf));
                assert(out0.push(leaf) + spec_flatten(items@.skip(i + 1)) =~= out0 + (seq![leaf]
                    + spec_flatten(items@.skip(i + 1))));
            }
        }
        i = i + 1;
    }
    proof {
        assert(items@.skip(items@.len() as int).len() == 0);
        assert(out@ + Seq::<FileItem>::empty() =~= out@);
    }
    out
}

/// Copies a file node field by field, dropping children: flattened nodes are
/// files, and files carry none.
fn clone_file_leaf(item: &FileItem) -> (r: FileItem)
    ensures
        r == (FileItem { children: None, ..*item }),
{
    let size: Option<u64> = match &item.size {
        Some(s) => Some(*s),
        None => None,
    };
    let modified: Option<String> = match &item.modified {
        Some(m) => Some(m.clone()),
        None => None,
    };
    FileItem {
        name: item.name.clone(),
        path: item.path.clone(),
        file_type: item.file_type.clone(),
        size,
        modified,
        children: None,
    }
}

} // verus!
