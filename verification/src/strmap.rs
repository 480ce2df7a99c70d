//! A map from strings to strings, held as two parallel vectors with unique
//! keys and viewed as a mathematical `Map` over character sequences.  The
//! engine's caches — fingerprints, contents, remote timestamps — are of this
//! shape.

use vstd::prelude::*;

use crate::strutil::{has_prefix, str_eq, str_starts_with};

verus! {

/// A string-keyed map with a `Map<Seq<char>, Seq<char>>` view.
pub struct StrMap {
    keys: Vec<String>,
    vals: Vec<String>,
}

/// The map an association list denotes; later entries win, though the
/// well-formed list never repeats a key.
pub open spec fn assoc_view(keys: Seq<String>, vals: Seq<String>) -> Map<Seq<char>, Seq<char>>
    decreases keys.len(),
{
    if keys.len() == 0 || vals.len() == 0 {
        Map::<Seq<char>, Seq<char>>::empty()
    } else {
        assoc_view(keys.drop_last(), vals.drop_last()).insert(keys.last()@, vals.last()@)
    }
}

impl View for StrMap {
    type V = Map<Seq<char>, Seq<char>>;

    closed spec fn view(&self) -> Map<Seq<char>, Seq<char>> {
        assoc_view(self.keys@, self.vals@)
    }
}

proof fn lemma_assoc_dom(keys: Seq<String>, vals: Seq<String>)
    requires
        keys.len() == vals.len(),
    ensures
        forall|k: Seq<char>|
            assoc_view(keys, vals).contains_key(k) <==> exists|i: int|
                0 <= i < keys.len() && #[trigger] keys[i]@ == k,
    decreases keys.len(),
{
    if keys.len() > 0 {
        lemma_assoc_dom(keys.drop_last(), vals.drop_last());
        assert(assoc_view(keys, vals) == assoc_view(keys.drop_last(), vals.drop_last()).insert(
            keys.last()@, vals.last()@));
        assert forall|k: Seq<char>| assoc_view(keys, vals).contains_key(k) implies exists|i: int|
            0 <= i < keys.len() && #[trigger] keys[i]@ == k by {
            assert(assoc_view(keys, vals).contains_key(k));
            if k == keys.last()@ {
                assert(keys[keys.len() - 1]@ == k);
            } else {
                let i = choose|i: int|
                    0 <= i < keys.drop_last().len() && #[trigger] keys.drop_last()[i]@ == k;
                assert(keys.drop_last()[i] == keys[i]);
                assert(keys[i]@ == k);
            }
        }
        assert forall|k: Seq<char>|
            (exists|i: int| 0 <= i < keys.len() && #[trigger] keys[i]@ == k) implies assoc_view(
            keys, vals).contains_key(k) by {
            let i = choose|i: int| 0 <= i < keys.len() && #[trigger] keys[i]@ == k;
            if i < keys.len() - 1 {
                assert(keys.drop_last()[i] == keys[i]);
                assert(keys.drop_last()[i]@ == k);
            }
        }
    }
}

proof fn lemma_assoc_get(keys: Seq<String>, vals: Seq<String>, i: int)
    requires
        keys.len() == vals.len(),
        0 <= i < keys.len(),
        forall|j1: int, j2: int|
            0 <= j1 < j2 < keys.len() ==> (#[trigger] keys[j1]@) != (#[trigger] keys[j2]@),
    ensures
        assoc_view(keys, vals).contains_key(keys[i]@),
        assoc_view(keys, vals)[keys[i]@] == vals[i]@,
    decreases keys.len(),
{
    lemma_assoc_dom(keys, vals);
    if i == keys.len() - 1 {
    } else {
        lemma_assoc_get(keys.drop_last(), vals.drop_last(), i);
        assert(keys.drop_last()[i]@ == keys[i]@);
        assert(keys[i]@ != keys.last()@);
    }
}

impl StrMap {
    /// The parallel vectors agree in length and never repeat a key.
    pub closed spec fn wf(&self) -> bool {
        &&& self.keys@.len() == self.vals@.len()
        &&& forall|j1: int, j2: int|
            0 <= j1 < j2 < self.keys@.len() ==> (#[trigger] self.keys@[j1]@) != (
            #[trigger] self.keys@[j2]@)
    }

    /// An empty map.
    pub fn new() -> (r: StrMap)
        ensures
            r.wf(),
            r@ == Map::<Seq<char>, Seq<char>>::empty(),
    {
        StrMap { keys: Vec::new(), vals: Vec::new() }
    }

    fn find(&self, key: &str) -> (r: Option<usize>)
        requires
            self.wf(),
        ensures
            match r {
                Some(i) => i < self.keys@.len() && self.keys@[i as int]@ == key@,
                None => forall|i: int| 0 <= i < self.keys@.len() ==> (#[trigger] self.keys@[i]@)
                    != key@,
            },
    {
        let mut i: usize = 0;
        while i < self.keys.len()
            invariant
                0 <= i <= self.keys@.len(),
                forall|j: int| 0 <= j < i ==> (#[trigger] self.keys@[j]@) != key@,
            decreases self.keys@.len() - i,
        {
            if str_eq(self.keys[i].as_str(), key) {
                return Some(i);
            }
            i = i + 1;
        }
        None
    }

    /// The key is present.
    pub fn contains_key(&self, key: &str) -> (r: bool)
        requires
            self.wf(),
        ensures
            r == self@.contains_key(key@),
    {
        proof {
            lemma_assoc_dom(self.keys@, self.vals@);
        }
        match self.find(key) {
            Some(_) => true,
            None => false,
        }
    }

    /// The value under `key`, copied out, or `None`.
    pub fn get(&self, key: &str) -> (r: Option<String>)
        requires
            self.wf(),
        ensures
            r is Some <==> self@.contains_key(key@),
            r matches Some(v) ==> v@ == self@[key@],
    {
        proof {
            lemma_assoc_dom(self.keys@, self.vals@);
        }
        match self.find(key) {
            Some(i) => {
                proof {
                    lemma_assoc_get(self.keys@, self.vals@, i as int);
                }
                Some(self.vals[i].clone())
            },
            None => None,
        }
    }

    /// Binds `key` to `val`, replacing any prior binding.
    pub fn insert(&mut self, key: &str, val: String)
        requires
            old(self).wf(),
        ensures
            final(self).wf(),
            final(self)@ == old(self)@.insert(key@, val@),
    {
        proof {
            lemma_assoc_dom(old(self).keys@, old(self).vals@);
        }
        match self.find(key) {
            Some(i) => {
                let ghost k0 = self.keys@;
                let ghost v0 = self.vals@;
                self.vals.set(i, val);
                proof {
                    lemma_assoc_update(k0, v0, i as int, self.vals@[i as int]);
                }
            },
            None => {
                self.keys.push(crate::strutil::str_copy(key));
                self.vals.push(val);
                proof {
                    assert(self.keys@.drop_last() =~= old(self).keys@);
                    assert(self.vals@.drop_last() =~= old(self).vals@);
                }
            },
        }
    }

    /// Drops the binding of `key`, if any.
    pub fn remove(&mut self, key: &str)
        requires
            old(self).wf(),
        ensures
            final(self).wf(),
            final(self)@ == old(self)@.remove(key@),
    {
        proof {
            lemma_assoc_dom(old(self).keys@, old(self).vals@);
        }
        match self.find(key) {
            Some(i) => {
                let ghost k0 = self.keys@;
                let ghost v0 = self.vals@;
                self.keys.remove(i);
                self.vals.remove(i);
                proof {
                    lemma_assoc_remove(k0, v0, i as int);
                }
            },
            None => {
                proof {
                    assert(self@ =~= old(self)@.remove(key@));
                }
            },
        }
    }

    /// The keys that start with `prefix`: each exactly once, each present.
    pub fn keys_with_prefix(&self, prefix: &str) -> (r: Vec<String>)
        requires
            self.wf(),
        ensures
            forall|j: int|
                0 <= j < r@.len() ==> self@.contains_key(#[trigger] r@[j]@) && has_prefix(r@[j]@,
                    prefix@),
            forall|k: Seq<char>|
                self@.contains_key(k) && has_prefix(k, prefix@) ==> exists|j: int|
                    0 <= j < r@.len() && (#[trigger] r@[j]@) == k,
            forall|j1: int, j2: int|
                0 <= j1 < j2 < r@.len() ==> (#[trigger] r@[j1]@) != (#[trigger] r@[j2]@),
    {
        let mut out: Vec<String> = Vec::new();
        let ghost mut srcs: Seq<int> = Seq::empty();
        let mut i: usize = 0;
        while i < self.keys.len()
            invariant
                self.wf(),
                0 <= i <= self.keys@.len(),
                srcs.len() == out@.len(),
                forall|j: int|
                    0 <= j < out@.len() ==> 0 <= #[trigger] srcs[j] < i && out@[j]@
                        == self.keys@[srcs[j]]@ && has_prefix(out@[j]@, prefix@),
                forall|j1: int, j2: int|
                    0 <= j1 < j2 < out@.len() ==> #[trigger] srcs[j1] < #[trigger] srcs[j2],
                forall|p: int|
                    0 <= p < i && has_prefix(#[trigger] self.keys@[p]@, prefix@) ==> exists|j: int|
                        0 <= j < out@.len() && #[trigger] srcs[j] == p,
            decreases self.keys@.len() - i,
        {
            if str_starts_with(self.keys[i].as_str(), prefix) {
                let ghost srcs0 = srcs;
                out.push(self.keys[i].clone());
                proof {
                    srcs = srcs.push(i as int);
                    assert(srcs[out@.len() - 1] == i as int);
                    assert(out@[out@.len() - 1]@ == self.keys@[i as int]@);
                    assert forall|p: int|
                        0 <= p < i + 1 && has_prefix(#[trigger] self.keys@[p]@, prefix@) implies
                        exists|j: int| 0 <= j < out@.len() && #[trigger] srcs[j] == p by {
                        if p == i {
                            assert(srcs[out@.len() - 1] == p);
                        } else {
                            let j = choose|j: int|
                                0 <= j < srcs0.len() && #[trigger] srcs0[j] == p;
                            assert(srcs[j] == p);
                        }
                    }
                }
            } else {
                proof {
                    assert forall|p: int|
                        0 <= p < i + 1 && has_prefix(#[trigger] self.keys@[p]@, prefix@) implies
                        exists|j: int| 0 <= j < out@.len() && #[trigger] srcs[j] == p by {
                        let j = choose|j: int| 0 <= j < srcs.len() && #[trigger] srcs[j] == p;
                    }
                }
            }
            i = i + 1;
        }
        proof {
            lemma_assoc_dom(self.keys@, self.vals@);
            assert forall|j: int|
                0 <= j < out@.len() implies self@.contains_key(#[trigger] out@[j]@) && has_prefix(
                out@[j]@, prefix@) by {
                assert(self.keys@[srcs[j]]@ == out@[j]@);
            }
            assert forall|k: Seq<char>|
                self@.contains_key(k) && has_prefix(k, prefix@) implies exists|j: int|
                0 <= j < out@.len() && (#[trigger] out@[j]@) == k by {
                let p = choose|p: int| 0 <= p < self.keys@.len() && #[trigger] self.keys@[p]@ == k;
                let j = choose|j: int| 0 <= j < out@.len() && #[trigger] srcs[j] == p;
                assert(out@[j]@ == k);
            }
            assert forall|j1: int, j2: int| 0 <= j1 < j2 < out@.len() implies (
            #[trigger] out@[j1]@) != (#[trigger] out@[j2]@) by {
                assert(srcs[j1] < srcs[j2]);
                assert(self.keys@[srcs[j1]]@ != self.keys@[srcs[j2]]@);
            }
        }
        out
    }
}

proof fn lemma_assoc_update(keys: Seq<String>, vals: Seq<String>, i: int, val: String)
    requires
        keys.len() == vals.len(),
        0 <= i < keys.len(),
        forall|j1: int, j2: int|
            0 <= j1 < j2 < keys.len() ==> (#[trigger] keys[j1]@) != (#[trigger] keys[j2]@),
    ensures
        assoc_view(keys, vals.update(i, val)) == assoc_view(keys, vals).insert(keys[i]@, val@),
    decreases keys.len(),
{
    let vu = vals.update(i, val);
    if i == keys.len() - 1 {
        assert(vu.drop_last() =~= vals.drop_last());
        assert(vu.last() == val);
        assert(assoc_view(keys, vu) =~= assoc_view(keys, vals).insert(keys[i]@, val@));
    } else {
        assert(vu.drop_last() =~= vals.drop_last().update(i, val));
        assert(vu.last() == vals.last());
        lemma_assoc_update(keys.drop_last(), vals.drop_last(), i, val);
        assert(keys.drop_last()[i]@ == keys[i]@);
        assert(keys[i]@ != keys.last()@);
        assert(assoc_view(keys.drop_last(), vals.drop_last()).insert(keys[i]@, val@).insert(
            keys.last()@, vals.last()@) =~= assoc_view(keys.drop_last(), vals.drop_last()).insert(
            keys.last()@, vals.last()@).insert(keys[i]@, val@));
    }
}

proof fn lemma_assoc_remove(keys: Seq<String>, vals: Seq<String>, i: int)
    requires
        keys.len() == vals.len(),
        0 <= i < keys.len(),
        forall|j1: int, j2: int|
            0 <= j1 < j2 < keys.len() ==> (#[trigger] keys[j1]@) != (#[trigger] keys[j2]@),
    ensures
        assoc_view(keys.remove(i), vals.remove(i)) == assoc_view(keys, vals).remove(keys[i]@),
    decreases keys.len(),
{
    lemma_assoc_dom(keys, vals);
    lemma_assoc_dom(keys.remove(i), vals.remove(i));
    if i == keys.len() - 1 {
        assert(keys.remove(i) =~= keys.drop_last());
        assert(vals.remove(i) =~= vals.drop_last());
        assert forall|k: Seq<char>|
            assoc_view(keys.drop_last(), vals.drop_last()).contains_key(k) implies k != keys[i]@ by {
            let j = choose|j: int|
                0 <= j < keys.drop_last().len() && #[trigger] keys.drop_last()[j]@ == k;
            assert(keys[j]@ == k);
            lemma_assoc_dom(keys.drop_last(), vals.drop_last());
        }
        assert(assoc_view(keys.drop_last(), vals.drop_last()) =~= assoc_view(keys, vals).remove(
            keys[i]@));
    } else {
        assert(keys.remove(i).drop_last() =~= keys.drop_last().remove(i));
        assert(vals.remove(i).drop_last() =~= vals.drop_last().remove(i));
        assert(keys.remove(i).last() == keys.last());
        assert(vals.remove(i).last() == vals.last());
        lemma_assoc_remove(keys.drop_last(), vals.drop_last(), i);
        assert(keys.drop_last()[i]@ == keys[i]@);
        assert(keys[i]@ != keys.last()@);
        assert(assoc_view(keys.drop_last(), vals.drop_last()).remove(keys[i]@).insert(keys.last()@,
            vals.last()@) =~= assoc_view(keys.drop_last(), vals.drop_last()).insert(keys.last()@,
            vals.last()@).remove(keys[i]@));
    }
}

} // verus!
