//! A string-keyed map that keeps its keys in sorted order, so that walking it
//! visits the keys as an ordered map would.

use vstd::prelude::*;

use crate::text::{
    string_views,
    chars_lt, compare_str, lemma_chars_lt_irreflexive, lemma_chars_lt_transitive,
    lemma_chars_lt_trichotomy,
};

verus! {

/// Keys strictly increasing in the lexicographic order of `chars_lt`.
pub open spec fn sorted_keys(keys: Seq<Seq<char>>) -> bool {
    forall|i: int, j: int| 0 <= i < j < keys.len() ==> chars_lt(#[trigger] keys[i], #[trigger] keys[j])
}

/// Sorted keys are distinct, and each key's index is where it stands.
pub proof fn lemma_sorted_index_of(keys: Seq<Seq<char>>, i: int)
    requires
        sorted_keys(keys),
        0 <= i < keys.len(),
    ensures
        keys.index_of(keys[i]) == i,
        keys.contains(keys[i]),
{
    assert(keys[i] == keys[i]);
    let j = keys.index_of(keys[i]);
    if j != i {
        lemma_chars_lt_irreflexive(keys[i]);
        if j < i {
            assert(chars_lt(keys[j], keys[i]));
        } else {
            assert(chars_lt(keys[i], keys[j]));
        }
    }
}

/// Sorted keys hold no key twice.
pub proof fn lemma_sorted_no_duplicates(keys: Seq<Seq<char>>)
    requires
        sorted_keys(keys),
    ensures
        keys.no_duplicates(),
{
    assert forall|i: int, j: int| 0 <= i < keys.len() && 0 <= j < keys.len() && i != j implies keys[i]
        != keys[j] by {
        lemma_chars_lt_irreflexive(keys[i]);
        if i < j {
            assert(chars_lt(keys[i], keys[j]));
        } else {
            assert(chars_lt(keys[j], keys[i]));
        }
    }
}

/// A map from strings to values, its entries sorted by key.
pub struct StrMap<V> {
    entries: Vec<(String, V)>,
}

impl<V> StrMap<V> {
    /// The keys, in sorted order.
    pub closed spec fn keys(&self) -> Seq<Seq<char>> {
        self.entries@.map_values(|e: (String, V)| e.0@)
    }

    /// The values, in the order of their keys.
    pub closed spec fn values(&self) -> Seq<V> {
        self.entries@.map_values(|e: (String, V)| e.1)
    }

    #[verifier::type_invariant]
    pub open spec fn wf(&self) -> bool {
        &&& sorted_keys(self.keys())
        &&& self.keys().len() == self.values().len()
    }

    pub open spec fn contains(&self, k: Seq<char>) -> bool {
        self.keys().contains(k)
    }

    /// The value stored under `k` (meaningful where `k` is a key).
    pub open spec fn value_of(&self, k: Seq<char>) -> V {
        self.values()[self.keys().index_of(k)]
    }

    /// The map that this collection holds.
    pub open spec fn map_view(&self) -> Map<Seq<char>, V> {
        Map::new(|k: Seq<char>| self.contains(k), |k: Seq<char>| self.value_of(k))
    }

    proof fn lemma_lens(&self)
        ensures
            self.keys().len() == self.entries@.len(),
            self.values().len() == self.entries@.len(),
            forall|i: int|
                0 <= i < self.entries@.len() ==> #[trigger] self.keys()[i] == self.entries@[i].0@
                    && self.values()[i] == self.entries@[i].1,
    {
    }

    pub fn new() -> (r: Self)
        ensures
            r.keys() == Seq::<Seq<char>>::empty(),
            r.values() == Seq::<V>::empty(),
            r.map_view() == Map::<Seq<char>, V>::empty(),
    {
        let r = StrMap { entries: Vec::new() };
        assert(r.keys() =~= Seq::<Seq<char>>::empty());
        assert(r.values() =~= Seq::<V>::empty());
        assert(r.map_view() =~= Map::<Seq<char>, V>::empty());
        r
    }

    pub fn len(&self) -> (r: usize)
        ensures
            r == self.keys().len(),
            r == self.values().len(),
    {
        proof {
            self.lemma_lens();
        }
        self.entries.len()
    }

    pub fn key_at(&self, i: usize) -> (r: &String)
        requires
            i < self.keys().len(),
        ensures
            r@ == self.keys()[i as int],
    {
        proof {
            self.lemma_lens();
        }
        &self.entries[i].0
    }

    pub fn value_at(&self, i: usize) -> (r: &V)
        requires
            i < self.keys().len(),
        ensures
            *r == self.values()[i as int],
    {
        proof {
            self.lemma_lens();
        }
        &self.entries[i].1
    }

    /// The keys, in sorted order.
    pub fn keys_vec(&self) -> (r: Vec<String>)
        ensures
            string_views(r@) == self.keys(),
    {
        proof {
            self.lemma_lens();
        }
        let mut r: Vec<String> = Vec::new();
        let mut i: usize = 0;
        while i < self.entries.len()
            invariant
                i <= self.entries@.len(),
                self.keys().len() == self.entries@.len(),
                forall|j: int| 0 <= j < self.entries@.len() ==> #[trigger] self.keys()[j] == self.entries@[j].0@,
                string_views(r@) == self.keys().take(i as int),
            decreases self.entries@.len() - i,
        {
            let ghost r0 = r@;
            let c = self.entries[i].0.clone();
            assert(c@ == self.keys()[i as int]);
            r.push(c);
            assert(r@ == r0.push(c));
            assert(string_views(r0) == self.keys().take(i as int));
            assert(string_views(r0).len() == r0.len());
            assert(r0.len() == i);
            assert forall|j: int| 0 <= j <= i implies #[trigger] string_views(r@)[j] == self.keys().take(i + 1)[j] by {
                if j < i {
                    assert(r@[j] == r0[j]);
                    assert(string_views(r0)[j] == r0[j]@);
                }
            }
            assert(string_views(r@) =~= self.keys().take(i + 1));
            i += 1;
        }
        assert(self.keys().take(i as int) == self.keys());
        r
    }

    /// Where `k` stands among the keys, if it is one.
    pub fn find(&self, k: &str) -> (r: Option<usize>)
        ensures
            r matches Some(i) ==> i < self.keys().len() && self.keys()[i as int] == k@
                && self.keys().index_of(k@) == i,
            r is None ==> !self.contains(k@),
    {
        proof {
            use_type_invariant(self);
            self.lemma_lens();
        }
        let mut i: usize = 0;
        while i < self.entries.len()
            invariant
                i <= self.entries@.len(),
                self.wf(),
                self.keys().len() == self.entries@.len(),
                forall|j: int| 0 <= j < i ==> self.keys()[j] != k@,
            decreases self.entries@.len() - i,
        {
            proof {
                self.lemma_lens();
            }
            if compare_str(self.entries[i].0.as_str(), k) == 0 {
                proof {
                    lemma_sorted_index_of(self.keys(), i as int);
                }
                return Some(i);
            }
            i += 1;
        }
        None
    }

    pub fn contains_key(&self, k: &str) -> (r: bool)
        ensures
            r == self.contains(k@),
    {
        self.find(k).is_some()
    }

    pub fn get(&self, k: &str) -> (r: Option<&V>)
        ensures
            r is Some == self.contains(k@),
            r matches Some(v) ==> *v == self.value_of(k@),
    {
        match self.find(k) {
            Some(i) => Some(self.value_at(i)),
            None => None,
        }
    }

    /// Stores `v` under `k`, handing back the value that `k` held before.
    pub fn insert(&mut self, k: String, v: V) -> (r: Option<V>)
        ensures
            final(self).map_view() == old(self).map_view().insert(k@, v),
            forall|key: Seq<char>| #[trigger] final(self).contains(key) == (old(self).contains(key) || key == k@),
            r is Some == old(self).contains(k@),
            r matches Some(o) ==> o == old(self).value_of(k@),
            final(self).keys().len() == old(self).keys().len() + (if old(self).contains(k@) {
                0int
            } else {
                1int
            }),
    {
        proof {
            use_type_invariant(&*self);
            self.lemma_lens();
        }
        let ghost old_keys = self.keys();
        let ghost old_vals = self.values();
        let mut entries: Vec<(String, V)> = Vec::new();
        std::mem::swap(&mut entries, &mut self.entries);
        let ghost ents = entries@;
        assert(old_keys == ents.map_values(|e: (String, V)| e.0@));
        assert(old_vals == ents.map_values(|e: (String, V)| e.1));
        let mut p: usize = 0;
        while p < entries.len() && compare_str(entries[p].0.as_str(), k.as_str()) < 0
            invariant
                p <= entries@.len(),
                entries@ == ents,
                old_keys.len() == ents.len(),
                forall|i: int| 0 <= i < ents.len() ==> #[trigger] old_keys[i] == ents[i].0@,
                forall|i: int| 0 <= i < p ==> chars_lt(#[trigger] old_keys[i], k@),
            decreases entries@.len() - p,
        {
            p += 1;
        }
        let found = p < entries.len() && compare_str(entries[p].0.as_str(), k.as_str()) == 0;
        if found {
            let (old_k, old_v) = entries.remove(p);
            entries.insert(p, (old_k, v));
            let ghost new_keys = entries@.map_values(|e: (String, V)| e.0@);
            let ghost new_vals = entries@.map_values(|e: (String, V)| e.1);
            proof {
                assert(new_keys =~= old_keys);
                assert(new_vals =~= old_vals.update(p as int, v));
                lemma_sorted_index_of(old_keys, p as int);
            }
            *self = StrMap { entries };
            proof {
                assert(self.keys() == new_keys);
                assert(self.values() == new_vals);
                assert forall|key: Seq<char>| #[trigger] self.contains(key) implies self.value_of(key)
                    == old(self).map_view().insert(k@, v)[key] by {
                    let j = old_keys.index_of(key);
                    lemma_sorted_index_of(old_keys, j);
                }
                assert(self.map_view() =~= old(self).map_view().insert(k@, v));
            }
            Some(old_v)
        } else {
            proof {
                if p < ents.len() {
                    lemma_chars_lt_trichotomy(old_keys[p as int], k@);
                }
                assert forall|i: int| 0 <= i < ents.len() implies old_keys[i] != k@ by {
                    if i < p {
                        lemma_chars_lt_irreflexive(k@);
                    } else {
                        lemma_chars_lt_trichotomy(old_keys[p as int], k@);
                        if i > p {
                            lemma_chars_lt_transitive(k@, old_keys[p as int], old_keys[i]);
                            lemma_chars_lt_irreflexive(k@);
                        }
                    }
                }
            }
            let ghost kk = k@;
            entries.insert(p, (k, v));
            let ghost new_keys = entries@.map_values(|e: (String, V)| e.0@);
            let ghost new_vals = entries@.map_values(|e: (String, V)| e.1);
            proof {
                assert(new_keys =~= old_keys.insert(p as int, kk));
                assert(new_vals =~= old_vals.insert(p as int, v));
                assert forall|i: int, j: int| 0 <= i < j < new_keys.len() implies chars_lt(
                    #[trigger] new_keys[i],
                    #[trigger] new_keys[j],
                ) by {
                    if j < p {
                    } else if j == p {
                    } else if i < p {
                        lemma_chars_lt_trichotomy(old_keys[p as int], kk);
                        if j - 1 > p {
                            assert(chars_lt(old_keys[p as int], old_keys[j - 1]));
                            lemma_chars_lt_transitive(kk, old_keys[p as int], old_keys[j - 1]);
                        }
                        lemma_chars_lt_transitive(old_keys[i], kk, old_keys[j - 1]);
                    } else if i == p {
                        lemma_chars_lt_trichotomy(old_keys[p as int], kk);
                        if j - 1 > p {
                            assert(chars_lt(old_keys[p as int], old_keys[j - 1]));
                            lemma_chars_lt_transitive(kk, old_keys[p as int], old_keys[j - 1]);
                        }
                    } else {
                        assert(chars_lt(old_keys[i - 1], old_keys[j - 1]));
                    }
                }
            }
            *self = StrMap { entries };
            proof {
                assert(self.keys() == new_keys);
                assert(self.values() == new_vals);
                assert(new_keys[p as int] == kk);
                lemma_sorted_index_of(new_keys, p as int);
                assert forall|key: Seq<char>| #[trigger] self.contains(key) == (old(self).contains(key)
                    || key == kk) by {
                    if old(self).contains(key) {
                        let j = old_keys.index_of(key);
                        if j < p {
                            assert(new_keys[j] == key);
                        } else {
                            assert(new_keys[j + 1] == key);
                        }
                    }
                    if self.contains(key) && key != kk {
                        let j = new_keys.index_of(key);
                        if j < p {
                            assert(old_keys[j] == key);
                        } else {
                            assert(old_keys[j - 1] == key);
                        }
                    }
                }
                assert forall|key: Seq<char>| #[trigger] self.contains(key) implies self.value_of(key)
                    == old(self).map_view().insert(kk, v)[key] by {
                    if key != kk {
                        let j = old_keys.index_of(key);
                        lemma_sorted_index_of(old_keys, j);
                        if j < p {
                            lemma_sorted_index_of(new_keys, j);
                            assert(new_keys[j] == key);
                        } else {
                            lemma_sorted_index_of(new_keys, j + 1);
                            assert(new_keys[j + 1] == key);
                        }
                    }
                }
                assert(self.map_view() =~= old(self).map_view().insert(kk, v));
            }
            None
        }
    }
}

} // verus!
