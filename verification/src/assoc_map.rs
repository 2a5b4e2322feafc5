use vstd::prelude::*;
use crate::key_codec::KeyEncoding;
use crate::text::{bytes_equal, copy_range};

verus! {

/// A key that can be compared and copied by its value.
pub trait MapKey: View + Sized {
    fn key_eq(&self, other: &Self) -> (r: bool)
        ensures
            r == (self@ == other@),
    ;

    fn key_copy(&self) -> (r: Self)
        ensures
            r@ == self@,
    ;
}

impl MapKey for Vec<u8> {
    fn key_eq(&self, other: &Self) -> (r: bool) {
        bytes_equal(self.as_slice(), other.as_slice())
    }

    fn key_copy(&self) -> (r: Self) {
        proof {
            assert(self@.subrange(0, self@.len() as int) =~= self@);
        }
        copy_range(self.as_slice(), 0, self.len())
    }
}

impl MapKey for KeyEncoding {
    fn key_eq(&self, other: &Self) -> (r: bool) {
        self.same_key(other)
    }

    fn key_copy(&self) -> (r: Self) {
        self.copy()
    }
}

impl MapKey for u32 {
    fn key_eq(&self, other: &Self) -> (r: bool) {
        *self == *other
    }

    fn key_copy(&self) -> (r: Self) {
        *self
    }
}

/// The map that a list of pairs stands for: later pairs win.
pub open spec fn map_of<K: View, V: View>(s: Seq<(K, V)>) -> Map<K::V, V::V>
    decreases s.len(),
{
    if s.len() == 0 {
        Map::empty()
    } else {
        map_of(s.drop_last()).insert(s.last().0@, s.last().1@)
    }
}

/// No key occurs twice in the list.
pub open spec fn distinct_keys<K: View, V>(s: Seq<(K, V)>) -> bool {
    forall|i: int, j: int|
        0 <= i < j < s.len() ==> #[trigger] s[i].0@ != #[trigger] s[j].0@
}

/// The map of a list with distinct keys holds exactly its pairs.
pub proof fn lemma_map_of<K: View, V: View>(s: Seq<(K, V)>)
    requires
        distinct_keys(s),
    ensures
        map_of(s).dom().finite(),
        map_of(s).dom().len() == s.len(),
        forall|k: K::V| #[trigger]
            map_of(s).contains_key(k) <==> exists|i: int| 0 <= i < s.len() && s[i].0@ == k,
        forall|i: int| 0 <= i < s.len() ==> #[trigger] map_of(s)[s[i].0@] == s[i].1@,
    decreases s.len(),
{
    if s.len() > 0 {
        let p = s.drop_last();
        assert(distinct_keys(p)) by {
            assert forall|i: int, j: int| 0 <= i < j < p.len() implies #[trigger] p[i].0@
                != #[trigger] p[j].0@ by {
                assert(p[i] == s[i] && p[j] == s[j]);
            }
        }
        lemma_map_of(p);
        let last = s.last();
        assert(!map_of(p).contains_key(last.0@)) by {
            if map_of(p).contains_key(last.0@) {
                let i = choose|i: int| 0 <= i < p.len() && p[i].0@ == last.0@;
                assert(s[i].0@ == s[s.len() - 1].0@);
            }
        }
        assert forall|k: K::V| #[trigger]
            map_of(s).contains_key(k) <==> exists|i: int| 0 <= i < s.len() && s[i].0@ == k by {
            if map_of(s).contains_key(k) && k != last.0@ {
                let i = choose|i: int| 0 <= i < p.len() && p[i].0@ == k;
                assert(s[i].0@ == k);
            }
            if exists|i: int| 0 <= i < s.len() && s[i].0@ == k {
                let i = choose|i: int| 0 <= i < s.len() && s[i].0@ == k;
                if i < s.len() - 1 {
                    assert(p[i].0@ == k);
                }
            }
        }
        assert forall|i: int| 0 <= i < s.len() implies #[trigger] map_of(s)[s[i].0@]
            == s[i].1@ by {
            if i < s.len() - 1 {
                assert(p[i] == s[i]);
                assert(s[i].0@ != s[s.len() - 1].0@);
            }
        }
    }
}

/// A finite map from keys to values, kept as a list of pairs with distinct keys.
pub struct AssocMap<K: MapKey, V: View> {
    entries: Vec<(K, V)>,
}

impl<K: MapKey, V: View> AssocMap<K, V> {
    /// The keys of the pairs are distinct.
    pub closed spec fn wf(&self) -> bool {
        distinct_keys(self.entries@)
    }

    /// The pairs, in the order the map keeps them.
    pub closed spec fn pairs(&self) -> Seq<(K, V)> {
        self.entries@
    }

    pub open spec fn spec_view(&self) -> Map<K::V, V::V> {
        map_of(self.pairs())
    }

    /// The pairs have distinct keys, and the map holds exactly them.
    pub proof fn lemma_pairs(&self)
        requires
            self.wf(),
        ensures
            distinct_keys(self.pairs()),
            self.spec_view().dom().finite(),
            self.spec_view().dom().len() == self.pairs().len(),
            forall|k: K::V| #[trigger]
                self.spec_view().contains_key(k) <==> exists|i: int|
                    0 <= i < self.pairs().len() && self.pairs()[i].0@ == k,
            forall|i: int|
                0 <= i < self.pairs().len() ==> #[trigger] self.spec_view()[self.pairs()[i].0@]
                    == self.pairs()[i].1@,
    {
        lemma_map_of(self.entries@);
    }

    pub fn new() -> (r: Self)
        ensures
            r.wf(),
            r.spec_view() == Map::<K::V, V::V>::empty(),
            r.pairs().len() == 0,
    {
        AssocMap { entries: Vec::new() }
    }

    /// The pairs of the map.
    pub fn as_pairs(&self) -> (r: &Vec<(K, V)>)
        ensures
            r@ == self.pairs(),
    {
        &self.entries
    }

    /// The number of keys.
    pub fn len(&self) -> (r: usize)
        requires
            self.wf(),
        ensures
            r == self.spec_view().len(),
            r == self.pairs().len(),
    {
        proof {
            self.lemma_pairs();
        }
        self.entries.len()
    }

    /// The position of `key` among the pairs.
    pub fn find(&self, key: &K) -> (r: Option<usize>)
        requires
            self.wf(),
        ensures
            match r {
                Some(i) => i < self.pairs().len() && self.pairs()[i as int].0@ == key@,
                None => !self.spec_view().contains_key(key@),
            },
    {
        proof {
            self.lemma_pairs();
        }
        let mut i: usize = 0;
        while i < self.entries.len()
            invariant
                i <= self.entries@.len(),
                forall|j: int| 0 <= j < i ==> #[trigger] self.entries@[j].0@ != key@,
            decreases self.entries@.len() - i,
        {
            if self.entries[i].0.key_eq(key) {
                return Some(i);
            }
            i = i + 1;
        }
        None
    }

    pub fn contains_key(&self, key: &K) -> (r: bool)
        requires
            self.wf(),
        ensures
            r == self.spec_view().contains_key(key@),
    {
        proof {
            self.lemma_pairs();
        }
        self.find(key).is_some()
    }

    /// The value of `key`, if the map holds it.
    pub fn get(&self, key: &K) -> (r: Option<&V>)
        requires
            self.wf(),
        ensures
            match r {
                Some(v) => self.spec_view().contains_key(key@) && v@ == self.spec_view()[key@],
                None => !self.spec_view().contains_key(key@),
            },
    {
        proof {
            self.lemma_pairs();
        }
        match self.find(key) {
            Some(i) => Some(&self.entries[i].1),
            None => None,
        }
    }

    /// Sets the value of `key`.
    pub fn insert(&mut self, key: K, value: V)
        requires
            old(self).wf(),
        ensures
            final(self).wf(),
            final(self).spec_view() == old(self).spec_view().insert(key@, value@),
    {
        proof {
            self.lemma_pairs();
        }
        let found = self.find(&key);
        let ghost old_entries = self.entries@;
        let ghost k = key@;
        let ghost v = value@;
        match found {
            Some(i) => {
                let mut entries: Vec<(K, V)> = Vec::new();
                std::mem::swap(&mut entries, &mut self.entries);
                entries[i] = (key, value);
                let ghost s = entries@;
                proof {
                    assert(distinct_keys(s)) by {
                        assert forall|a: int, b: int| 0 <= a < b < s.len() implies #[trigger] s[a].0@
                            != #[trigger] s[b].0@ by {
                            if a != i && b != i {
                                assert(s[a] == old_entries[a] && s[b] == old_entries[b]);
                            } else if a == i {
                                assert(s[b] == old_entries[b]);
                                assert(old_entries[a].0@ != old_entries[b].0@);
                            } else {
                                assert(s[a] == old_entries[a]);
                                assert(old_entries[a].0@ != old_entries[b].0@);
                            }
                        }
                    }
                    lemma_map_of(s);
                    lemma_map_of(old_entries);
                    assert(map_of(s) =~= map_of(old_entries).insert(k, v)) by {
                        assert forall|kk: K::V| #[trigger] map_of(s).contains_key(kk)
                            <==> map_of(old_entries).insert(k, v).contains_key(kk) by {
                            if map_of(old_entries).contains_key(kk) {
                                let j = choose|j: int|
                                    0 <= j < old_entries.len() && old_entries[j].0@ == kk;
                                if j != i {
                                    assert(s[j] == old_entries[j]);
                                } else {
                                    assert(s[j].0@ == kk);
                                }
                            }
                            if map_of(s).contains_key(kk) {
                                let j = choose|j: int| 0 <= j < s.len() && s[j].0@ == kk;
                                if j != i {
                                    assert(s[j] == old_entries[j]);
                                }
                            }
                        }
                        assert forall|kk: K::V| #[trigger] map_of(s).contains_key(kk) implies map_of(
                            s,
                        )[kk] == map_of(old_entries).insert(k, v)[kk] by {
                            let j = choose|j: int| 0 <= j < s.len() && s[j].0@ == kk;
                            if j != i {
                                assert(s[j] == old_entries[j]);
                            }
                        }
                    }
                }
                self.entries = entries;
            },
            None => {
                self.entries.push((key, value));
                let ghost s = self.entries@;
                proof {
                    lemma_map_of(old_entries);
                    assert(s.drop_last() =~= old_entries);
                    assert(distinct_keys(s)) by {
                        assert forall|a: int, b: int| 0 <= a < b < s.len() implies #[trigger] s[a].0@
                            != #[trigger] s[b].0@ by {
                            if b == s.len() - 1 {
                                assert(s[a] == old_entries[a]);
                            } else {
                                assert(s[a] == old_entries[a] && s[b] == old_entries[b]);
                            }
                        }
                    }
                }
            },
        }
    }

    /// Removes `key`, giving back its value if the map held it.
    pub fn remove(&mut self, key: &K) -> (r: Option<V>)
        requires
            old(self).wf(),
        ensures
            final(self).wf(),
            final(self).spec_view() == old(self).spec_view().remove(key@),
            match r {
                Some(v) => old(self).spec_view().contains_key(key@) && v@ == old(
                    self,
                ).spec_view()[key@],
                None => !old(self).spec_view().contains_key(key@),
            },
    {
        proof {
            self.lemma_pairs();
        }
        match self.find(key) {
            Some(i) => {
                let ghost old_entries = self.entries@;
                let mut entries: Vec<(K, V)> = Vec::new();
                std::mem::swap(&mut entries, &mut self.entries);
                let (_k, v) = entries.remove(i);
                let ghost s = entries@;
                proof {
                    assert forall|j: int| 0 <= j < s.len() implies #[trigger] s[j] == (if j < i {
                        old_entries[j]
                    } else {
                        old_entries[j + 1]
                    }) by {}
                    assert(distinct_keys(s)) by {
                        assert forall|a: int, b: int| 0 <= a < b < s.len() implies #[trigger] s[a].0@
                            != #[trigger] s[b].0@ by {
                            let a2 = if a < i {
                                a
                            } else {
                                a + 1
                            };
                            let b2 = if b < i {
                                b
                            } else {
                                b + 1
                            };
                            assert(s[a] == old_entries[a2] && s[b] == old_entries[b2]);
                            assert(old_entries[a2].0@ != old_entries[b2].0@);
                        }
                    }
                    lemma_map_of(s);
                    lemma_map_of(old_entries);
                    let km = key@;
                    assert(map_of(s) =~= map_of(old_entries).remove(km)) by {
                        assert forall|kk: K::V| #[trigger] map_of(s).contains_key(kk)
                            <==> map_of(old_entries).remove(km).contains_key(kk) by {
                            if map_of(s).contains_key(kk) {
                                let j = choose|j: int| 0 <= j < s.len() && s[j].0@ == kk;
                                let j2 = if j < i {
                                    j
                                } else {
                                    j + 1
                                };
                                assert(old_entries[j2].0@ == kk);
                                assert(old_entries[i as int].0@ != old_entries[j2].0@);
                            }
                            if map_of(old_entries).remove(km).contains_key(kk) {
                                let j = choose|j: int|
                                    0 <= j < old_entries.len() && old_entries[j].0@ == kk;
                                assert(j != i);
                                if j < i {
                                    assert(s[j].0@ == kk);
                                } else {
                                    assert(s[j - 1].0@ == kk);
                                }
                            }
                        }
                        assert forall|kk: K::V| #[trigger] map_of(s).contains_key(kk) implies map_of(
                            s,
                        )[kk] == map_of(old_entries).remove(km)[kk] by {
                            let j = choose|j: int| 0 <= j < s.len() && s[j].0@ == kk;
                            let j2 = if j < i {
                                j
                            } else {
                                j + 1
                            };
                            assert(s[j] == old_entries[j2]);
                            assert(old_entries[i as int].0@ != old_entries[j2].0@);
                        }
                    }
                }
                self.entries = entries;
                proof {
                    assert(self.entries@ == s);
                }
                Some(v)
            },
            None => {
                proof {
                    assert(self.spec_view().remove(key@) =~= self.spec_view());
                }
                None
            },
        }
    }

    /// Removes every key.
    pub fn clear(&mut self)
        ensures
            final(self).wf(),
            final(self).spec_view() == Map::<K::V, V::V>::empty(),
            final(self).pairs().len() == 0,
    {
        self.entries = Vec::new();
    }
}

impl<K: MapKey, V: View> View for AssocMap<K, V> {
    type V = Map<K::V, V::V>;

    open spec fn view(&self) -> Map<K::V, V::V> {
        self.spec_view()
    }
}

} // verus!
