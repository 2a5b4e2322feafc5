use vstd::prelude::*;
use crate::assoc_map::AssocMap;
use crate::text::copy_range;
use crate::wal::checkpoint::Checkpoint;
use crate::wal::log_entry::LogEntry;
use crate::wal::types::opration_type::OprationType;

verus! {

/// A map of byte keys to byte values.
pub type BytesView = Map<Seq<u8>, Seq<u8>>;

/// The map after one log record: an insert or update writes the value, a delete removes
/// the key.
pub open spec fn apply_entry_spec(m: BytesView, e: LogEntry) -> BytesView {
    match e.opration_type {
        OprationType::Insert | OprationType::Update => m.insert(e.key@, e.value@),
        OprationType::Delete => m.remove(e.key@),
    }
}

/// The map after log records, in order.
pub open spec fn apply_entries_spec(m: BytesView, s: Seq<LogEntry>) -> BytesView
    decreases s.len(),
{
    if s.len() == 0 {
        m
    } else {
        apply_entry_spec(apply_entries_spec(m, s.drop_last()), s.last())
    }
}

/// The in-memory table of the log-backed engine: byte keys to byte values, rebuilt at
/// startup from the log's records and then the latest checkpoint.
pub struct DbState {
    data: AssocMap<Vec<u8>, Vec<u8>>,
}

impl DbState {
    pub closed spec fn wf(&self) -> bool {
        self.data.wf()
    }

    pub closed spec fn view_map(&self) -> BytesView {
        self.data@
    }

    pub fn new() -> (r: DbState)
        ensures
            r.wf(),
            r.view_map() == Map::<Seq<u8>, Seq<u8>>::empty(),
    {
        DbState { data: AssocMap::new() }
    }

    pub fn set(&mut self, key: &[u8], value: &[u8])
        requires
            old(self).wf(),
        ensures
            final(self).wf(),
            final(self).view_map() == old(self).view_map().insert(key@, value@),
    {
        proof {
            assert(key@.subrange(0, key@.len() as int) =~= key@);
            assert(value@.subrange(0, value@.len() as int) =~= value@);
        }
        self.data.insert(copy_range(key, 0, key.len()), copy_range(value, 0, value.len()));
    }

    pub fn get(&self, key: &[u8]) -> (r: Option<Vec<u8>>)
        requires
            self.wf(),
        ensures
            match r {
                Some(v) => self.view_map().contains_key(key@) && v@ == self.view_map()[key@],
                None => !self.view_map().contains_key(key@),
            },
    {
        proof {
            assert(key@.subrange(0, key@.len() as int) =~= key@);
        }
        let k = copy_range(key, 0, key.len());
        match self.data.get(&k) {
            Some(v) => Some(copy_range(v.as_slice(), 0, v.len())),
            None => None,
        }
    }

    /// Removes `key`; whether it was there.
    pub fn delete(&mut self, key: &[u8]) -> (r: bool)
        requires
            old(self).wf(),
        ensures
            final(self).wf(),
            final(self).view_map() == old(self).view_map().remove(key@),
            r == old(self).view_map().contains_key(key@),
    {
        proof {
            assert(key@.subrange(0, key@.len() as int) =~= key@);
        }
        let k = copy_range(key, 0, key.len());
        self.data.remove(&k).is_some()
    }

    pub fn contains_key(&self, key: &[u8]) -> (r: bool)
        requires
            self.wf(),
        ensures
            r == self.view_map().contains_key(key@),
    {
        proof {
            assert(key@.subrange(0, key@.len() as int) =~= key@);
        }
        let k = copy_range(key, 0, key.len());
        self.data.contains_key(&k)
    }

    pub fn len(&self) -> (r: usize)
        requires
            self.wf(),
        ensures
            r == self.view_map().len(),
    {
        self.data.len()
    }

    /// The table, to save in a checkpoint.
    pub fn table(&self) -> (r: &AssocMap<Vec<u8>, Vec<u8>>)
        requires
            self.wf(),
        ensures
            r.wf(),
            r@ == self.view_map(),
    {
        &self.data
    }

    /// Applies one log record.
    pub fn apply_entry(&mut self, entry: &LogEntry)
        requires
            old(self).wf(),
        ensures
            final(self).wf(),
            final(self).view_map() == apply_entry_spec(old(self).view_map(), *entry),
    {
        match entry.opration_type {
            OprationType::Insert | OprationType::Update => {
                self.set(entry.key.as_slice(), entry.value.as_slice());
            },
            OprationType::Delete => {
                self.delete(entry.key.as_slice());
            },
        }
    }

    /// Rebuilds the table as startup does: the log's records in order, then the pairs of
    /// the latest checkpoint, which win over them.
    pub fn recover(entries: &Vec<LogEntry>, checkpoint: Option<&Checkpoint>) -> (r: DbState)
        requires
            checkpoint matches Some(c) ==> c.wf(),
        ensures
            r.wf(),
            r.view_map() == match checkpoint {
                Some(c) => apply_entries_spec(Map::empty(), entries@).union_prefer_right(c.data_view()),
                None => apply_entries_spec(Map::empty(), entries@),
            },
    {
        let mut state = DbState::new();
        let mut i: usize = 0;
        while i < entries.len()
            invariant
                i <= entries@.len(),
                state.wf(),
                state.view_map() == apply_entries_spec(Map::empty(), entries@.take(i as int)),
            decreases entries@.len() - i,
        {
            state.apply_entry(&entries[i]);
            proof {
                assert(entries@.take(i + 1).drop_last() =~= entries@.take(i as int));
            }
            i = i + 1;
        }
        proof {
            assert(entries@.take(entries@.len() as int) =~= entries@);
        }
        match checkpoint {
            None => state,
            Some(c) => {
                let data = c.data();
                let ghost base = state.view_map();
                proof {
                    data.lemma_pairs();
                }
                let pairs = data.as_pairs();
                let mut j: usize = 0;
                while j < pairs.len()
                    invariant
                        j <= pairs@.len(),
                        pairs@ == data.pairs(),
                        state.wf(),
                        crate::assoc_map::distinct_keys(pairs@),
                        forall|k: Seq<u8>| #[trigger]
                            data@.contains_key(k) <==> exists|t: int| 0 <= t < pairs@.len() && pairs@[t].0@ == k,
                        forall|t: int| 0 <= t < pairs@.len() ==> #[trigger] data@[pairs@[t].0@] == pairs@[t].1@,
                        forall|k: Seq<u8>| #[trigger] state.view_map().contains_key(k) <==> base.contains_key(k)
                            || exists|t: int| 0 <= t < j && pairs@[t].0@ == k,
                        forall|k: Seq<u8>| #[trigger] state.view_map().contains_key(k) ==> state.view_map()[k] == if exists|t: int|
                            0 <= t < j && pairs@[t].0@ == k {
                            data@[k]
                        } else {
                            base[k]
                        },
                    decreases pairs@.len() - j,
                {
                    let (k, v) = &pairs[j];
                    let ghost km = k@;
                    state.set(k.as_slice(), v.as_slice());
                    proof {
                        assert forall|kk: Seq<u8>| #[trigger] state.view_map().contains_key(kk) <==> base.contains_key(kk)
                            || exists|t: int| 0 <= t < j + 1 && pairs@[t].0@ == kk by {
                            if exists|t: int| 0 <= t < j + 1 && pairs@[t].0@ == kk {
                                let t = choose|t: int| 0 <= t < j + 1 && pairs@[t].0@ == kk;
                                if t < j {
                                    assert(exists|t2: int| 0 <= t2 < j && pairs@[t2].0@ == kk);
                                }
                            }
                            if exists|t: int| 0 <= t < j && pairs@[t].0@ == kk {
                                let t = choose|t: int| 0 <= t < j && pairs@[t].0@ == kk;
                                assert(0 <= t < j + 1);
                            }
                        }
                        assert forall|kk: Seq<u8>| #[trigger] state.view_map().contains_key(kk) implies state.view_map()[kk] == if exists|t: int|
                            0 <= t < j + 1 && pairs@[t].0@ == kk {
                            data@[kk]
                        } else {
                            base[kk]
                        } by {
                            if kk != km {
                                if exists|t: int| 0 <= t < j + 1 && pairs@[t].0@ == kk {
                                    let t = choose|t: int| 0 <= t < j + 1 && pairs@[t].0@ == kk;
                                    assert(t != j);
                                    assert(exists|t2: int| 0 <= t2 < j && pairs@[t2].0@ == kk);
                                }
                                if exists|t: int| 0 <= t < j && pairs@[t].0@ == kk {
                                    let t = choose|t: int| 0 <= t < j && pairs@[t].0@ == kk;
                                    assert(0 <= t < j + 1);
                                }
                            } else {
                                assert(data@[pairs@[j as int].0@] == pairs@[j as int].1@);
                                assert(0 <= j < j + 1 && pairs@[j as int].0@ == kk);
                            }
                        }
                    }
                    j = j + 1;
                }
                proof {
                    let want = base.union_prefer_right(data@);
                    assert forall|k: Seq<u8>| #[trigger] state.view_map().contains_key(k) == want.contains_key(k) by {
                        if data@.contains_key(k) {
                            let t = choose|t: int| 0 <= t < pairs@.len() && pairs@[t].0@ == k;
                        }
                    }
                    assert forall|k: Seq<u8>| #[trigger] state.view_map().contains_key(k) implies state.view_map()[k] == want[k] by {
                        if data@.contains_key(k) {
                            let t = choose|t: int| 0 <= t < pairs@.len() && pairs@[t].0@ == k;
                            assert(exists|t2: int| 0 <= t2 < j && pairs@[t2].0@ == k);
                        } else {
                            if exists|t: int| 0 <= t < j && pairs@[t].0@ == k {
                                let t = choose|t: int| 0 <= t < j && pairs@[t].0@ == k;
                                assert(data@.contains_key(k));
                            }
                        }
                    }
                    assert(state.view_map() =~= want);
                }
                state
            },
        }
    }
}

} // verus!
