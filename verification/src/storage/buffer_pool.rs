use vstd::prelude::*;
use vstd::pervasive::VecAdditionalExecFns;
use crate::assoc_map::AssocMap;
use crate::storage::disk_manager::Page;

verus! {

/// A page by its fields: id, bytes, whether it changed since it was read, and its pins.
pub open spec fn page_view(p: Page) -> (u32, Seq<u8>, bool, u32) {
    (p.id, p.data@, p.is_dirty, p.pin_count)
}

/// The index in `lru`, from `k` on, of the first frame whose page is not pinned.
pub open spec fn first_unpinned(lru: Seq<usize>, frames: Seq<(u32, Seq<u8>, bool, u32)>, k: int) -> Option<int>
    decreases lru.len() - k,
{
    if k < 0 || k >= lru.len() {
        None
    } else if frames[lru[k] as int].3 == 0 {
        Some(k)
    } else {
        first_unpinned(lru, frames, k + 1)
    }
}

/// The frame a page that is not held takes: the first free frame, else the least recently
/// used frame whose page is not pinned.
pub open spec fn victim_of(free: Seq<usize>, lru: Seq<usize>, frames: Seq<(u32, Seq<u8>, bool, u32)>) -> Option<usize> {
    if free.len() > 0 {
        Some(free[0])
    } else {
        match first_unpinned(lru, frames, 0) {
            Some(i) => Some(lru[i]),
            None => None,
        }
    }
}

/// The first unpinned frame from `k` on is unpinned, every frame before it from `k` on is
/// pinned, and there is none only when all from `k` on are pinned.
proof fn lemma_first_unpinned(lru: Seq<usize>, frames: Seq<(u32, Seq<u8>, bool, u32)>, k: int)
    requires
        0 <= k,
    ensures
        match first_unpinned(lru, frames, k) {
            Some(i) => k <= i < lru.len() && frames[lru[i] as int].3 == 0 && forall|j: int|
                k <= j < i ==> #[trigger] frames[lru[j] as int].3 != 0,
            None => forall|j: int| k <= j < lru.len() ==> #[trigger] frames[lru[j] as int].3 != 0,
        },
    decreases lru.len() - k,
{
    if k < lru.len() && frames[lru[k] as int].3 != 0 {
        lemma_first_unpinned(lru, frames, k + 1);
    }
}

/// The frame a page takes when none is free is the least recently used frame whose page is
/// not pinned: every frame used less recently holds a pinned page, and there is no victim
/// only when every page in use is pinned. A pinned page is never chosen.
pub proof fn lemma_victim_is_least_recent_unpinned(
    free: Seq<usize>,
    lru: Seq<usize>,
    frames: Seq<(u32, Seq<u8>, bool, u32)>,
)
    requires
        free.len() == 0,
    ensures
        match victim_of(free, lru, frames) {
            Some(f) => frames[f as int].3 == 0 && exists|i: int|
                0 <= i < lru.len() && lru[i] == f && forall|j: int| 0 <= j < i ==> #[trigger] frames[lru[j] as int].3 != 0,
            None => forall|j: int| 0 <= j < lru.len() ==> #[trigger] frames[lru[j] as int].3 != 0,
        },
{
    lemma_first_unpinned(lru, frames, 0);
    match first_unpinned(lru, frames, 0) {
        Some(i) => {
            assert(lru[i] == victim_of(free, lru, frames)->0);
        },
        None => {},
    }
}

/// The frame a page will take: a free one, or one whose page `page_id` (dirty or not) is
/// evicted first.
pub enum Victim {
    Free(usize),
    Evict(usize, u32, bool),
}

/// A pool of page frames over a data file: the pages it holds by id, the frames never
/// used, and the frames in use from the least recently used on. Reading and writing the
/// file is the caller's: it writes an evicted dirty page back and reads a fetched one.
pub struct BufferPoolManager {
    frames: Vec<Page>,
    page_table: AssocMap<u32, usize>,
    free_list: Vec<usize>,
    replacer: Vec<usize>,
}

impl BufferPoolManager {
    /// The frames' pages.
    pub closed spec fn frames_view(&self) -> Seq<(u32, Seq<u8>, bool, u32)> {
        self.frames@.map_values(|p: Page| page_view(p))
    }

    /// The frame of each page held.
    pub closed spec fn table(&self) -> Map<u32, usize> {
        self.page_table@
    }

    /// The frames never used, first to be taken first.
    pub closed spec fn free(&self) -> Seq<usize> {
        self.free_list@
    }

    /// The frames in use, least recently used first.
    pub closed spec fn lru(&self) -> Seq<usize> {
        self.replacer@
    }

    /// The frame a page that is not held takes next.
    pub open spec fn victim(&self) -> Option<usize> {
        victim_of(self.free(), self.lru(), self.frames_view())
    }

    /// Frame numbers are in range and listed once, a frame is free or in use, and each page
    /// held is in a frame in use whose page has its id.
    pub closed spec fn wf(&self) -> bool {
        &&& self.page_table.wf()
        &&& forall|i: int| 0 <= i < self.free_list@.len() ==> #[trigger] self.free_list@[i] < self.frames@.len()
        &&& forall|i: int| 0 <= i < self.replacer@.len() ==> #[trigger] self.replacer@[i] < self.frames@.len()
        &&& self.free_list@.no_duplicates()
        &&& self.replacer@.no_duplicates()
        &&& forall|i: int, j: int|
            0 <= i < self.free_list@.len() && 0 <= j < self.replacer@.len() ==> #[trigger] self.free_list@[i]
                != #[trigger] self.replacer@[j]
        &&& forall|p: u32| #[trigger]
            self.page_table@.contains_key(p) ==> self.replacer@.contains(self.page_table@[p])
                && self.page_table@[p] < self.frames@.len()
                && self.frames@[self.page_table@[p] as int].id == p
    }

    /// A pool of `pool_size` free frames, each a clean page of zeros with id 0.
    pub fn new(pool_size: usize) -> (r: BufferPoolManager)
        ensures
            r.wf(),
            r.frames_view() == Seq::new(pool_size as nat, |i: int| (0u32, Seq::new(4096, |j: int| 0u8), false, 0u32)),
            r.free() == Seq::new(pool_size as nat, |i: int| i as usize),
            r.lru() == Seq::<usize>::empty(),
            r.table() == Map::<u32, usize>::empty(),
    {
        let mut frames: Vec<Page> = Vec::new();
        let mut free_list: Vec<usize> = Vec::new();
        let mut i: usize = 0;
        while i < pool_size
            invariant
                i <= pool_size,
                frames@.map_values(|p: Page| page_view(p)) == Seq::new(i as nat, |k: int| (0u32, Seq::new(4096, |j: int| 0u8), false, 0u32)),
                free_list@ == Seq::new(i as nat, |k: int| k as usize),
            decreases pool_size - i,
        {
            let np = Page::new(0);
            let ghost prev = frames@.map_values(|p: Page| page_view(p));
            let ghost pv = page_view(np);
            frames.push(np);
            free_list.push(i);
            i = i + 1;
            proof {
                assert(frames@.map_values(|p: Page| page_view(p)) =~= prev.push(pv));
                assert(pv == (0u32, Seq::new(4096, |j: int| 0u8), false, 0u32));
                assert(prev.push(pv) =~= Seq::new(i as nat, |k: int| (0u32, Seq::new(4096, |j: int| 0u8), false, 0u32)));
                assert(free_list@ =~= Seq::new(i as nat, |k: int| k as usize));
            }
        }
        let r = BufferPoolManager {
            frames,
            page_table: AssocMap::new(),
            free_list,
            replacer: Vec::new(),
        };
        proof {
            assert(r.page_table@ =~= Map::<u32, usize>::empty());
            assert(r.free_list@.no_duplicates());
        }
        r
    }

    /// The number of frames.
    pub fn frame_count(&self) -> (r: usize)
        ensures
            r == self.frames_view().len(),
    {
        self.frames.len()
    }

    /// The page in `frame`.
    pub fn page(&self, frame: usize) -> (r: &Page)
        requires
            frame < self.frames_view().len(),
        ensures
            page_view(*r) == self.frames_view()[frame as int],
    {
        &self.frames[frame]
    }

    /// The frame of page `page_id`, if the pool holds it.
    pub fn frame_of(&self, page_id: u32) -> (r: Option<usize>)
        requires
            self.wf(),
        ensures
            match r {
                Some(f) => self.table().contains_key(page_id) && f == self.table()[page_id],
                None => !self.table().contains_key(page_id),
            },
    {
        match self.page_table.get(&page_id) {
            Some(f) => Some(*f),
            None => None,
        }
    }

    /// A fetch of a page the pool holds: pins it once more and makes its frame the most
    /// recently used. `None`, changing nothing, when the pool does not hold it.
    pub fn fetch_hit(&mut self, page_id: u32) -> (r: Option<usize>)
        requires
            old(self).wf(),
            old(self).table().contains_key(page_id) ==> old(self).frames_view()[old(self).table()[page_id] as int].3 < u32::MAX,
        ensures
            final(self).wf(),
            final(self).table() == old(self).table(),
            final(self).free() == old(self).free(),
            if old(self).table().contains_key(page_id) {
                let f = old(self).table()[page_id];
                let pg = old(self).frames_view()[f as int];
                &&& r == Some(f)
                &&& final(self).frames_view() == old(self).frames_view().update(f as int, (pg.0, pg.1, pg.2, (pg.3 + 1) as u32))
                &&& exists|j: int| 0 <= j < old(self).lru().len() && old(self).lru()[j] == f && final(self).lru() == old(self).lru().remove(j).push(f)
            } else {
                &&& r is None
                &&& final(self).frames_view() == old(self).frames_view()
                &&& final(self).lru() == old(self).lru()
            },
    {
        let f = match self.page_table.get(&page_id) {
            Some(f) => *f,
            None => {
                return None;
            },
        };
        let mut pg = self.page_struct(f);
        pg.pin_count = pg.pin_count + 1;
        self.frames.set(f, pg);
        let mut j: usize = 0;
        while j < self.replacer.len() && self.replacer[j] != f
            invariant
                j <= self.replacer@.len(),
                self.replacer@.contains(f),
                forall|k: int| 0 <= k < j ==> self.replacer@[k] != f,
            decreases self.replacer@.len() - j,
        {
            j = j + 1;
        }
        proof {
            if j == self.replacer@.len() {
                let k = choose|k: int| 0 <= k < self.replacer@.len() && self.replacer@[k] == f;
                assert(false);
            }
        }
        let ghost before = self.replacer@;
        self.replacer.remove(j);
        self.replacer.push(f);
        proof {
            assert(self.frames@.map_values(|p: Page| page_view(p)) =~= old(self).frames_view().update(
                f as int,
                (old(self).frames_view()[f as int].0, old(self).frames_view()[f as int].1, old(self).frames_view()[f as int].2, (old(self).frames_view()[f as int].3 + 1) as u32),
            ));
            assert(before[j as int] == f);
            assert(before == old(self).lru());
            assert(old(self).lru()[j as int] == f && self.replacer@ == old(self).lru().remove(j as int).push(f));
            let s = self.replacer@;
            assert forall|a: int, b: int| 0 <= a < b < s.len() implies s[a] != s[b] by {
                if b == s.len() - 1 {
                    if a < j {
                        assert(s[a] == before[a]);
                    } else {
                        assert(s[a] == before[a + 1]);
                    }
                } else {
                    let a2 = if a < j { a } else { a + 1 };
                    let b2 = if b < j { b } else { b + 1 };
                    assert(s[a] == before[a2] && s[b] == before[b2]);
                }
            }
            assert forall|p: u32| #[trigger] self.page_table@.contains_key(p) implies self.replacer@.contains(self.page_table@[p])
                && self.page_table@[p] < self.frames@.len()
                && self.frames@[self.page_table@[p] as int].id == p by {
                let g = self.page_table@[p];
                if g == f {
                    assert(s[s.len() - 1] == f);
                } else {
                    let k = choose|k: int| 0 <= k < before.len() && before[k] == g;
                    if k < j {
                        assert(s[k] == g);
                    } else {
                        assert(s[k - 1] == g);
                    }
                }
            }
            assert forall|a: int, b: int|
                0 <= a < self.free_list@.len() && 0 <= b < s.len() implies #[trigger] self.free_list@[a]
                    != #[trigger] s[b] by {
                if b == s.len() - 1 {
                    assert(s[b] == before[j as int]);
                } else if b < j {
                    assert(s[b] == before[b]);
                } else {
                    assert(s[b] == before[b + 1]);
                }
            }
        }
        Some(f)
    }

    /// The frame a page that is not held takes next, and the page it evicts, if any.
    pub fn choose_victim(&self) -> (r: Option<Victim>)
        requires
            self.wf(),
        ensures
            match self.victim() {
                None => r is None,
                Some(f) => match r {
                    Some(Victim::Free(g)) => g == f && self.free().len() > 0,
                    Some(Victim::Evict(g, id, dirty)) => g == f && self.free().len() == 0 && id
                        == self.frames_view()[f as int].0 && dirty == self.frames_view()[f as int].2,
                    None => false,
                },
            },
    {
        if self.free_list.len() > 0 {
            proof {
                assert(self.victim() == Some(self.free_list@[0]));
            }
            return Some(Victim::Free(self.free_list[0]));
        }
        match self.first_unpinned_index() {
            Some(i) => {
                let f = self.replacer[i];
                let p = &self.frames[f];
                proof {
                    assert(self.frames_view()[f as int] == page_view(self.frames@[f as int]));
                    assert(self.victim() == Some(f));
                }
                Some(Victim::Evict(f, p.id, p.is_dirty))
            },
            None => None,
        }
    }

    fn first_unpinned_index(&self) -> (r: Option<usize>)
        requires
            self.wf(),
        ensures
            match first_unpinned(self.lru(), self.frames_view(), 0) {
                Some(i) => r matches Some(k) && k as int == i && 0 <= i < self.lru().len(),
                None => r is None,
            },
    {
        let mut k: usize = 0;
        while k < self.replacer.len()
            invariant
                self.wf(),
                k <= self.replacer@.len(),
                first_unpinned(self.lru(), self.frames_view(), 0) == first_unpinned(self.lru(), self.frames_view(), k as int),
            decreases self.replacer@.len() - k,
        {
            proof {
                let f = self.replacer@[k as int];
                assert(self.frames_view()[f as int] == page_view(self.frames@[f as int]));
            }
            if self.frames[self.replacer[k]].pin_count == 0 {
                return Some(k);
            }
            k = k + 1;
        }
        None
    }

    /// Puts page `page_id`, with `data`, into the frame chosen as victim: a free frame
    /// leaves the free list; an evicted frame leaves the list in use and its page id leaves
    /// the table. The page is then held there, pinned once, as the most recently used.
    pub fn install(&mut self, page_id: u32, frame: usize, data: [u8; 4096], dirty: bool)
        requires
            old(self).wf(),
            old(self).victim() == Some(frame),
        ensures
            final(self).wf(),
            old(self).free().len() > 0 ==> final(self).free() == old(self).free().drop_first()
                && final(self).lru() == old(self).lru().push(frame) && final(self).table()
                == old(self).table().insert(page_id, frame),
            old(self).free().len() == 0 ==> final(self).free() == old(self).free() && final(self).lru() == old(self).lru().remove(
                first_unpinned(old(self).lru(), old(self).frames_view(), 0).unwrap(),
            ).push(frame) && final(self).table() == old(self).table().remove(
                old(self).frames_view()[frame as int].0,
            ).insert(page_id, frame),
            final(self).frames_view() == old(self).frames_view().update(
                frame as int,
                (page_id, data@, dirty, 1u32),
            ),
    {
        let ghost fv0 = self.frames_view();
        let ghost lru0 = self.replacer@;
        let ghost free0 = self.free_list@;
        let ghost mut ei: int = 0;
        if self.free_list.len() > 0 {
            self.free_list.remove(0);
            proof {
                assert(self.free_list@ =~= free0.drop_first());
            }
        } else {
            let i = match self.first_unpinned_index() {
                Some(i) => i,
                None => {
                    proof {
                        assert(false);
                    }
                    return;
                },
            };
            proof {
                assert(self.lru() == lru0 && self.frames_view() == fv0);
                assert(first_unpinned(lru0, fv0, 0) == Some(i as int));
            }
            let old_id = self.frames[frame].id;
            proof {
                ei = i as int;
                assert(fv0[frame as int] == page_view(self.frames@[frame as int]));
            }
            self.replacer.remove(i);
            self.page_table.remove(&old_id);
        }
        self.page_table.insert(page_id, frame);
        self.replacer.push(frame);
        self.frames.set(frame, Page { id: page_id, data, is_dirty: dirty, pin_count: 1 });
        proof {
            assert(self.frames@.map_values(|p: Page| page_view(p)) =~= fv0.update(
                frame as int,
                (page_id, data@, dirty, 1u32),
            ));
            let s = self.replacer@;
            let fl = self.free_list@;
            if free0.len() > 0 {
                assert(s == lru0.push(frame));
                assert(free0[0] == frame);
                assert(!lru0.contains(frame)) by {
                    if lru0.contains(frame) {
                        let k = choose|k: int| 0 <= k < lru0.len() && lru0[k] == frame;
                        assert(free0[0] != lru0[k]);
                    }
                }
                assert forall|a: int, b: int| 0 <= a < b < s.len() implies s[a] != s[b] by {
                    if b == s.len() - 1 {
                        assert(lru0[a] != frame);
                    } else {
                        assert(s[a] == lru0[a] && s[b] == lru0[b]);
                    }
                }
                assert forall|a: int, b: int| 0 <= a < b < fl.len() implies fl[a] != fl[b] by {
                    assert(fl[a] == free0[a + 1] && fl[b] == free0[b + 1]);
                }
                assert forall|a: int, b: int|
                    0 <= a < fl.len() && 0 <= b < s.len() implies #[trigger] fl[a] != #[trigger] s[b] by {
                    assert(fl[a] == free0[a + 1]);
                    if b == s.len() - 1 {
                        assert(free0[a + 1] != free0[0]);
                    } else {
                        assert(s[b] == lru0[b]);
                    }
                }
                assert forall|p: u32| #[trigger] self.page_table@.contains_key(p) implies s.contains(
                    self.page_table@[p],
                ) && self.page_table@[p] < self.frames@.len() && self.frames@[self.page_table@[p] as int].id == p by {
                    if p == page_id {
                        assert(s[s.len() - 1] == frame);
                    } else {
                        let g = old(self).table()[p];
                        assert(old(self).table().contains_key(p));
                        assert(self.page_table@[p] == g);
                        assert(lru0.contains(g));
                        let k = choose|k: int| 0 <= k < lru0.len() && lru0[k] == g;
                        assert(s[k] == g);
                        assert(free0[0] != lru0[k]);
                        assert(g != frame);
                    }
                }
            } else {
                let i = ei;
                assert(i == first_unpinned(lru0, fv0, 0).unwrap());
                assert(lru0[i] == frame);
                let mid = lru0.remove(i);
                assert(s == mid.push(frame));
                assert(!mid.contains(frame)) by {
                    if mid.contains(frame) {
                        let k = choose|k: int| 0 <= k < mid.len() && mid[k] == frame;
                        if k < i {
                            assert(lru0[k] == frame);
                        } else {
                            assert(lru0[k + 1] == frame);
                        }
                    }
                }
                assert forall|a: int, b: int| 0 <= a < b < s.len() implies s[a] != s[b] by {
                    if b == s.len() - 1 {
                        assert(mid[a] != frame);
                    } else {
                        let a2 = if a < i { a } else { a + 1 };
                        let b2 = if b < i { b } else { b + 1 };
                        assert(s[a] == lru0[a2] && s[b] == lru0[b2]);
                    }
                }
                assert(fl.len() == 0);
                assert forall|p: u32| #[trigger] self.page_table@.contains_key(p) implies s.contains(
                    self.page_table@[p],
                ) && self.page_table@[p] < self.frames@.len() && self.frames@[self.page_table@[p] as int].id == p by {
                    if p == page_id {
                        assert(s[s.len() - 1] == frame);
                    } else {
                        let g = old(self).table()[p];
                        assert(self.page_table@[p] == g);
                        assert(old(self).table().contains_key(p));
                        assert(p != fv0[frame as int].0);
                        assert(g != frame);
                        let k = choose|k: int| 0 <= k < lru0.len() && lru0[k] == g;
                        if k < i {
                            assert(s[k] == g);
                        } else {
                            assert(k != i);
                            assert(s[k - 1] == g);
                        }
                    }
                }
            }
        }
    }

    /// Marks the page in `frame` as written back.
    pub fn mark_clean(&mut self, frame: usize)
        requires
            old(self).wf(),
            frame < old(self).frames_view().len(),
        ensures
            final(self).wf(),
            final(self).table() == old(self).table(),
            final(self).free() == old(self).free(),
            final(self).lru() == old(self).lru(),
            final(self).frames_view() == old(self).frames_view().update(
                frame as int,
                (old(self).frames_view()[frame as int].0, old(self).frames_view()[frame as int].1, false, old(self).frames_view()[frame as int].3),
            ),
    {
        let mut pg = self.page_struct(frame);
        pg.is_dirty = false;
        self.frames.set(frame, pg);
        proof {
            assert(self.frames@.map_values(|p: Page| page_view(p)) =~= old(self).frames_view().update(
                frame as int,
                (old(self).frames_view()[frame as int].0, old(self).frames_view()[frame as int].1, false, old(self).frames_view()[frame as int].3),
            ));
        }
    }

    /// Writes `data` into the page in `frame`.
    pub fn write_data(&mut self, frame: usize, data: [u8; 4096])
        requires
            old(self).wf(),
            frame < old(self).frames_view().len(),
        ensures
            final(self).wf(),
            final(self).table() == old(self).table(),
            final(self).free() == old(self).free(),
            final(self).lru() == old(self).lru(),
            final(self).frames_view() == old(self).frames_view().update(
                frame as int,
                (old(self).frames_view()[frame as int].0, data@, old(self).frames_view()[frame as int].2, old(self).frames_view()[frame as int].3),
            ),
    {
        let mut pg = self.page_struct(frame);
        pg.data = data;
        self.frames.set(frame, pg);
        proof {
            assert(self.frames@.map_values(|p: Page| page_view(p)) =~= old(self).frames_view().update(
                frame as int,
                (old(self).frames_view()[frame as int].0, data@, old(self).frames_view()[frame as int].2, old(self).frames_view()[frame as int].3),
            ));
        }
    }

    /// Releases one pin of page `page_id`, marking it dirty when `is_dirty`: false when the
    /// pool does not hold it or it has no pin.
    pub fn unpin_page(&mut self, page_id: u32, is_dirty: bool) -> (r: bool)
        requires
            old(self).wf(),
        ensures
            final(self).wf(),
            final(self).table() == old(self).table(),
            final(self).free() == old(self).free(),
            final(self).lru() == old(self).lru(),
            r == (old(self).table().contains_key(page_id) && old(self).frames_view()[old(self).table()[page_id] as int].3 > 0),
            r ==> ({
                let f = old(self).table()[page_id];
                let pg = old(self).frames_view()[f as int];
                final(self).frames_view() == old(self).frames_view().update(f as int, (pg.0, pg.1, pg.2 || is_dirty, (pg.3 - 1) as u32))
            }),
            !r ==> final(self).frames_view() == old(self).frames_view(),
    {
        let f = match self.page_table.get(&page_id) {
            Some(f) => *f,
            None => {
                return false;
            },
        };
        proof {
            assert(self.page_table@.contains_key(page_id));
            assert(self.page_table@[page_id] == f);
        }
        let mut pg = self.page_struct(f);
        if pg.pin_count == 0 {
            return false;
        }
        pg.pin_count = pg.pin_count - 1;
        if is_dirty {
            pg.is_dirty = true;
        }
        self.frames.set(f, pg);
        proof {
            let old_pg = old(self).frames_view()[f as int];
            assert(self.frames@.map_values(|p: Page| page_view(p)) =~= old(self).frames_view().update(
                f as int,
                (old_pg.0, old_pg.1, old_pg.2 || is_dirty, (old_pg.3 - 1) as u32),
            ));
        }
        true
    }

    /// The frame of page `page_id` and whether it is dirty, if the pool holds it: what a
    /// flush of it writes back.
    pub fn flush_target(&self, page_id: u32) -> (r: Option<(usize, bool)>)
        requires
            self.wf(),
        ensures
            match r {
                Some((f, dirty)) => self.table().contains_key(page_id) && f == self.table()[page_id]
                    && dirty == self.frames_view()[f as int].2,
                None => !self.table().contains_key(page_id),
            },
    {
        match self.page_table.get(&page_id) {
            Some(f) => {
                let f = *f;
                proof {
                    assert(self.page_table@.contains_key(page_id));
                    assert(self.page_table@[page_id] == f);
                    assert(self.frames_view()[f as int] == page_view(self.frames@[f as int]));
                }
                Some((f, self.frames[f].is_dirty))
            },
            None => None,
        }
    }

    /// The frames of the pages held that are dirty, each once, in frame order: what a
    /// flush of all pages writes back.
    pub fn dirty_frames(&self) -> (r: Vec<usize>)
        requires
            self.wf(),
        ensures
            r@.no_duplicates(),
            forall|f: usize| r@.contains(f) <==> exists|p: u32|
                #![trigger self.table()[p]]
                self.table().contains_key(p) && self.table()[p] == f && self.frames_view()[f as int].2,
    {
        let mut out: Vec<usize> = Vec::new();
        let mut f: usize = 0;
        while f < self.frames.len()
            invariant
                self.wf(),
                f <= self.frames@.len(),
                forall|a: int, b: int| 0 <= a < b < out@.len() ==> out@[a] < out@[b],
                forall|a: int| 0 <= a < out@.len() ==> out@[a] < f,
                forall|g: usize| out@.contains(g) <==> g < f && exists|p: u32|
                    #![trigger self.table()[p]]
                    self.table().contains_key(p) && self.table()[p] == g && self.frames_view()[g as int].2,
            decreases self.frames@.len() - f,
        {
            let id = self.frames[f].id;
            let mapped = match self.page_table.get(&id) {
                Some(g) => *g == f,
                None => false,
            };
            proof {
                assert(self.frames_view()[f as int] == page_view(self.frames@[f as int]));
                if exists|p: u32| #![trigger self.table()[p]] self.table().contains_key(p) && self.table()[p] == f {
                    let p = choose|p: u32| #![trigger self.table()[p]] self.table().contains_key(p) && self.table()[p] == f;
                    assert(self.page_table@.contains_key(p));
                    assert(self.frames@[f as int].id == p);
                }
            }
            let ghost before = out@;
            if mapped && self.frames[f].is_dirty {
                out.push(f);
            }
            proof {
                assert forall|g: usize| out@.contains(g) <==> g < f + 1 && exists|p: u32|
                    #![trigger self.table()[p]]
                    self.table().contains_key(p) && self.table()[p] == g && self.frames_view()[g as int].2 by {
                    if g == f {
                        if mapped && self.frames@[f as int].is_dirty {
                            assert(out@[out@.len() - 1] == f);
                            assert(self.table()[id] == f);
                        }
                        if out@.contains(g) && !(mapped && self.frames@[f as int].is_dirty) {
                            let k = choose|k: int| 0 <= k < out@.len() && out@[k] == g;
                            assert(before[k] < f);
                        }
                    } else if out@.contains(g) {
                        let k = choose|k: int| 0 <= k < out@.len() && out@[k] == g;
                        if k < before.len() {
                            assert(before.contains(g));
                        }
                    } else if g < f && exists|p: u32| #![trigger self.table()[p]] self.table().contains_key(p) && self.table()[p] == g && self.frames_view()[g as int].2 {
                        assert(before.contains(g));
                        let k = choose|k: int| 0 <= k < before.len() && before[k] == g;
                        assert(out@[k] == g);
                    }
                }
            }
            f = f + 1;
        }
        proof {
            assert forall|a: int, b: int| 0 <= a < b < out@.len() implies out@[a] != out@[b] by {}
        }
        out
    }

    fn page_struct(&self, frame: usize) -> (r: Page)
        requires
            frame < self.frames@.len(),
        ensures
            r == self.frames@[frame as int],
    {
        let p = &self.frames[frame];
        Page { id: p.id, data: p.data, is_dirty: p.is_dirty, pin_count: p.pin_count }
    }
}

} // verus!
