use std::collections::HashMap;

use arookieofcdb::storage::buffer_pool::{BufferPoolManager, Victim};
use arookieofcdb::storage::disk_manager::PAGE_SIZE;

/// A data file held in memory: the pages written, and the next page id.
#[derive(Default)]
struct Disk {
    pages: HashMap<u32, [u8; PAGE_SIZE]>,
    next_page_id: u32,
    writes: Vec<u32>,
}

impl Disk {
    fn read_page(&self, id: u32) -> [u8; PAGE_SIZE] {
        self.pages.get(&id).copied().unwrap_or([0; PAGE_SIZE])
    }

    fn write_page(&mut self, id: u32, data: &[u8; PAGE_SIZE]) {
        self.pages.insert(id, *data);
        self.writes.push(id);
    }

    fn allocate_page(&mut self) -> u32 {
        let id = self.next_page_id;
        self.next_page_id += 1;
        id
    }
}

fn take_victim(bpm: &mut BufferPoolManager, disk: &mut Disk) -> Option<usize> {
    match bpm.choose_victim()? {
        Victim::Free(frame) => Some(frame),
        Victim::Evict(frame, old_id, dirty) => {
            if dirty {
                let data = bpm.page(frame).data;
                disk.write_page(old_id, &data);
                bpm.mark_clean(frame);
            }
            Some(frame)
        }
    }
}

fn new_page(bpm: &mut BufferPoolManager, disk: &mut Disk) -> Option<usize> {
    let frame = take_victim(bpm, disk)?;
    let id = disk.allocate_page();
    bpm.install(id, frame, [0; PAGE_SIZE], true);
    Some(frame)
}

fn fetch_page(bpm: &mut BufferPoolManager, disk: &mut Disk, id: u32) -> Option<usize> {
    if let Some(frame) = bpm.fetch_hit(id) {
        return Some(frame);
    }
    let frame = take_victim(bpm, disk)?;
    let data = disk.read_page(id);
    bpm.install(id, frame, data, false);
    Some(frame)
}

#[test]
fn test_buffer_pool_eviction() {
    let mut disk = Disk::default();
    let mut bpm = BufferPoolManager::new(3);

    let page0 = new_page(&mut bpm, &mut disk).expect("page 0");
    let page1 = new_page(&mut bpm, &mut disk).expect("page 1");
    let page2 = new_page(&mut bpm, &mut disk).expect("page 2");

    assert_eq!(bpm.page(page0).id, 0);
    assert_eq!(bpm.page(page1).id, 1);
    assert_eq!(bpm.page(page2).id, 2);

    assert!(bpm.unpin_page(0, true));
    assert!(bpm.unpin_page(1, false));
    assert!(bpm.unpin_page(2, false));

    let page3 = new_page(&mut bpm, &mut disk).expect("page 3");
    assert_eq!(bpm.page(page3).id, 3);
    assert_eq!(page3, page0);
    assert_eq!(disk.writes, vec![0]);
    assert!(bpm.unpin_page(3, true));

    let fetched_page0 = fetch_page(&mut bpm, &mut disk, 0).expect("page 0 again");
    assert_eq!(bpm.page(fetched_page0).id, 0);
    assert_eq!(fetched_page0, page1);
}

#[test]
fn pinned_pages_are_not_evicted() {
    let mut disk = Disk::default();
    let mut bpm = BufferPoolManager::new(2);
    new_page(&mut bpm, &mut disk).expect("page 0");
    new_page(&mut bpm, &mut disk).expect("page 1");
    assert!(new_page(&mut bpm, &mut disk).is_none());
    assert!(bpm.choose_victim().is_none());
    assert!(bpm.unpin_page(1, false));
    assert!(!bpm.unpin_page(1, false));
    assert!(!bpm.unpin_page(7, false));
    let frame = new_page(&mut bpm, &mut disk).expect("page 2");
    assert_eq!(bpm.page(frame).id, 2);
    assert_eq!(bpm.frame_of(1), None);
    assert_eq!(bpm.frame_of(2), Some(frame));
}

#[test]
fn hits_pin_again_and_refresh_recency() {
    let mut disk = Disk::default();
    let mut bpm = BufferPoolManager::new(2);
    let f0 = new_page(&mut bpm, &mut disk).expect("page 0");
    let f1 = new_page(&mut bpm, &mut disk).expect("page 1");
    assert!(bpm.unpin_page(0, false));
    assert!(bpm.unpin_page(1, false));
    assert_eq!(fetch_page(&mut bpm, &mut disk, 0), Some(f0));
    assert_eq!(bpm.page(f0).pin_count, 1);
    assert!(bpm.unpin_page(0, false));
    match bpm.choose_victim() {
        Some(Victim::Evict(frame, id, _)) => {
            assert_eq!(frame, f1);
            assert_eq!(id, 1);
        }
        _ => panic!("page 1 is the least recently used"),
    }
}

#[test]
fn flushing_writes_dirty_pages_back() {
    let mut disk = Disk::default();
    let mut bpm = BufferPoolManager::new(3);
    let f0 = new_page(&mut bpm, &mut disk).expect("page 0");
    let f1 = new_page(&mut bpm, &mut disk).expect("page 1");
    let mut data = [0u8; PAGE_SIZE];
    data[0] = 42;
    bpm.write_data(f1, data);
    bpm.mark_clean(f0);
    assert_eq!(bpm.dirty_frames(), vec![f1]);
    assert_eq!(bpm.flush_target(1), Some((f1, true)));
    assert_eq!(bpm.flush_target(9), None);
    for frame in bpm.dirty_frames() {
        let page = bpm.page(frame);
        let (id, data) = (page.id, page.data);
        disk.write_page(id, &data);
        bpm.mark_clean(frame);
    }
    assert!(bpm.dirty_frames().is_empty());
    assert_eq!(disk.read_page(1)[0], 42);
}
