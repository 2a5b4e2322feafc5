use vstd::prelude::*;

verus! {

/// The size of a page on disk.
pub const PAGE_SIZE: usize = 4096;

/// A database page: its id, its bytes, whether they changed since read, and how many
/// users hold it.
pub struct Page {
    pub id: u32,
    pub data: [u8; 4096],
    pub is_dirty: bool,
    pub pin_count: u32,
}

impl Page {
    /// A clean, unpinned page of zeros.
    pub fn new(id: u32) -> (r: Page)
        ensures
            r.id == id,
            r.data@ == Seq::new(4096, |i: int| 0u8),
            !r.is_dirty,
            r.pin_count == 0,
    {
        let data = [0u8; 4096];
        proof {
            assert(data@ =~= Seq::new(4096, |i: int| 0u8));
        }
        Page { id, data, is_dirty: false, pin_count: 0 }
    }
}

/// The byte offset of page `page_id` in the data file.
pub fn page_offset(page_id: u32) -> (r: u64)
    ensures
        r == page_id * 4096,
{
    page_id as u64 * 4096
}

/// The id the next new page takes in a data file of `file_size` bytes: the number of whole
/// pages in it, its low 32 bits.
pub fn first_free_page(file_size: u64) -> (r: u32)
    ensures
        r == (file_size / 4096) as u32,
{
    (file_size / 4096) as u32
}

} // verus!
