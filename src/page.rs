use vstd::prelude::*;
use crate::common::{INVALID_PAGE_ID, PAGE_SIZE, PageId};

verus! {

/// The bytes of a page that holds nothing but zeros.
pub open spec fn zero_page() -> Seq<u8> {
    Seq::new(PAGE_SIZE as nat, |i: int| 0u8)
}

/// What a frame holds: a page's identity, bytes, pin count and dirty flag.
pub struct PageView {
    pub page_id: PageId,
    pub data: Seq<u8>,
    pub pin_count: nat,
    pub is_dirty: bool,
}

/// A frame of the buffer pool: a page-sized byte buffer and its metadata.
pub struct Page {
    page_id: PageId,
    data: Vec<u8>,
    pin_count: usize,
    is_dirty: bool,
}

/// A buffer of `PAGE_SIZE` zero bytes.
pub fn zeroed_bytes() -> (r: Vec<u8>)
    ensures
        r@ == zero_page(),
{
    let mut v: Vec<u8> = Vec::new();
    let mut i: usize = 0;
    while i < PAGE_SIZE
        invariant
            i <= PAGE_SIZE,
            v@ == Seq::new(i as nat, |k: int| 0u8),
        decreases PAGE_SIZE - i,
    {
        v.push(0u8);
        i = i + 1;
        proof {
            assert(v@ =~= Seq::new(i as nat, |k: int| 0u8));
        }
    }
    v
}

/// A copy of `src` in a new buffer.
pub fn copy_bytes(src: &[u8]) -> (r: Vec<u8>)
    ensures
        r@ == src@,
{
    let mut v: Vec<u8> = Vec::new();
    let mut i: usize = 0;
    while i < src.len()
        invariant
            i <= src@.len(),
            v@ == src@.subrange(0, i as int),
        decreases src@.len() - i,
    {
        v.push(src[i]);
        i = i + 1;
        proof {
            assert(v@ =~= src@.subrange(0, i as int));
        }
    }
    proof {
        assert(v@ =~= src@);
    }
    v
}

impl View for Page {
    type V = PageView;

    closed spec fn view(&self) -> PageView {
        PageView {
            page_id: self.page_id,
            data: self.data@,
            pin_count: self.pin_count as nat,
            is_dirty: self.is_dirty,
        }
    }
}

impl Page {
    /// An empty frame: invalid identity, zeroed bytes, unpinned and clean.
    pub fn new() -> (r: Page)
        ensures
            r@.page_id.as_int == INVALID_PAGE_ID,
            r@.data == zero_page(),
            r@.pin_count == 0,
            !r@.is_dirty,
    {
        Page { page_id: PageId::invalid(), data: zeroed_bytes(), pin_count: 0, is_dirty: false }
    }

    /// Sets every byte of the page to zero, leaving the metadata alone.
    pub fn reset_memory(&mut self)
        ensures
            final(self)@ == (PageView { data: zero_page(), ..old(self)@ }),
    {
        self.data = zeroed_bytes();
    }

    pub fn get_data(&self) -> (r: &Vec<u8>)
        ensures
            r@ == self@.data,
    {
        &self.data
    }

    pub fn get_page_id(&self) -> (r: PageId)
        ensures
            r == self@.page_id,
    {
        self.page_id
    }

    pub fn get_pin_count(&self) -> (r: usize)
        ensures
            r == self@.pin_count,
    {
        self.pin_count
    }

    pub fn is_dirty(&self) -> (r: bool)
        ensures
            r == self@.is_dirty,
    {
        self.is_dirty
    }

    pub(crate) fn set_page_id(&mut self, page_id: PageId)
        ensures
            final(self)@ == (PageView { page_id, ..old(self)@ }),
    {
        self.page_id = page_id;
    }

    pub(crate) fn set_pin_count(&mut self, pin_count: usize)
        ensures
            final(self)@ == (PageView { pin_count: pin_count as nat, ..old(self)@ }),
    {
        self.pin_count = pin_count;
    }

    pub(crate) fn set_dirty(&mut self, is_dirty: bool)
        ensures
            final(self)@ == (PageView { is_dirty, ..old(self)@ }),
    {
        self.is_dirty = is_dirty;
    }

    pub(crate) fn set_data(&mut self, data: Vec<u8>)
        ensures
            final(self)@ == (PageView { data: data@, ..old(self)@ }),
    {
        self.data = data;
    }
}

/// A page as read by a higher-level layout, such as a table heap.
pub trait TablePage {
    fn as_page(&self) -> &Page;
}

impl TablePage for Page {
    fn as_page(&self) -> (r: &Page)
        ensures
            r == self,
    {
        self
    }
}

} // verus!
