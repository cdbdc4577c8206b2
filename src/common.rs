use vstd::prelude::*;

verus! {

/// Size in bytes of one database page, in memory and on disk.
pub const PAGE_SIZE: usize = 4096;

/// The reserved page identity that no real page carries.
pub const INVALID_PAGE_ID: isize = -1;

/// Identity of a slot in the buffer pool's frame array.
#[derive(Clone, Copy, Debug, PartialEq, Eq, Structural)]
pub struct FrameId {
    pub as_int: isize,
}

/// Identity of a logical database page.
#[derive(Clone, Copy, Debug, PartialEq, Eq, Structural)]
pub struct PageId {
    pub as_int: isize,
}

/// Identity of a transaction.
#[derive(Clone, Copy, Debug, PartialEq, Eq, Structural)]
pub struct TxnId {
    pub as_int: isize,
}

/// A log sequence number.
#[derive(Clone, Copy, Debug, PartialEq, Eq, Structural)]
pub struct Lsn {
    pub as_int: isize,
}

/// Offset of a slot inside a page.
#[derive(Clone, Copy, Debug, PartialEq, Eq, Structural)]
pub struct SlotOffset {
    pub as_int: isize,
}

/// An identity held as an unsigned integer.
#[derive(Clone, Copy, Debug, PartialEq, Eq, Structural)]
pub struct Old {
    pub as_u_int: usize,
}

impl FrameId {
    pub fn new(id: isize) -> (r: FrameId)
        ensures
            r.as_int == id,
    {
        FrameId { as_int: id }
    }
}

impl PageId {
    pub fn new(id: isize) -> (r: PageId)
        ensures
            r.as_int == id,
    {
        PageId { as_int: id }
    }

    /// The reserved identity of an empty frame.
    pub fn invalid() -> (r: PageId)
        ensures
            r.as_int == INVALID_PAGE_ID,
    {
        PageId { as_int: INVALID_PAGE_ID }
    }

    pub open spec fn is_valid(self) -> bool {
        self.as_int >= 0
    }
}

impl TxnId {
    pub fn new(id: isize) -> (r: TxnId)
        ensures
            r.as_int == id,
    {
        TxnId { as_int: id }
    }
}

} // verus!
