//! An in-memory page frame: a fixed-size payload plus the metadata the
//! buffer pool keeps per frame (owning page id, pin count, dirty flag).

use vstd::prelude::*;

use crate::disk::PAGE_SIZE;
use crate::replacer::PageId;

verus! {

/// The all-zero page payload.
pub open spec fn zero_page() -> Seq<u8> {
    Seq::new(PAGE_SIZE as nat, |i: int| 0u8)
}

/// Build a fresh all-zero payload.
pub fn zeroed_data() -> (r: Vec<u8>)
    ensures
        r@ == zero_page(),
{
    let mut data: Vec<u8> = Vec::new();
    let mut i: usize = 0;
    while i < PAGE_SIZE
        invariant
            i <= PAGE_SIZE,
            data@.len() == i,
            forall|j: int| 0 <= j < i ==> data@[j] == 0u8,
        decreases PAGE_SIZE - i,
    {
        data.push(0u8);
        i += 1;
    }
    proof {
        assert(data@ =~= zero_page());
    }
    data
}

/// Copy a page payload byte for byte.
pub fn copy_data(src: &Vec<u8>) -> (r: Vec<u8>)
    ensures
        r@ == src@,
{
    let mut data: Vec<u8> = Vec::new();
    let mut i: usize = 0;
    while i < src.len()
        invariant
            i <= src@.len(),
            data@.len() == i,
            forall|j: int| 0 <= j < i ==> data@[j] == src@[j],
        decreases src@.len() - i,
    {
        data.push(src[i]);
        i += 1;
    }
    proof {
        assert(data@ =~= src@);
    }
    data
}

/// One frame of a buffer pool instance.
pub struct Page {
    /// The page payload, always exactly `PAGE_SIZE` bytes.
    pub data: Vec<u8>,
    /// The id of the resident page, absent while the frame is free.
    pub page_id: Option<PageId>,
    /// Whether the payload has diverged from the disk image.
    pub dirty: bool,
    /// Number of outstanding logical borrows.
    pub pin_count: usize,
}

impl Page {
    /// The frame payload is well-formed when it has exactly one page of bytes.
    pub open spec fn wf(&self) -> bool {
        self.data@.len() == PAGE_SIZE
    }

    pub fn new() -> (r: Self)
        ensures
            r.wf(),
            r.data@ == zero_page(),
            r.page_id is None,
            !r.dirty,
            r.pin_count == 0,
    {
        Page { data: zeroed_data(), page_id: None, dirty: false, pin_count: 0 }
    }

    pub fn get_page_id(&self) -> (r: Option<PageId>)
        ensures
            r == self.page_id,
    {
        self.page_id
    }

    /// A copy of the frame payload.
    pub fn get_data(&self) -> (r: Vec<u8>)
        ensures
            r@ == self.data@,
    {
        copy_data(&self.data)
    }

    pub fn is_dirty(&self) -> (r: bool)
        ensures
            r == self.dirty,
    {
        self.dirty
    }

    pub fn get_pin_count(&self) -> (r: usize)
        ensures
            r == self.pin_count,
    {
        self.pin_count
    }

    pub fn set_page_id(&mut self, page_id: PageId)
        ensures
            *final(self) == (Page { page_id: Some(page_id), ..*old(self) }),
    {
        self.page_id = Some(page_id);
    }

    pub fn set_is_dirty(&mut self, dirty: bool)
        ensures
            *final(self) == (Page { dirty, ..*old(self) }),
    {
        self.dirty = dirty;
    }

    pub fn set_pin_count(&mut self, pin_count: usize)
        ensures
            *final(self) == (Page { pin_count, ..*old(self) }),
    {
        self.pin_count = pin_count;
    }

    pub fn increase_pin_count(&mut self)
        requires
            old(self).pin_count < usize::MAX,
        ensures
            *final(self) == (Page { pin_count: (old(self).pin_count + 1) as usize, ..*old(self) }),
    {
        self.pin_count = self.pin_count + 1;
    }

    pub fn decrease_pin_count(&mut self)
        requires
            old(self).pin_count > 0,
        ensures
            *final(self) == (Page { pin_count: (old(self).pin_count - 1) as usize, ..*old(self) }),
    {
        self.pin_count = self.pin_count - 1;
    }

    /// Replace the payload with a fresh all-zero page.
    pub fn reset_data(&mut self)
        ensures
            *final(self) == (Page { data: final(self).data, ..*old(self) }),
            final(self).data@ == zero_page(),
    {
        self.data = zeroed_data();
    }
}

} // verus!
