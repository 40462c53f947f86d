//! The backing store seen by the buffer pool: positioned, page-granular
//! reads and writes, modelled as a map from page id to page image.

use vstd::prelude::*;

use crate::page::{copy_data, zeroed_data};
use crate::replacer::PageId;
use std::collections::HashMap;

verus! {

broadcast use vstd::std_specs::hash::group_hash_axioms;

/// Size in bytes of every page.
pub const PAGE_SIZE: usize = 4096;

/// A positioned page reader/writer over a single backing store.
///
/// The store is modelled as a partial map from page id to page image;
/// reading a page that was never written yields unspecified bytes.
pub trait DiskManager: Sized {
    /// The pages written so far, each exactly `PAGE_SIZE` bytes.
    spec fn disk(&self) -> Map<u32, Seq<u8>>;

    /// Internal well-formedness of the implementation.
    spec fn inv(&self) -> bool;

    /// Read one page; a page never written reads as an arbitrary
    /// `PAGE_SIZE`-byte buffer.
    fn read_page(&self, page_id: PageId) -> (page: Vec<u8>)
        requires
            self.inv(),
        ensures
            page@.len() == PAGE_SIZE,
            self.disk().contains_key(page_id.0) ==> page@ == self.disk()[page_id.0],
    ;

    /// Write one page at its position, extending the store as necessary.
    fn write_page(&mut self, page_id: PageId, page: &Vec<u8>)
        requires
            old(self).inv(),
            page@.len() == PAGE_SIZE,
        ensures
            final(self).inv(),
            final(self).disk() == old(self).disk().insert(page_id.0, page@),
    ;
}

/// An in-memory backing store: a map from page id to page image.
pub struct MemoryDiskManager {
    /// Page images, keyed by page id.
    pub pages: HashMap<u32, Vec<u8>>,
}

impl MemoryDiskManager {
    pub fn new() -> (r: Self)
        ensures
            r.inv(),
            r.disk() == Map::<u32, Seq<u8>>::empty(),
    {
        let r = MemoryDiskManager { pages: HashMap::new() };
        proof {
            assert(r.disk() =~= Map::<u32, Seq<u8>>::empty());
        }
        r
    }
}

impl DiskManager for MemoryDiskManager {
    open spec fn disk(&self) -> Map<u32, Seq<u8>> {
        self.pages@.map_values(|v: Vec<u8>| v@)
    }

    open spec fn inv(&self) -> bool {
        forall|pid: u32|
            self.pages@.contains_key(pid) ==> #[trigger] self.pages@[pid]@.len() == PAGE_SIZE
    }

    fn read_page(&self, page_id: PageId) -> (page: Vec<u8>) {
        match self.pages.get(&page_id.0) {
            Some(data) => copy_data(data),
            None => zeroed_data(),
        }
    }

    fn write_page(&mut self, page_id: PageId, page: &Vec<u8>) {
        self.pages.insert(page_id.0, copy_data(page));
        proof {
            assert(self.disk() =~= old(self).disk().insert(page_id.0, page@));
        }
    }
}

} // verus!
