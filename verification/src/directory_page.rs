//! The hash table's directory page: global depth, per-slot local depths
//! and per-slot bucket page ids, stored as one page-sized byte image.

use vstd::prelude::*;

use crate::disk::PAGE_SIZE;
use crate::replacer::PageId;

verus! {

/// Number of directory slots; the global depth can grow to its log.
pub const DIRECTORY_ARRAY_SIZE: usize = 512;

/// The largest global depth the fixed directory can address.
pub const MAX_GLOBAL_DEPTH: u32 = 9;

/// Byte offset of the local-depth array in the page image.
pub const DIR_LOCAL_DEPTH_OFFSET: usize = 8;

/// Byte offset of the bucket-page-id array in the page image.
pub const DIR_PAGE_IDS_OFFSET: usize = 520;

/// The directory of the extendible hash table, as interpreted from and
/// written to a page image.
pub struct HashTableDirectoryPage {
    pub page_id: PageId,
    pub global_depth: u32,
    pub local_depth: Vec<u8>,
    pub page_ids: Vec<PageId>,
}

/// The local-depth array a page image holds.
pub open spec fn parse_dir_local_depth(b: Seq<u8>) -> Seq<u8> {
    Seq::new(DIRECTORY_ARRAY_SIZE as nat, |i: int| b[DIR_LOCAL_DEPTH_OFFSET + i])
}

/// The bucket-page-id array a page image holds.
pub open spec fn parse_dir_page_ids(b: Seq<u8>) -> Seq<PageId> {
    Seq::new(
        DIRECTORY_ARRAY_SIZE as nat,
        |i: int|
            PageId(
                vstd::bytes::spec_u32_from_le_bytes(
                    b.subrange(DIR_PAGE_IDS_OFFSET + 4 * i, DIR_PAGE_IDS_OFFSET + 4 * i + 4),
                ),
            ),
    )
}

/// The directory's own page id a page image holds.
pub open spec fn parse_dir_page_id(b: Seq<u8>) -> PageId {
    PageId(vstd::bytes::spec_u32_from_le_bytes(b.subrange(0, 4)))
}

/// The global depth a page image holds.
pub open spec fn parse_dir_global_depth(b: Seq<u8>) -> u32 {
    vstd::bytes::spec_u32_from_le_bytes(b.subrange(4, 8))
}

impl HashTableDirectoryPage {
    /// The in-memory directory is well-formed when both arrays have one
    /// entry per directory slot.
    pub open spec fn wf(&self) -> bool {
        &&& self.local_depth@.len() == DIRECTORY_ARRAY_SIZE
        &&& self.page_ids@.len() == DIRECTORY_ARRAY_SIZE
    }

    /// A fresh, empty directory: depth zero, all slots zeroed.
    pub fn new() -> (r: Self)
        ensures
            r.wf(),
            r.page_id == PageId(0),
            r.global_depth == 0,
            forall|i: int| 0 <= i < DIRECTORY_ARRAY_SIZE ==> r.local_depth@[i] == 0,
            forall|i: int| 0 <= i < DIRECTORY_ARRAY_SIZE ==> r.page_ids@[i] == PageId(0),
    {
        let mut local_depth: Vec<u8> = Vec::new();
        let mut page_ids: Vec<PageId> = Vec::new();
        let mut i: usize = 0;
        while i < DIRECTORY_ARRAY_SIZE
            invariant
                i <= DIRECTORY_ARRAY_SIZE,
                local_depth@.len() == i,
                page_ids@.len() == i,
                forall|j: int| 0 <= j < i ==> local_depth@[j] == 0,
                forall|j: int| 0 <= j < i ==> page_ids@[j] == PageId(0),
            decreases DIRECTORY_ARRAY_SIZE - i,
        {
            local_depth.push(0);
            page_ids.push(PageId(0));
            i += 1;
        }
        HashTableDirectoryPage { page_id: PageId(0), global_depth: 0, local_depth, page_ids }
    }

    pub fn get_page_id(&self) -> (r: PageId)
        ensures
            r == self.page_id,
    {
        self.page_id
    }

    pub fn get_global_depth(&self) -> (r: u32)
        ensures
            r == self.global_depth,
    {
        self.global_depth
    }

    pub fn get_local_depth(&self, index: usize) -> (r: u8)
        requires
            self.wf(),
            index < DIRECTORY_ARRAY_SIZE,
        ensures
            r == self.local_depth@[index as int],
    {
        self.local_depth[index]
    }

    pub fn set_global_depth(&mut self, global_depth: u32)
        ensures
            *final(self) == (HashTableDirectoryPage { global_depth, ..*old(self) }),
    {
        self.global_depth = global_depth;
    }

    pub fn set_local_depth(&mut self, index: usize, local_depth: u8)
        requires
            old(self).wf(),
            index < DIRECTORY_ARRAY_SIZE,
        ensures
            final(self).wf(),
            final(self).local_depth@ == old(self).local_depth@.update(index as int, local_depth),
            final(self).page_ids == old(self).page_ids,
            final(self).page_id == old(self).page_id,
            final(self).global_depth == old(self).global_depth,
    {
        self.local_depth[index] = local_depth;
    }

    pub fn set_page_id(&mut self, page_id: PageId)
        ensures
            *final(self) == (HashTableDirectoryPage { page_id, ..*old(self) }),
    {
        self.page_id = page_id;
    }

    pub fn get_bucket_page_id(&self, index: usize) -> (r: PageId)
        requires
            self.wf(),
            index < DIRECTORY_ARRAY_SIZE,
        ensures
            r == self.page_ids@[index as int],
    {
        self.page_ids[index]
    }

    pub fn set_bucket_page_id(&mut self, index: usize, page_id: PageId)
        requires
            old(self).wf(),
            index < DIRECTORY_ARRAY_SIZE,
        ensures
            final(self).wf(),
            final(self).page_ids@ == old(self).page_ids@.update(index as int, page_id),
            final(self).local_depth == old(self).local_depth,
            final(self).page_id == old(self).page_id,
            final(self).global_depth == old(self).global_depth,
    {
        self.page_ids[index] = page_id;
    }

    pub fn increase_global_depth(&mut self)
        requires
            old(self).global_depth < MAX_GLOBAL_DEPTH,
        ensures
            *final(self) == (HashTableDirectoryPage {
                global_depth: (old(self).global_depth + 1) as u32,
                ..*old(self)
            }),
    {
        self.global_depth = self.global_depth + 1;
    }

    pub fn increase_local_depth(&mut self, bucket_index: usize)
        requires
            old(self).wf(),
            bucket_index < DIRECTORY_ARRAY_SIZE,
            old(self).local_depth@[bucket_index as int] < 255,
        ensures
            final(self).wf(),
            final(self).local_depth@ == old(self).local_depth@.update(
                bucket_index as int,
                (old(self).local_depth@[bucket_index as int] + 1) as u8,
            ),
            final(self).page_ids == old(self).page_ids,
            final(self).page_id == old(self).page_id,
            final(self).global_depth == old(self).global_depth,
    {
        self.local_depth[bucket_index] = self.local_depth[bucket_index] + 1;
    }

    /// Write the directory out as a page image.
    pub fn serialize(&self) -> (r: Vec<u8>)
        requires
            self.wf(),
        ensures
            r@.len() == PAGE_SIZE,
            parse_dir_page_id(r@) == self.page_id,
            parse_dir_global_depth(r@) == self.global_depth,
            parse_dir_local_depth(r@) == self.local_depth@,
            parse_dir_page_ids(r@) == self.page_ids@,
    {
        proof {
            vstd::bytes::lemma_auto_spec_u32_to_from_le_bytes();
        }
        let mut out: Vec<u8> = vstd::bytes::u32_to_le_bytes(self.page_id.0);
        let mut gd = vstd::bytes::u32_to_le_bytes(self.global_depth);
        out.append(&mut gd);
        let mut i: usize = 0;
        while i < DIRECTORY_ARRAY_SIZE
            invariant
                self.wf(),
                i <= DIRECTORY_ARRAY_SIZE,
                out@.len() == DIR_LOCAL_DEPTH_OFFSET + i,
                out@.subrange(0, 4) == vstd::bytes::spec_u32_to_le_bytes(self.page_id.0),
                out@.subrange(4, 8) == vstd::bytes::spec_u32_to_le_bytes(self.global_depth),
                forall|j: int|
                    0 <= j < i ==> out@[DIR_LOCAL_DEPTH_OFFSET + j] == self.local_depth@[j],
            decreases DIRECTORY_ARRAY_SIZE - i,
        {
            let ghost pre = out@;
            out.push(self.local_depth[i]);
            proof {
                assert(out@.subrange(0, 4) =~= pre.subrange(0, 4));
                assert(out@.subrange(4, 8) =~= pre.subrange(4, 8));
            }
            i += 1;
        }
        let mut i: usize = 0;
        while i < DIRECTORY_ARRAY_SIZE
            invariant
                self.wf(),
                i <= DIRECTORY_ARRAY_SIZE,
                out@.len() == DIR_PAGE_IDS_OFFSET + 4 * i,
                out@.subrange(0, 4) == vstd::bytes::spec_u32_to_le_bytes(self.page_id.0),
                out@.subrange(4, 8) == vstd::bytes::spec_u32_to_le_bytes(self.global_depth),
                forall|j: int|
                    0 <= j < DIRECTORY_ARRAY_SIZE ==> out@[DIR_LOCAL_DEPTH_OFFSET + j]
                        == self.local_depth@[j],
                forall|j: int|
                    0 <= j < i ==> out@.subrange(
                        DIR_PAGE_IDS_OFFSET + 4 * j,
                        DIR_PAGE_IDS_OFFSET + 4 * j + 4,
                    ) == vstd::bytes::spec_u32_to_le_bytes(self.page_ids@[j].0),
            decreases DIRECTORY_ARRAY_SIZE - i,
        {
            let ghost pre = out@;
            let mut word = vstd::bytes::u32_to_le_bytes(self.page_ids[i].0);
            out.append(&mut word);
            proof {
                assert(out@.subrange(0, 4) =~= pre.subrange(0, 4));
                assert(out@.subrange(4, 8) =~= pre.subrange(4, 8));
                assert forall|j: int|
                    0 <= j < i + 1 implies out@.subrange(
                    DIR_PAGE_IDS_OFFSET + 4 * j,
                    DIR_PAGE_IDS_OFFSET + 4 * j + 4,
                ) == vstd::bytes::spec_u32_to_le_bytes(self.page_ids@[j].0) by {
                    if j < i {
                        assert(out@.subrange(
                            DIR_PAGE_IDS_OFFSET + 4 * j,
                            DIR_PAGE_IDS_OFFSET + 4 * j + 4,
                        ) =~= pre.subrange(
                            DIR_PAGE_IDS_OFFSET + 4 * j,
                            DIR_PAGE_IDS_OFFSET + 4 * j + 4,
                        ));
                    } else {
                        assert(out@.subrange(
                            DIR_PAGE_IDS_OFFSET + 4 * j,
                            DIR_PAGE_IDS_OFFSET + 4 * j + 4,
                        ) =~= vstd::bytes::spec_u32_to_le_bytes(self.page_ids@[j].0));
                    }
                }
            }
            i += 1;
        }
        let mut i: usize = DIR_PAGE_IDS_OFFSET + 4 * DIRECTORY_ARRAY_SIZE;
        while i < PAGE_SIZE
            invariant
                self.wf(),
                DIR_PAGE_IDS_OFFSET + 4 * DIRECTORY_ARRAY_SIZE <= i <= PAGE_SIZE,
                out@.len() == i,
                out@.subrange(0, 4) == vstd::bytes::spec_u32_to_le_bytes(self.page_id.0),
                out@.subrange(4, 8) == vstd::bytes::spec_u32_to_le_bytes(self.global_depth),
                forall|j: int|
                    0 <= j < DIRECTORY_ARRAY_SIZE ==> out@[DIR_LOCAL_DEPTH_OFFSET + j]
                        == self.local_depth@[j],
                forall|j: int|
                    0 <= j < DIRECTORY_ARRAY_SIZE ==> out@.subrange(
                        DIR_PAGE_IDS_OFFSET + 4 * j,
                        DIR_PAGE_IDS_OFFSET + 4 * j + 4,
                    ) == vstd::bytes::spec_u32_to_le_bytes(self.page_ids@[j].0),
            decreases PAGE_SIZE - i,
        {
            let ghost pre = out@;
            out.push(0u8);
            proof {
                assert(out@.subrange(0, 4) =~= pre.subrange(0, 4));
                assert(out@.subrange(4, 8) =~= pre.subrange(4, 8));
                assert forall|j: int|
                    0 <= j < DIRECTORY_ARRAY_SIZE implies out@.subrange(
                    DIR_PAGE_IDS_OFFSET + 4 * j,
                    DIR_PAGE_IDS_OFFSET + 4 * j + 4,
                ) == vstd::bytes::spec_u32_to_le_bytes(self.page_ids@[j].0) by {
                    assert(out@.subrange(
                        DIR_PAGE_IDS_OFFSET + 4 * j,
                        DIR_PAGE_IDS_OFFSET + 4 * j + 4,
                    ) =~= pre.subrange(
                        DIR_PAGE_IDS_OFFSET + 4 * j,
                        DIR_PAGE_IDS_OFFSET + 4 * j + 4,
                    ));
                }
            }
            i += 1;
        }
        proof {
            assert(parse_dir_local_depth(out@) =~= self.local_depth@);
            assert(parse_dir_page_ids(out@) =~= self.page_ids@);
            assert(out@.subrange(0, 4) == vstd::bytes::spec_u32_to_le_bytes(self.page_id.0));
        }
        out
    }

    /// Read a directory back from a page image.
    pub fn deserialize(bytes: &Vec<u8>) -> (r: Self)
        requires
            bytes@.len() == PAGE_SIZE,
        ensures
            r.wf(),
            r.page_id == parse_dir_page_id(bytes@),
            r.global_depth == parse_dir_global_depth(bytes@),
            r.local_depth@ == parse_dir_local_depth(bytes@),
            r.page_ids@ == parse_dir_page_ids(bytes@),
    {
        let page_id = PageId(
            vstd::bytes::u32_from_le_bytes(vstd::slice::slice_subrange(bytes.as_slice(), 0, 4)),
        );
        let global_depth = vstd::bytes::u32_from_le_bytes(
            vstd::slice::slice_subrange(bytes.as_slice(), 4, 8),
        );
        let mut local_depth: Vec<u8> = Vec::new();
        let mut i: usize = 0;
        while i < DIRECTORY_ARRAY_SIZE
            invariant
                bytes@.len() == PAGE_SIZE,
                i <= DIRECTORY_ARRAY_SIZE,
                local_depth@.len() == i,
                forall|j: int|
                    0 <= j < i ==> local_depth@[j] == bytes@[DIR_LOCAL_DEPTH_OFFSET + j],
            decreases DIRECTORY_ARRAY_SIZE - i,
        {
            local_depth.push(bytes[DIR_LOCAL_DEPTH_OFFSET + i]);
            i += 1;
        }
        let mut page_ids: Vec<PageId> = Vec::new();
        let mut i: usize = 0;
        while i < DIRECTORY_ARRAY_SIZE
            invariant
                bytes@.len() == PAGE_SIZE,
                i <= DIRECTORY_ARRAY_SIZE,
                page_ids@.len() == i,
                forall|j: int|
                    0 <= j < i ==> page_ids@[j] == PageId(
                        vstd::bytes::spec_u32_from_le_bytes(
                            bytes@.subrange(
                                DIR_PAGE_IDS_OFFSET + 4 * j,
                                DIR_PAGE_IDS_OFFSET + 4 * j + 4,
                            ),
                        ),
                    ),
            decreases DIRECTORY_ARRAY_SIZE - i,
        {
            let word = vstd::bytes::u32_from_le_bytes(
                vstd::slice::slice_subrange(
                    bytes.as_slice(),
                    DIR_PAGE_IDS_OFFSET + 4 * i,
                    DIR_PAGE_IDS_OFFSET + 4 * i + 4,
                ),
            );
            page_ids.push(PageId(word));
            i += 1;
        }
        let r = HashTableDirectoryPage { page_id, global_depth, local_depth, page_ids };
        proof {
            assert(r.local_depth@ =~= parse_dir_local_depth(bytes@));
            assert(r.page_ids@ =~= parse_dir_page_ids(bytes@));
        }
        r
    }
}

} // verus!
