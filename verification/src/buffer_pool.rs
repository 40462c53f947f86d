//! A single buffer pool instance: a fixed array of frames, a page table,
//! a free list, an LRU replacer, and a striped page-id allocation stream.

use vstd::prelude::*;

use crate::disk::{DiskManager, PAGE_SIZE};
use crate::page::{zero_page, Page};
use crate::replacer::{FrameId, PageId, Replacer};
use std::collections::HashMap;

verus! {

broadcast use vstd::std_specs::hash::group_hash_axioms;

/// The `m`-th instance visited by a rotation of `n` instances starting
/// at `start`.
pub open spec fn rotation_index(start: int, m: int, n: int) -> int {
    if start + m < n {
        start + m
    } else {
        start + m - n
    }
}

/// Removing one element of a duplicate-free sequence keeps it
/// duplicate-free and drops exactly that element from the membership.
proof fn lemma_remove_preserves(q: Seq<usize>, j: int)
    requires
        0 <= j < q.len(),
        q.no_duplicates(),
    ensures
        q.remove(j).no_duplicates(),
        forall|g: usize| #[trigger] q.remove(j).contains(g) <==> (q.contains(g) && g != q[j]),
{
    let q2 = q.remove(j);
    assert forall|g: usize| #[trigger] q2.contains(g) implies (q.contains(g) && g != q[j]) by {
        let i = q2.index_of(g);
        assert(q2[i] == g);
        if i < j {
            assert(q[i] == g);
        } else {
            assert(q[i + 1] == g);
        }
    }
    assert forall|g: usize| q.contains(g) && g != q[j] implies #[trigger] q2.contains(g) by {
        let i = q.index_of(g);
        assert(q[i] == g);
        if i < j {
            assert(q2[i] == g);
        } else {
            assert(i != j);
            assert(q2[i - 1] == g);
        }
    }
}

/// Appending a fresh element keeps a sequence duplicate-free and adds
/// exactly that element to the membership.
proof fn lemma_push_fresh(q: Seq<usize>, x: usize)
    requires
        !q.contains(x),
        q.no_duplicates(),
    ensures
        q.push(x).no_duplicates(),
        forall|g: usize| #[trigger] q.push(x).contains(g) <==> (q.contains(g) || g == x),
{
    let q2 = q.push(x);
    assert(q2[q.len() as int] == x);
    assert forall|g: usize| #[trigger] q2.contains(g) implies (q.contains(g) || g == x) by {
        let i = q2.index_of(g);
        assert(q2[i] == g);
        if i < q.len() {
            assert(q[i] == g);
        }
    }
    assert forall|g: usize| q.contains(g) || g == x implies #[trigger] q2.contains(g) by {
        if q.contains(g) {
            let i = q.index_of(g);
            assert(q2[i] == g);
        }
    }
}

/// As `lemma_push_fresh`, for sequences of page ids.
proof fn lemma_push_fresh_u32(q: Seq<u32>, x: u32)
    requires
        !q.contains(x),
        q.no_duplicates(),
    ensures
        q.push(x).no_duplicates(),
        forall|g: u32| #[trigger] q.push(x).contains(g) <==> (q.contains(g) || g == x),
{
    let q2 = q.push(x);
    assert(q2[q.len() as int] == x);
    assert forall|g: u32| #[trigger] q2.contains(g) implies (q.contains(g) || g == x) by {
        let i = q2.index_of(g);
        assert(q2[i] == g);
        if i < q.len() {
            assert(q[i] == g);
        }
    }
    assert forall|g: u32| q.contains(g) || g == x implies #[trigger] q2.contains(g) by {
        if q.contains(g) {
            let i = q.index_of(g);
            assert(q2[i] == g);
        }
    }
}

/// One buffer pool instance. Pages whose id is congruent to
/// `instance_index` modulo `num_instances` are cached here.
pub struct BufferPoolManager<R: Replacer> {
    pub pool_size: usize,
    pub num_instances: usize,
    pub instance_index: usize,
    /// Previously allocated page ids freed by `delete_page`, reused LIFO.
    pub deleted_page_ids: Vec<u32>,
    /// Next fresh page id of the stream `instance_index + k * num_instances`.
    pub next_page_id: u32,
    pub replacer: R,
    pub frames: Vec<Page>,
    /// Maps each resident page id to the frame holding it.
    pub page_table: HashMap<u32, usize>,
    /// Frames holding no page, available LIFO.
    pub free_list: Vec<FrameId>,
}

impl<R: Replacer> BufferPoolManager<R> {
    // ------------------------------------------------------------------
    // The abstract state: what a caller sees of one instance.
    // ------------------------------------------------------------------
    /// Is this page cached in a frame?
    pub open spec fn resident(&self, pid: u32) -> bool {
        self.page_table@.contains_key(pid)
    }

    /// The frame holding a resident page.
    pub open spec fn frame_of(&self, pid: u32) -> int {
        self.page_table@[pid] as int
    }

    /// The cached payload of a resident page.
    pub open spec fn content_of(&self, pid: u32) -> Seq<u8> {
        self.frames@[self.frame_of(pid)].data@
    }

    /// The pin count of a resident page.
    pub open spec fn pin_of(&self, pid: u32) -> nat {
        self.frames@[self.frame_of(pid)].pin_count as nat
    }

    /// The dirty flag of a resident page.
    pub open spec fn dirty_of(&self, pid: u32) -> bool {
        self.frames@[self.frame_of(pid)].dirty
    }

    /// A page id this instance has handed out and not reclaimed:
    /// `new_page` never returns an issued id again.
    pub open spec fn issued(&self, pid: u32) -> bool {
        &&& pid % (self.num_instances as u32) == self.instance_index as u32
        &&& pid < self.next_page_id
        &&& !self.deleted_page_ids@.contains(pid)
    }

    /// The fixed construction parameters.
    pub open spec fn same_config(&self, o: &Self) -> bool {
        &&& self.pool_size == o.pool_size
        &&& self.num_instances == o.num_instances
        &&& self.instance_index == o.instance_index
    }

    /// Payload, pin count and dirty flag of a page unchanged from `o`.
    pub open spec fn frame_state_preserved(o: &Self, n: &Self, pid: u32) -> bool {
        &&& n.content_of(pid) == o.content_of(pid)
        &&& n.pin_of(pid) == o.pin_of(pid)
        &&& n.dirty_of(pid) == o.dirty_of(pid)
    }

    /// A frame can be produced: the free list or the replacer is nonempty.
    pub open spec fn can_alloc_frame(&self) -> bool {
        self.free_list@.len() > 0 || self.replacer.queue().len() > 0
    }

    /// A page id can be produced without exhausting the 32-bit id space.
    pub open spec fn can_alloc_page_id(&self) -> bool {
        self.deleted_page_ids@.len() > 0 || self.next_page_id + self.num_instances <= u32::MAX
    }

    /// Everything a caller can observe of an instance is the same.
    pub open spec fn obs_eq(&self, o: &Self) -> bool {
        &&& self.same_config(o)
        &&& self.page_table == o.page_table
        &&& self.frames == o.frames
        &&& self.next_page_id == o.next_page_id
        &&& self.deleted_page_ids@ == o.deleted_page_ids@
        &&& self.free_list@ == o.free_list@
        &&& self.replacer.queue() == o.replacer.queue()
    }

    // ------------------------------------------------------------------
    // Well-formedness: the pool invariant.
    // ------------------------------------------------------------------
    /// Frames exist and each holds exactly one page of bytes.
    pub open spec fn frames_wf(&self) -> bool {
        &&& self.frames@.len() == self.pool_size
        &&& self.pool_size >= 1
        &&& forall|f: int| 0 <= f < self.frames@.len() ==> (#[trigger] self.frames@[f]).wf()
    }

    /// Every page table entry points at a frame owning exactly that page.
    pub open spec fn table_wf(&self) -> bool {
        forall|pid: u32| #[trigger]
            self.page_table@.contains_key(pid) ==> self.page_table@[pid] < self.frames@.len()
                && self.frames@[self.page_table@[pid] as int].page_id == Some(PageId(pid))
    }

    /// Every frame holding a page is indexed by the page table.
    pub open spec fn resident_tracked(&self) -> bool {
        forall|f: int|
            0 <= f < self.frames@.len() && (#[trigger] self.frames@[f]).page_id is Some
                ==> self.page_table@.contains_key(self.frames@[f].page_id.unwrap().0)
                && self.page_table@[self.frames@[f].page_id.unwrap().0] == f
    }

    /// The free list holds exactly the frames with no page, each clean
    /// and unpinned.
    pub open spec fn free_list_wf(&self) -> bool {
        &&& self.free_list@.no_duplicates()
        &&& forall|i: int|
            0 <= i < self.free_list@.len() ==> (#[trigger] self.free_list@[i]).0
                < self.frames@.len() && self.frames@[self.free_list@[i].0 as int].page_id is None
        &&& forall|f: int|
            0 <= f < self.frames@.len() && (#[trigger] self.frames@[f]).page_id is None
                ==> self.frames@[f].pin_count == 0 && !self.frames@[f].dirty
                && self.free_list@.contains(FrameId(f as usize))
    }

    /// The replacer tracks exactly the resident, unpinned frames.
    pub open spec fn replacer_wf(&self) -> bool {
        &&& self.replacer.inv()
        &&& self.replacer.capacity() == self.pool_size as nat
        &&& self.replacer.queue().no_duplicates()
        &&& forall|i: int|
            0 <= i < self.replacer.queue().len() ==> (#[trigger] self.replacer.queue()[i])
                < self.frames@.len()
        &&& forall|f: usize|
            f < self.frames@.len() ==> (#[trigger] self.replacer.queue().contains(f)
                <==> (self.frames@[f as int].page_id is Some && self.frames@[f as int].pin_count
                == 0))
    }

    /// The id streams: everything resident or reusable belongs to this
    /// instance's stripe and lies below the fresh-id watermark.
    pub open spec fn ids_wf(&self) -> bool {
        &&& self.num_instances >= 1
        &&& self.num_instances <= u32::MAX
        &&& self.instance_index < self.num_instances
        &&& self.next_page_id % (self.num_instances as u32) == self.instance_index as u32
        &&& forall|pid: u32| #[trigger]
            self.page_table@.contains_key(pid) ==> pid % (self.num_instances as u32)
                == self.instance_index as u32 && pid < self.next_page_id
        &&& self.deleted_page_ids@.no_duplicates()
        &&& forall|i: int|
            0 <= i < self.deleted_page_ids@.len() ==> (#[trigger] self.deleted_page_ids@[i])
                % (self.num_instances as u32) == self.instance_index as u32
                && self.deleted_page_ids@[i] < self.next_page_id
                && !self.page_table@.contains_key(self.deleted_page_ids@[i])
    }

    /// The pool invariant: frames, page table, free list, replacer and id
    /// streams agree, and free, evictable and pinned frames partition the
    /// pool.
    pub open spec fn wf(&self) -> bool {
        &&& self.frames_wf()
        &&& self.table_wf()
        &&& self.resident_tracked()
        &&& self.free_list_wf()
        &&& self.replacer_wf()
        &&& self.ids_wf()
    }

    // ------------------------------------------------------------------
    // Construction.
    // ------------------------------------------------------------------
    pub fn new(pool_size: usize, num_instances: usize, instance_index: usize) -> (r: Self)
        requires
            pool_size >= 1,
            num_instances >= 1,
            num_instances <= u32::MAX,
            instance_index < num_instances,
        ensures
            r.wf(),
            r.pool_size == pool_size,
            r.num_instances == num_instances,
            r.instance_index == instance_index,
            r.next_page_id == instance_index as u32,
            r.deleted_page_ids@.len() == 0,
            r.free_list@.len() == pool_size,
            r.replacer.queue().len() == 0,
            forall|pid: u32| !r.resident(pid),
            forall|pid: u32| !r.issued(pid),
            r.can_alloc_frame(),
    {
        let r = Self::new_at(pool_size, num_instances, instance_index, 0);
        proof {
            assert forall|pid: u32| !r.issued(pid) by {
                if pid < r.next_page_id {
                    vstd::arithmetic::div_mod::lemma_small_mod(pid as nat, num_instances as nat);
                }
            }
        }
        r
    }

    /// Build an instance over an existing backing store: every id of
    /// this instance's stripe below the watermark counts as already
    /// issued, so those pages can be fetched again and are never
    /// re-issued by `new_page`.
    pub fn new_at(
        pool_size: usize,
        num_instances: usize,
        instance_index: usize,
        id_watermark: u32,
    ) -> (r: Self)
        requires
            pool_size >= 1,
            num_instances >= 1,
            num_instances <= u32::MAX,
            instance_index < num_instances,
            id_watermark as int % (num_instances as int) == 0,
            id_watermark + num_instances <= u32::MAX,
        ensures
            r.wf(),
            r.pool_size == pool_size,
            r.num_instances == num_instances,
            r.instance_index == instance_index,
            r.next_page_id == id_watermark + instance_index,
            r.deleted_page_ids@.len() == 0,
            r.free_list@.len() == pool_size,
            r.replacer.queue().len() == 0,
            forall|pid: u32| !r.resident(pid),
            forall|pid: u32|
                pid % (num_instances as u32) == instance_index as u32 && pid < id_watermark
                    ==> r.issued(pid),
            r.can_alloc_frame(),
    {
        let replacer = R::new(pool_size);
        let mut frames: Vec<Page> = Vec::new();
        let mut free_list: Vec<FrameId> = Vec::new();
        let mut i: usize = 0;
        while i < pool_size
            invariant
                i <= pool_size,
                frames@.len() == i,
                free_list@.len() == i,
                forall|f: int|
                    0 <= f < i ==> (#[trigger] frames@[f]).wf() && frames@[f].page_id is None
                        && frames@[f].pin_count == 0 && !frames@[f].dirty,
                forall|j: int| 0 <= j < i ==> (#[trigger] free_list@[j]) == FrameId(j as usize),
            decreases pool_size - i,
        {
            frames.push(Page::new());
            free_list.push(FrameId(i));
            i += 1;
        }
        let r = BufferPoolManager {
            pool_size,
            num_instances,
            instance_index,
            deleted_page_ids: Vec::new(),
            next_page_id: id_watermark + instance_index as u32,
            replacer,
            frames,
            page_table: HashMap::new(),
            free_list,
        };
        proof {
            assert(r.free_list@.no_duplicates());
            vstd::arithmetic::div_mod::lemma_small_mod(
                instance_index as nat,
                num_instances as nat,
            );
            vstd::arithmetic::div_mod::lemma_fundamental_div_mod(
                id_watermark as int,
                num_instances as int,
            );
            vstd::arithmetic::div_mod::lemma_mod_multiples_vanish(
                id_watermark as int / num_instances as int,
                instance_index as int,
                num_instances as int,
            );
            assert(r.next_page_id % (num_instances as u32) == instance_index as u32);
            assert forall|f: int|
                0 <= f < r.frames@.len() && (#[trigger] r.frames@[f]).page_id is None
                implies r.frames@[f].pin_count == 0 && !r.frames@[f].dirty
                && r.free_list@.contains(FrameId(f as usize)) by {
                assert(r.free_list@[f] == FrameId(f as usize));
            }
        }
        r
    }

    // ------------------------------------------------------------------
    // Frame and page-id allocation.
    // ------------------------------------------------------------------
    /// Take a frame from the free list, or else victimize the least
    /// recently unpinned one. The caller installs a page and repairs the
    /// invariant.
    pub fn alloc_frame(&mut self) -> (r: Option<FrameId>)
        requires
            old(self).wf(),
        ensures
            final(self).same_config(old(self)),
            final(self).frames == old(self).frames,
            final(self).page_table == old(self).page_table,
            final(self).deleted_page_ids == old(self).deleted_page_ids,
            final(self).next_page_id == old(self).next_page_id,
            final(self).replacer.inv(),
            final(self).replacer.capacity() == old(self).replacer.capacity(),
            match r {
                None => final(self).free_list@ == old(self).free_list@
                    && final(self).replacer.queue() == old(self).replacer.queue()
                    && !old(self).can_alloc_frame(),
                Some(f) => {
                    &&& f.0 < old(self).pool_size
                    &&& if old(self).free_list@.len() > 0 {
                        &&& f == old(self).free_list@.last()
                        &&& final(self).free_list@ == old(self).free_list@.drop_last()
                        &&& final(self).replacer == old(self).replacer
                    } else {
                        &&& old(self).replacer.queue().len() > 0
                        &&& f.0 == old(self).replacer.queue()[0]
                        &&& final(self).replacer.queue() == old(self).replacer.queue().drop_first()
                        &&& final(self).free_list@ == old(self).free_list@
                    }
                },
            },
    {
        if let Some(frame_id) = self.free_list.pop() {
            Some(frame_id)
        } else {
            self.replacer.victim()
        }
    }

    /// Reuse the most recently deleted page id, or else advance the
    /// fresh-id stream by `num_instances`.
    pub fn alloc_page_id(&mut self) -> (r: PageId)
        requires
            old(self).ids_wf(),
            old(self).can_alloc_page_id(),
        ensures
            final(self).ids_wf(),
            final(self).same_config(old(self)),
            final(self).frames == old(self).frames,
            final(self).page_table == old(self).page_table,
            final(self).free_list == old(self).free_list,
            final(self).replacer == old(self).replacer,
            !old(self).issued(r.0),
            final(self).issued(r.0),
            !old(self).resident(r.0),
            forall|q: u32| old(self).issued(q) ==> final(self).issued(q),
            forall|q: u32| final(self).issued(q) ==> old(self).issued(q) || q == r.0,
            old(self).deleted_page_ids@.len() > 0 ==> r.0 == old(self).deleted_page_ids@.last()
                && final(self).deleted_page_ids@ == old(self).deleted_page_ids@.drop_last()
                && final(self).next_page_id == old(self).next_page_id,
            old(self).deleted_page_ids@.len() == 0 ==> r.0 == old(self).next_page_id && final(self).next_page_id == old(self).next_page_id + old(self).num_instances && final(self).deleted_page_ids@ == old(self).deleted_page_ids@,
    {
        if let Some(page_id) = self.deleted_page_ids.pop() {
            proof {
                let oldd = old(self).deleted_page_ids@;
                assert(oldd[oldd.len() - 1] == page_id);
                assert(oldd.contains(page_id));
                assert(!old(self).issued(page_id));
                if self.deleted_page_ids@.contains(page_id) {
                    let j = self.deleted_page_ids@.index_of(page_id);
                    assert(self.deleted_page_ids@[j] == page_id);
                    assert(oldd[j] == page_id);
                    assert(false);
                }
                assert forall|q: u32| old(self).issued(q) implies final(self).issued(q) by {
                    if self.deleted_page_ids@.contains(q) {
                        let j = self.deleted_page_ids@.index_of(q);
                        assert(self.deleted_page_ids@[j] == q);
                        assert(oldd[j] == q);
                        assert(oldd.contains(q));
                    }
                }
                assert forall|q: u32| final(self).issued(q) implies old(self).issued(q) || q
                    == page_id by {
                    if q != page_id && oldd.contains(q) {
                        let j = oldd.index_of(q);
                        assert(oldd[j] == q);
                        assert(j != oldd.len() - 1);
                        assert(self.deleted_page_ids@[j] == q);
                    }
                }
            }
            PageId(page_id)
        } else {
            let page_id = self.next_page_id;
            self.next_page_id = self.next_page_id + self.num_instances as u32;
            proof {
                let n = self.num_instances as int;
                vstd::arithmetic::div_mod::lemma_mod_add_multiples_vanish(page_id as int, n);
                assert((page_id + n) % n == (page_id as int) % n);
                assert forall|q: u32| final(self).issued(q) implies old(self).issued(q) || q
                    == page_id by {
                    if q >= page_id {
                        vstd::arithmetic::div_mod::lemma_mod_equivalence(
                            q as int,
                            page_id as int,
                            n,
                        );
                        vstd::arithmetic::div_mod::lemma_small_mod(
                            (q - page_id) as nat,
                            n as nat,
                        );
                        assert(q == page_id);
                    }
                }
            }
            PageId(page_id)
        }
    }

    /// The page table indexes exactly the resident pages: its key set
    /// equals the set of page ids held by frames.
    pub proof fn lemma_page_table_matches_frames(&self)
        requires
            self.wf(),
        ensures
            forall|pid: u32|
                self.page_table@.contains_key(pid) <==> exists|f: int|
                    0 <= f < self.frames@.len() && (#[trigger] self.frames@[f]).page_id == Some(
                        PageId(pid),
                    ),
    {
        assert forall|pid: u32|
            self.page_table@.contains_key(pid) implies exists|f: int|
            0 <= f < self.frames@.len() && (#[trigger] self.frames@[f]).page_id == Some(
                PageId(pid),
            ) by {
            let f = self.page_table@[pid] as int;
            assert(self.frames@[f].page_id == Some(PageId(pid)));
        }
    }

    /// Every frame is in exactly one of three states: free (on the free
    /// list), evictable (in the replacer), or pinned.
    pub proof fn lemma_frame_partition(&self)
        requires
            self.wf(),
        ensures
            forall|f: int|
                0 <= f < self.frames@.len() ==> {
                    ||| (self.free_list@.contains(FrameId(f as usize))
                        && !self.replacer.queue().contains(f as usize) && (
                    #[trigger] self.frames@[f]).pin_count == 0)
                    ||| (!self.free_list@.contains(FrameId(f as usize))
                        && self.replacer.queue().contains(f as usize) && self.frames@[f].pin_count
                        == 0)
                    ||| (!self.free_list@.contains(FrameId(f as usize))
                        && !self.replacer.queue().contains(f as usize) && self.frames@[f].pin_count
                        > 0)
                },
    {
        assert forall|f: int|
            0 <= f < self.frames@.len() && self.free_list@.contains(FrameId(f as usize))
            implies self.frames@[f].page_id is None by {
            let i = self.free_list@.index_of(FrameId(f as usize));
            assert(self.free_list@[i] == FrameId(f as usize));
        }
    }

    /// In a pool of at least three frames with none allocatable, some
    /// page beyond any two given ones is pinned.
    pub proof fn lemma_pinned_beyond(&self, a: u32, b: u32)
        requires
            self.wf(),
            self.pool_size >= 3,
            !self.can_alloc_frame(),
        ensures
            exists|p: u32|
                self.resident(p) && self.pin_of(p) > 0 && p != a && p != b,
    {
        assert forall|f: int| 0 <= f < 3 implies (#[trigger] self.frames@[f]).page_id is Some
            && self.frames@[f].pin_count > 0 by {
            if self.frames@[f].page_id is None {
                assert(self.free_list@.contains(FrameId(f as usize)));
                let i = self.free_list@.index_of(FrameId(f as usize));
                assert(false);
            }
            if self.frames@[f].pin_count == 0 {
                assert(self.replacer.queue().contains(f as usize));
                let i = self.replacer.queue().index_of(f as usize);
                assert(false);
            }
        }
        let p0 = self.frames@[0].page_id.unwrap().0;
        let p1 = self.frames@[1].page_id.unwrap().0;
        let p2 = self.frames@[2].page_id.unwrap().0;
        assert(self.page_table@[p0] == 0 && self.page_table@[p1] == 1 && self.page_table@[p2]
            == 2);
        if p0 != a && p0 != b {
            assert(self.resident(p0) && self.pin_of(p0) > 0);
        } else if p1 != a && p1 != b {
            assert(self.resident(p1) && self.pin_of(p1) > 0);
        } else {
            assert(p2 != a && p2 != b);
            assert(self.resident(p2) && self.pin_of(p2) > 0);
        }
    }

    // ------------------------------------------------------------------
    // Fetching.
    // ------------------------------------------------------------------
    /// Pin a page and return a copy of its payload. On a hit the frame is
    /// pinned once more; on a miss a frame is allocated (evicting and, if
    /// dirty, writing back its previous page) and the page is read from
    /// disk. Absent exactly when every frame is pinned.
    pub fn fetch_page<D: DiskManager>(&mut self, disk: &mut D, page_id: PageId) -> (r: Option<
        Vec<u8>,
    >)
        requires
            old(self).wf(),
            old(disk).inv(),
            old(self).resident(page_id.0) || old(self).issued(page_id.0),
            old(self).resident(page_id.0) ==> old(self).pin_of(page_id.0) < usize::MAX,
        ensures
            final(self).wf(),
            final(disk).inv(),
            final(self).same_config(old(self)),
            final(self).next_page_id == old(self).next_page_id,
            final(self).deleted_page_ids == old(self).deleted_page_ids,
            match r {
                None => {
                    &&& final(self).page_table == old(self).page_table
                    &&& final(self).frames == old(self).frames
                    &&& final(self).free_list@ == old(self).free_list@
                    &&& final(self).replacer.queue() == old(self).replacer.queue()
                    &&& *final(disk) == *old(disk)
                    &&& !old(self).resident(page_id.0)
                    &&& !old(self).can_alloc_frame()
                },
                Some(data) => {
                    &&& final(self).resident(page_id.0)
                    &&& data@ == final(self).content_of(page_id.0)
                    &&& data@.len() == PAGE_SIZE
                    &&& forall|q: u32|
                        q != page_id.0 && final(self).resident(q) ==> old(self).resident(q)
                    &&& forall|q: u32|
                        q != page_id.0 && old(self).resident(q) && final(self).resident(q)
                            ==> Self::frame_state_preserved(old(self), final(self), q)
                    &&& forall|q: u32|
                        old(self).resident(q) && old(self).pin_of(q) > 0 ==> final(self).resident(
                            q,
                        )
                    &&& if old(self).resident(page_id.0) {
                        &&& *final(disk) == *old(disk)
                        &&& final(self).content_of(page_id.0) == old(self).content_of(page_id.0)
                        &&& final(self).pin_of(page_id.0) == old(self).pin_of(page_id.0) + 1
                        &&& final(self).dirty_of(page_id.0) == old(self).dirty_of(page_id.0)
                        &&& forall|q: u32| old(self).resident(q) ==> final(self).resident(q)
                    } else {
                        &&& final(self).pin_of(page_id.0) == 1
                        &&& !final(self).dirty_of(page_id.0)
                        &&& old(disk).disk().contains_key(page_id.0) ==> data@ == old(
                            disk,
                        ).disk()[page_id.0]
                        &&& (*final(disk) == *old(disk) || exists|q: u32|
                            old(self).resident(q) && !final(self).resident(q) && old(self).dirty_of(q) && final(disk).disk() == old(disk).disk().insert(
                                q,
                                old(self).content_of(q),
                            ))
                        &&& forall|q1: u32, q2: u32|
                            old(self).resident(q1) && !final(self).resident(q1) && old(self).resident(q2) && !final(self).resident(q2) ==> q1 == q2
                        &&& forall|q: u32|
                            old(self).resident(q) && !final(self).resident(q) ==> old(self).pin_of(
                                q,
                            ) == 0 && (old(self).dirty_of(q) ==> final(disk).disk() == old(
                                disk,
                            ).disk().insert(q, old(self).content_of(q))) && (!old(self).dirty_of(q)
                                ==> *final(disk) == *old(disk))
                        &&& (old(self).free_list@.len() > 0 ==> *final(disk) == *old(disk)
                            && forall|q: u32|
                            old(self).resident(q) ==> final(self).resident(q))
                    }
                },
            },
    {
        let pid = page_id.0;
        let hit = match self.page_table.get(&pid) {
            Some(fref) => Some(*fref),
            None => None,
        };
        if let Some(f) = hit {
            self.replacer.pin(FrameId(f));
            proof {
                let oldq = old(self).replacer.queue();
                if oldq.contains(f) {
                    let j = choose|j: int|
                        0 <= j < oldq.len() && oldq[j] == f && self.replacer.queue() == oldq.remove(
                            j,
                        );
                    lemma_remove_preserves(oldq, j);
                }
            }
            self.frames[f].pin_count = self.frames[f].pin_count + 1;
            let data = crate::page::copy_data(&self.frames[f].data);
            proof {
                assert forall|q: u32|
                    q != page_id.0 && old(self).resident(q) && final(self).resident(q)
                    implies Self::frame_state_preserved(old(self), final(self), q) by {
                    assert(old(self).page_table@[q] != old(self).page_table@[page_id.0]);
                }
            }
            Some(data)
        } else {
            let frame_opt = self.alloc_frame();
            let f = match frame_opt {
                None => {
                    return None;
                },
                Some(frame_id) => frame_id.0,
            };
            let ghost mid = *self;
            proof {
                if old(self).free_list@.len() == 0 {
                    lemma_remove_preserves(old(self).replacer.queue(), 0);
                    assert(old(self).replacer.queue().remove(0) =~= old(self).replacer.queue().drop_first());
                }
            }
            let victim_page_id = self.frames[f].get_page_id();
            if self.frames[f].is_dirty() {
                match victim_page_id {
                    Some(vpid) => {
                        disk.write_page(vpid, &self.frames[f].data);
                    },
                    None => {
                        proof {
                            assert(false);
                        }
                    },
                }
            }
            if let Some(vpid) = victim_page_id {
                self.page_table.remove(&vpid.0);
                proof {
                    assert(old(self).page_table@[vpid.0] == f);
                }
            }
            self.page_table.insert(pid, f);
            self.frames[f].pin_count = 1;
            self.frames[f].dirty = false;
            self.frames[f].page_id = Some(page_id);
            let data = disk.read_page(page_id);
            self.frames[f].data = crate::page::copy_data(&data);
            proof {
                let o = *old(self);
                let n = *final(self);
                assert(n.page_table@.contains_key(pid) && n.page_table@[pid] == f);
                if victim_page_id is Some && o.frames@[f as int].dirty {
                    let vq = victim_page_id.unwrap().0;
                    assert(o.page_table@[vq] == f);
                    assert(o.resident(vq) && !n.resident(vq) && o.dirty_of(vq));
                    assert(final(disk).disk() == old(disk).disk().insert(vq, o.content_of(vq)));
                } else {
                    assert(*final(disk) == *old(disk));
                }
                assert forall|q: u32|
                    q != pid && o.resident(q) && n.resident(q) implies Self::frame_state_preserved(
                    &o,
                    &n,
                    q,
                ) by {
                    if o.page_table@[q] == f {
                        assert(o.frames@[f as int].page_id == Some(PageId(q)));
                        assert(victim_page_id == Some(PageId(q)));
                        assert(!n.page_table@.contains_key(q));
                        assert(false);
                    }
                }
                assert forall|q: u32|
                    o.resident(q) && o.pin_of(q) > 0 implies n.resident(q) by {
                    if o.page_table@[q] == f {
                        if o.free_list@.len() > 0 {
                            assert(o.free_list@.last().0 == f);
                            assert(o.free_list@.contains(FrameId(f)));
                            assert(o.frames@[f as int].page_id is None);
                        } else {
                            assert(o.replacer.queue()[0] == f);
                            assert(o.replacer.queue().contains(f));
                            assert(o.frames@[f as int].pin_count == 0);
                        }
                        assert(false);
                    }
                }
                // Re-establish the pool invariant.
                assert forall|g: int|
                    0 <= g < n.frames@.len() && (#[trigger] n.frames@[g]).page_id is Some
                    implies n.page_table@.contains_key(n.frames@[g].page_id.unwrap().0)
                    && n.page_table@[n.frames@[g].page_id.unwrap().0] == g by {
                    if g != f {
                        let q = n.frames@[g].page_id.unwrap().0;
                        assert(o.frames@[g].page_id is Some);
                        assert(o.page_table@.contains_key(q) && o.page_table@[q] == g);
                        if victim_page_id is Some {
                            assert(o.page_table@[victim_page_id.unwrap().0] == f);
                        }
                        assert(q != pid);
                    }
                }
                assert forall|g: usize|
                    g < n.frames@.len() implies (#[trigger] n.replacer.queue().contains(g) <==> (
                    n.frames@[g as int].page_id is Some && n.frames@[g as int].pin_count == 0))
                    by {
                    if old(self).free_list@.len() > 0 {
                        assert(o.free_list@.last() == FrameId(f));
                        assert(o.free_list@.contains(FrameId(f)));
                        assert(!o.replacer.queue().contains(f));
                    } else {
                        assert(mid.replacer.queue() =~= o.replacer.queue().drop_first());
                    }
                }
                assert(n.free_list_wf()) by {
                    if o.free_list@.len() > 0 {
                        assert forall|i: int|
                            0 <= i < n.free_list@.len() implies (#[trigger] n.free_list@[i]).0
                            < n.frames@.len() && n.frames@[n.free_list@[i].0 as int].page_id
                            is None by {
                            assert(o.free_list@[i] == n.free_list@[i]);
                            assert(n.free_list@[i].0 != f) by {
                                if n.free_list@[i].0 == f {
                                    assert(o.free_list@[o.free_list@.len() - 1] == FrameId(f));
                                }
                            }
                        }
                        assert forall|g: int|
                            0 <= g < n.frames@.len() && (#[trigger] n.frames@[g]).page_id is None
                            implies n.frames@[g].pin_count == 0 && !n.frames@[g].dirty
                            && n.free_list@.contains(FrameId(g as usize)) by {
                            assert(g != f);
                            assert(o.free_list@.contains(FrameId(g as usize)));
                            let i = o.free_list@.index_of(FrameId(g as usize));
                            assert(i < o.free_list@.len() - 1);
                            assert(n.free_list@[i] == FrameId(g as usize));
                        }
                    } else {
                        assert forall|g: int|
                            0 <= g < n.frames@.len() && (#[trigger] n.frames@[g]).page_id is None
                            implies n.frames@[g].pin_count == 0 && !n.frames@[g].dirty
                            && n.free_list@.contains(FrameId(g as usize)) by {
                            assert(g != f);
                        }
                    }
                }
            }
            Some(data)
        }
    }

    // ------------------------------------------------------------------
    // Page creation and deletion.
    // ------------------------------------------------------------------
    /// Allocate a frame and a fresh page id; the new page starts zeroed,
    /// pinned once and dirty, and its id is written through `page_id`.
    /// Absent when every frame is pinned or the id space is exhausted.
    pub fn new_page<D: DiskManager>(&mut self, disk: &mut D, page_id: &mut PageId) -> (r: Option<
        Vec<u8>,
    >)
        requires
            old(self).wf(),
            old(disk).inv(),
        ensures
            final(self).wf(),
            final(disk).inv(),
            final(self).same_config(old(self)),
            match r {
                None => {
                    &&& final(self).page_table == old(self).page_table
                    &&& final(self).frames == old(self).frames
                    &&& final(self).next_page_id == old(self).next_page_id
                    &&& final(self).deleted_page_ids@ == old(self).deleted_page_ids@
                    &&& final(self).free_list@ == old(self).free_list@
                    &&& final(self).replacer.queue() == old(self).replacer.queue()
                    &&& *final(disk) == *old(disk)
                    &&& *final(page_id) == *old(page_id)
                    &&& !(old(self).can_alloc_frame() && old(self).can_alloc_page_id())
                },
                Some(data) => {
                    &&& !old(self).issued(final(page_id).0)
                    &&& !old(self).resident(final(page_id).0)
                    &&& final(self).issued(final(page_id).0)
                    &&& (old(self).deleted_page_ids@.len() > 0 ==> final(page_id).0 == old(self).deleted_page_ids@.last() && final(self).deleted_page_ids@ == old(self).deleted_page_ids@.drop_last() && final(self).next_page_id == old(self).next_page_id)
                    &&& (old(self).deleted_page_ids@.len() == 0 ==> final(page_id).0 == old(self).next_page_id && final(self).next_page_id == old(self).next_page_id + old(self).num_instances && final(self).deleted_page_ids@ == old(self).deleted_page_ids@)
                    &&& forall|q: u32| old(self).issued(q) ==> final(self).issued(q)
                    &&& forall|q: u32|
                        final(self).issued(q) ==> old(self).issued(q) || q == final(page_id).0
                    &&& final(self).resident(final(page_id).0)
                    &&& final(self).pin_of(final(page_id).0) == 1
                    &&& final(self).dirty_of(final(page_id).0)
                    &&& final(self).content_of(final(page_id).0) == zero_page()
                    &&& data@ == zero_page()
                    &&& forall|q: u32|
                        q != final(page_id).0 && final(self).resident(q) ==> old(self).resident(q)
                    &&& forall|q: u32|
                        q != final(page_id).0 && old(self).resident(q) && final(self).resident(q)
                            ==> Self::frame_state_preserved(old(self), final(self), q)
                    &&& forall|q: u32|
                        old(self).resident(q) && old(self).pin_of(q) > 0 ==> final(self).resident(
                            q,
                        )
                    &&& (*final(disk) == *old(disk) || exists|q: u32|
                        old(self).resident(q) && !final(self).resident(q) && old(self).dirty_of(q)
                            && final(disk).disk() == old(disk).disk().insert(
                            q,
                            old(self).content_of(q),
                        ))
                    &&& forall|q1: u32, q2: u32|
                        old(self).resident(q1) && !final(self).resident(q1) && old(self).resident(
                            q2,
                        ) && !final(self).resident(q2) ==> q1 == q2
                    &&& forall|q: u32|
                        old(self).resident(q) && !final(self).resident(q) ==> old(self).pin_of(q)
                            == 0 && (old(self).dirty_of(q) ==> final(disk).disk() == old(
                            disk,
                        ).disk().insert(q, old(self).content_of(q))) && (!old(self).dirty_of(q)
                            ==> *final(disk) == *old(disk))
                    &&& (old(self).free_list@.len() > 0 ==> *final(disk) == *old(disk) && forall|
                        q: u32,
                    |
                        old(self).resident(q) ==> final(self).resident(q))
                },
            },
    {
        if self.deleted_page_ids.len() == 0 && self.next_page_id > u32::MAX
            - self.num_instances as u32 {
            return None;
        }
        let frame_opt = self.alloc_frame();
        let f = match frame_opt {
            None => {
                return None;
            },
            Some(frame_id) => frame_id.0,
        };
        let ghost mid = *self;
        proof {
            if old(self).free_list@.len() == 0 {
                lemma_remove_preserves(old(self).replacer.queue(), 0);
                assert(old(self).replacer.queue().remove(0) =~= old(self).replacer.queue().drop_first());
            }
        }
        let new_page_id = self.alloc_page_id();
        let ghost mid2 = *self;
        let victim_page_id = self.frames[f].get_page_id();
        if self.frames[f].is_dirty() {
            match victim_page_id {
                Some(vpid) => {
                    disk.write_page(vpid, &self.frames[f].data);
                },
                None => {
                    proof {
                        assert(false);
                    }
                },
            }
        }
        if let Some(vpid) = victim_page_id {
            self.page_table.remove(&vpid.0);
            proof {
                assert(old(self).page_table@[vpid.0] == f);
            }
        }
        self.page_table.insert(new_page_id.0, f);
        self.frames[f].page_id = Some(new_page_id);
        self.frames[f].dirty = true;
        self.frames[f].pin_count = 1;
        self.frames[f].data = crate::page::zeroed_data();
        self.replacer.pin(FrameId(f));
        proof {
            assert(mid.replacer.queue() == final(self).replacer.queue());
        }
        *page_id = new_page_id;
        let data = crate::page::zeroed_data();
        proof {
            let o = *old(self);
            let n = *final(self);
            let pid = new_page_id.0;
            assert(n.page_table@.contains_key(pid) && n.page_table@[pid] == f);
            if victim_page_id is Some && o.frames@[f as int].dirty {
                let vq = victim_page_id.unwrap().0;
                assert(o.page_table@[vq] == f);
                assert(o.resident(vq) && !n.resident(vq) && o.dirty_of(vq));
                assert(final(disk).disk() == old(disk).disk().insert(vq, o.content_of(vq)));
            } else {
                assert(*final(disk) == *old(disk));
            }
            assert(n.next_page_id == mid2.next_page_id && n.deleted_page_ids@
                == mid2.deleted_page_ids@);
            assert(o.next_page_id == mid.next_page_id && o.deleted_page_ids@
                == mid.deleted_page_ids@);
            assert forall|q: u32| o.issued(q) implies n.issued(q) by {
                assert(mid.issued(q));
                assert(mid2.issued(q));
            }
            assert forall|q: u32| n.issued(q) implies o.issued(q) || q == pid by {
                assert(mid2.issued(q));
                if q != pid {
                    assert(mid.issued(q));
                }
            }
            assert(!o.issued(pid)) by {
                if mid.issued(pid) {
                    assert(false);
                }
            }
            assert(n.issued(pid)) by {
                assert(mid2.issued(pid));
            }
            assert(!o.resident(pid)) by {
                assert(!mid.resident(pid));
            }
            assert forall|q: u32|
                q != pid && o.resident(q) && n.resident(q) implies Self::frame_state_preserved(
                &o,
                &n,
                q,
            ) by {
                if o.page_table@[q] == f {
                    assert(o.frames@[f as int].page_id == Some(PageId(q)));
                    assert(victim_page_id == Some(PageId(q)));
                    assert(!n.page_table@.contains_key(q));
                    assert(false);
                }
            }
            assert forall|q: u32|
                o.resident(q) && o.pin_of(q) > 0 implies n.resident(q) by {
                if o.page_table@[q] == f {
                    if o.free_list@.len() > 0 {
                        assert(o.free_list@.last().0 == f);
                        assert(o.free_list@.contains(FrameId(f)));
                        assert(o.frames@[f as int].page_id is None);
                    } else {
                        assert(o.replacer.queue()[0] == f);
                        assert(o.replacer.queue().contains(f));
                        assert(o.frames@[f as int].pin_count == 0);
                    }
                    assert(false);
                }
            }
            // Re-establish the pool invariant.
            assert forall|g: int|
                0 <= g < n.frames@.len() && (#[trigger] n.frames@[g]).page_id is Some
                implies n.page_table@.contains_key(n.frames@[g].page_id.unwrap().0)
                && n.page_table@[n.frames@[g].page_id.unwrap().0] == g by {
                if g != f {
                    let q = n.frames@[g].page_id.unwrap().0;
                    assert(o.frames@[g].page_id is Some);
                    assert(o.page_table@.contains_key(q) && o.page_table@[q] == g);
                    if victim_page_id is Some {
                        assert(o.page_table@[victim_page_id.unwrap().0] == f);
                    }
                    assert(q != pid);
                }
            }
            assert forall|g: usize|
                g < n.frames@.len() implies (#[trigger] n.replacer.queue().contains(g) <==> (
                n.frames@[g as int].page_id is Some && n.frames@[g as int].pin_count == 0)) by {
                if o.free_list@.len() > 0 {
                    assert(o.free_list@.last() == FrameId(f));
                    assert(o.free_list@.contains(FrameId(f)));
                    assert(!o.replacer.queue().contains(f));
                } else {
                    assert(mid.replacer.queue() =~= o.replacer.queue().drop_first());
                }
            }
            assert(n.free_list_wf()) by {
                if o.free_list@.len() > 0 {
                    assert forall|i: int|
                        0 <= i < n.free_list@.len() implies (#[trigger] n.free_list@[i]).0
                        < n.frames@.len() && n.frames@[n.free_list@[i].0 as int].page_id
                        is None by {
                        assert(o.free_list@[i] == n.free_list@[i]);
                        assert(n.free_list@[i].0 != f) by {
                            if n.free_list@[i].0 == f {
                                assert(o.free_list@[o.free_list@.len() - 1] == FrameId(f));
                            }
                        }
                    }
                    assert forall|g: int|
                        0 <= g < n.frames@.len() && (#[trigger] n.frames@[g]).page_id is None
                        implies n.frames@[g].pin_count == 0 && !n.frames@[g].dirty
                        && n.free_list@.contains(FrameId(g as usize)) by {
                        assert(g != f);
                        assert(o.free_list@.contains(FrameId(g as usize)));
                        let i = o.free_list@.index_of(FrameId(g as usize));
                        assert(i < o.free_list@.len() - 1);
                        assert(n.free_list@[i] == FrameId(g as usize));
                    }
                } else {
                    assert forall|g: int|
                        0 <= g < n.frames@.len() && (#[trigger] n.frames@[g]).page_id is None
                        implies n.frames@[g].pin_count == 0 && !n.frames@[g].dirty
                        && n.free_list@.contains(FrameId(g as usize)) by {
                        assert(g != f);
                    }
                }
            }
            assert(n.ids_wf()) by {
                assert forall|q: u32| #[trigger]
                    n.page_table@.contains_key(q) implies q % (n.num_instances as u32)
                    == n.instance_index as u32 && q < n.next_page_id by {
                    if q != pid {
                        assert(o.page_table@.contains_key(q));
                    }
                }
                assert forall|i: int|
                    0 <= i < n.deleted_page_ids@.len() implies (
                #[trigger] n.deleted_page_ids@[i]) % (n.num_instances as u32)
                    == n.instance_index as u32 && n.deleted_page_ids@[i] < n.next_page_id
                    && !n.page_table@.contains_key(n.deleted_page_ids@[i]) by {
                    assert(n.deleted_page_ids@.contains(n.deleted_page_ids@[i]));
                    assert(!n.issued(n.deleted_page_ids@[i]));
                }
            }
        }
        Some(data)
    }

    /// Return a resident, unpinned page's frame to the free list and its
    /// id to the reuse stack. A page that is not resident is ignored.
    pub fn delete_page(&mut self, page_id: PageId)
        requires
            old(self).wf(),
            old(self).resident(page_id.0) ==> old(self).pin_of(page_id.0) == 0,
        ensures
            final(self).wf(),
            final(self).same_config(old(self)),
            final(self).next_page_id == old(self).next_page_id,
            !old(self).resident(page_id.0) ==> *final(self) == *old(self),
            old(self).resident(page_id.0) ==> {
                &&& !final(self).resident(page_id.0)
                &&& !final(self).issued(page_id.0)
                &&& final(self).deleted_page_ids@ == old(self).deleted_page_ids@.push(page_id.0)
                &&& forall|q: u32|
                    q != page_id.0 ==> final(self).resident(q) == old(self).resident(q)
                &&& forall|q: u32|
                    q != page_id.0 && old(self).resident(q) ==> Self::frame_state_preserved(
                        old(self),
                        final(self),
                        q,
                    )
                &&& forall|q: u32|
                    final(self).issued(q) <==> (old(self).issued(q) && q != page_id.0)
            },
    {
        let pid = page_id.0;
        let hit = match self.page_table.get(&pid) {
            Some(fref) => Some(*fref),
            None => None,
        };
        if let Some(f) = hit {
            self.replacer.pin(FrameId(f));
            proof {
                let oldq = old(self).replacer.queue();
                assert(oldq.contains(f));
                let j = choose|j: int|
                    0 <= j < oldq.len() && oldq[j] == f && self.replacer.queue() == oldq.remove(j);
                lemma_remove_preserves(oldq, j);
            }
            self.free_list.push(FrameId(f));
            self.page_table.remove(&pid);
            self.deleted_page_ids.push(pid);
            self.frames[f].page_id = None;
            self.frames[f].dirty = false;
            proof {
                let o = *old(self);
                let n = *final(self);
                assert forall|q: u32|
                    q != pid && o.resident(q) implies Self::frame_state_preserved(&o, &n, q) by {
                    assert(o.page_table@[q] != f);
                }
                assert forall|g: int|
                    0 <= g < n.frames@.len() && (#[trigger] n.frames@[g]).page_id is Some
                    implies n.page_table@.contains_key(n.frames@[g].page_id.unwrap().0)
                    && n.page_table@[n.frames@[g].page_id.unwrap().0] == g by {
                    let q = n.frames@[g].page_id.unwrap().0;
                    assert(o.page_table@.contains_key(q) && o.page_table@[q] == g);
                    assert(q != pid);
                }
                assert(n.free_list_wf()) by {
                    assert(!o.free_list@.contains(FrameId(f)));
                    assert forall|i: int|
                        0 <= i < n.free_list@.len() implies (#[trigger] n.free_list@[i]).0
                        < n.frames@.len() && n.frames@[n.free_list@[i].0 as int].page_id
                        is None by {
                        if i < o.free_list@.len() {
                            assert(n.free_list@[i] == o.free_list@[i]);
                            assert(o.free_list@[i].0 != f);
                        }
                    }
                    assert(n.free_list@.no_duplicates()) by {
                        assert forall|i1: int, i2: int|
                            0 <= i1 < n.free_list@.len() && 0 <= i2 < n.free_list@.len() && i1
                                != i2 implies n.free_list@[i1] != n.free_list@[i2] by {
                            if i1 < o.free_list@.len() && i2 < o.free_list@.len() {
                                assert(o.free_list@[i1] != o.free_list@[i2]);
                            } else if i1 < o.free_list@.len() {
                                assert(o.free_list@[i1].0 != f);
                            } else if i2 < o.free_list@.len() {
                                assert(o.free_list@[i2].0 != f);
                            }
                        }
                    }
                    assert forall|g: int|
                        0 <= g < n.frames@.len() && (#[trigger] n.frames@[g]).page_id is None
                        implies n.frames@[g].pin_count == 0 && !n.frames@[g].dirty
                        && n.free_list@.contains(FrameId(g as usize)) by {
                        if g == f {
                            assert(n.free_list@[n.free_list@.len() - 1] == FrameId(f));
                        } else {
                            assert(o.frames@[g].page_id is None);
                            let i = o.free_list@.index_of(FrameId(g as usize));
                            assert(o.free_list@[i] == FrameId(g as usize));
                            assert(n.free_list@[i] == FrameId(g as usize));
                        }
                    }
                }
                assert(n.ids_wf()) by {
                    assert(!o.deleted_page_ids@.contains(pid));
                    assert forall|i: int|
                        0 <= i < n.deleted_page_ids@.len() implies (
                    #[trigger] n.deleted_page_ids@[i]) % (n.num_instances as u32)
                        == n.instance_index as u32 && n.deleted_page_ids@[i] < n.next_page_id
                        && !n.page_table@.contains_key(n.deleted_page_ids@[i]) by {
                        if i < o.deleted_page_ids@.len() {
                            assert(n.deleted_page_ids@[i] == o.deleted_page_ids@[i]);
                        } else {
                            assert(n.deleted_page_ids@[i] == pid);
                            assert(o.page_table@.contains_key(pid));
                        }
                    }
                    assert(n.deleted_page_ids@.no_duplicates()) by {
                        assert forall|i1: int, i2: int|
                            0 <= i1 < n.deleted_page_ids@.len() && 0 <= i2
                                < n.deleted_page_ids@.len() && i1 != i2
                            implies n.deleted_page_ids@[i1] != n.deleted_page_ids@[i2] by {
                            if i1 < o.deleted_page_ids@.len() && i2 < o.deleted_page_ids@.len() {
                                assert(o.deleted_page_ids@[i1] != o.deleted_page_ids@[i2]);
                            } else if i1 < o.deleted_page_ids@.len() {
                                assert(o.deleted_page_ids@.contains(o.deleted_page_ids@[i1]));
                            } else if i2 < o.deleted_page_ids@.len() {
                                assert(o.deleted_page_ids@.contains(o.deleted_page_ids@[i2]));
                            }
                        }
                    }
                }
                assert forall|q: u32|
                    final(self).issued(q) <==> (old(self).issued(q) && q != page_id.0) by {
                    lemma_push_fresh_u32(o.deleted_page_ids@, pid);
                }
            }
        }
    }

    /// Write every dirty resident page back to disk. Dirty flags are left
    /// unchanged, so calling this repeatedly is safe.
    pub fn flush_all_pages<D: DiskManager>(&self, disk: &mut D)
        requires
            self.wf(),
            old(disk).inv(),
        ensures
            final(disk).inv(),
            forall|p: u32|
                self.resident(p) && self.dirty_of(p) ==> final(disk).disk().contains_key(p)
                    && final(disk).disk()[p] == self.content_of(p),
            forall|p: u32| #[trigger]
                final(disk).disk().contains_key(p) <==> (old(disk).disk().contains_key(p) || (
                self.resident(p) && self.dirty_of(p))),
            forall|p: u32|
                old(disk).disk().contains_key(p) && !(self.resident(p) && self.dirty_of(p))
                    ==> final(disk).disk()[p] == old(disk).disk()[p],
    {
        let mut f: usize = 0;
        while f < self.frames.len()
            invariant
                self.wf(),
                disk.inv(),
                f <= self.frames@.len(),
                forall|p: u32|
                    self.resident(p) && self.dirty_of(p) && self.frame_of(p) < f ==> disk.disk().contains_key(
                        p,
                    ) && disk.disk()[p] == self.content_of(p),
                forall|p: u32| #[trigger]
                    disk.disk().contains_key(p) <==> (old(disk).disk().contains_key(p) || (
                    self.resident(p) && self.dirty_of(p) && self.frame_of(p) < f)),
                forall|p: u32|
                    old(disk).disk().contains_key(p) && !(self.resident(p) && self.dirty_of(p)
                        && self.frame_of(p) < f) ==> disk.disk()[p] == old(disk).disk()[p],
            decreases self.frames@.len() - f,
        {
            if self.frames[f].is_dirty() {
                let pid = match self.frames[f].get_page_id() {
                    Some(p) => p,
                    None => {
                        proof {
                            assert(false);
                        }
                        PageId(0)
                    },
                };
                proof {
                    assert(self.page_table@.contains_key(pid.0) && self.page_table@[pid.0] == f);
                }
                let ghost pre_disk = disk.disk();
                disk.write_page(pid, &self.frames[f].data);
                proof {
                    assert forall|p: u32|
                        self.resident(p) && self.dirty_of(p) && self.frame_of(p) < f + 1
                        implies disk.disk().contains_key(p) && disk.disk()[p] == self.content_of(
                        p,
                    ) by {
                        if self.frame_of(p) == f {
                            assert(p == pid.0);
                        }
                    }
                    assert forall|p: u32| #[trigger]
                        disk.disk().contains_key(p) <==> (old(disk).disk().contains_key(p) || (
                        self.resident(p) && self.dirty_of(p) && self.frame_of(p) < f + 1)) by {
                        if p == pid.0 {
                            assert(self.resident(p) && self.dirty_of(p) && self.frame_of(p) < f
                                + 1);
                        } else {
                            assert(disk.disk().contains_key(p) == pre_disk.contains_key(p));
                            if self.resident(p) && self.frame_of(p) == f {
                                assert(self.frames@[f as int].page_id == Some(PageId(p)));
                                assert(p == pid.0);
                            }
                        }
                    }
                    assert forall|p: u32|
                        old(disk).disk().contains_key(p) && !(self.resident(p) && self.dirty_of(p)
                            && self.frame_of(p) < f + 1) implies disk.disk()[p] == old(
                        disk,
                    ).disk()[p] by {
                        assert(p != pid.0);
                        assert(disk.disk()[p] == pre_disk[p]);
                    }
                }
            }
            f += 1;
        }
    }

    // ------------------------------------------------------------------
    // Pin bookkeeping and payload access.
    // ------------------------------------------------------------------
    /// Release one borrow of a resident page; the dirty flag is raised
    /// monotonically (`dirty = false` never clears it).
    pub fn unpin_page(&mut self, page_id: PageId, is_dirty: bool)
        requires
            old(self).wf(),
            old(self).resident(page_id.0),
            old(self).pin_of(page_id.0) > 0,
        ensures
            final(self).wf(),
            final(self).same_config(old(self)),
            final(self).next_page_id == old(self).next_page_id,
            final(self).deleted_page_ids == old(self).deleted_page_ids,
            final(self).page_table == old(self).page_table,
            final(self).pin_of(page_id.0) == (old(self).pin_of(page_id.0) - 1) as nat,
            final(self).content_of(page_id.0) == old(self).content_of(page_id.0),
            final(self).dirty_of(page_id.0) == (old(self).dirty_of(page_id.0) || is_dirty),
            old(self).pin_of(page_id.0) == 1 ==> final(self).replacer.queue() == old(
                self,
            ).replacer.queue().push(old(self).page_table@[page_id.0]),
            old(self).pin_of(page_id.0) > 1 ==> final(self).replacer.queue() == old(
                self,
            ).replacer.queue(),
            forall|q: u32|
                q != page_id.0 && old(self).resident(q) ==> Self::frame_state_preserved(
                    old(self),
                    final(self),
                    q,
                ),
    {
        let f = *self.page_table.get(&page_id.0).unwrap();
        self.frames[f].pin_count = self.frames[f].pin_count - 1;
        if self.frames[f].pin_count == 0 {
            self.replacer.unpin(FrameId(f));
            proof {
                lemma_push_fresh(old(self).replacer.queue(), f);
            }
        }
        if !self.frames[f].dirty {
            self.frames[f].dirty = is_dirty;
        }
        proof {
            assert forall|q: u32|
                q != page_id.0 && old(self).resident(q) implies Self::frame_state_preserved(
                old(self),
                final(self),
                q,
            ) by {
                assert(old(self).page_table@[q] != old(self).page_table@[page_id.0]);
            }
        }
    }

    /// Overwrite the payload of a pinned resident page.
    pub fn write_page_data(&mut self, page_id: PageId, data: &Vec<u8>)
        requires
            old(self).wf(),
            old(self).resident(page_id.0),
            old(self).pin_of(page_id.0) > 0,
            data@.len() == PAGE_SIZE,
        ensures
            final(self).wf(),
            final(self).same_config(old(self)),
            final(self).next_page_id == old(self).next_page_id,
            final(self).deleted_page_ids == old(self).deleted_page_ids,
            final(self).page_table == old(self).page_table,
            final(self).replacer == old(self).replacer,
            final(self).content_of(page_id.0) == data@,
            final(self).pin_of(page_id.0) == old(self).pin_of(page_id.0),
            final(self).dirty_of(page_id.0) == old(self).dirty_of(page_id.0),
            forall|q: u32|
                q != page_id.0 && old(self).resident(q) ==> Self::frame_state_preserved(
                    old(self),
                    final(self),
                    q,
                ),
    {
        let f = *self.page_table.get(&page_id.0).unwrap();
        self.frames[f].data = crate::page::copy_data(data);
        proof {
            assert forall|q: u32|
                q != page_id.0 && old(self).resident(q) implies Self::frame_state_preserved(
                old(self),
                final(self),
                q,
            ) by {
                assert(old(self).page_table@[q] != old(self).page_table@[page_id.0]);
            }
        }
    }

    /// Write a resident page back to disk if it is dirty; the dirty flag
    /// is left unchanged.
    pub fn flush_page<D: DiskManager>(&self, disk: &mut D, page_id: PageId)
        requires
            self.wf(),
            old(disk).inv(),
            self.resident(page_id.0),
        ensures
            final(disk).inv(),
            self.dirty_of(page_id.0) ==> final(disk).disk() == old(disk).disk().insert(
                page_id.0,
                self.content_of(page_id.0),
            ),
            !self.dirty_of(page_id.0) ==> *final(disk) == *old(disk),
    {
        let f = *self.page_table.get(&page_id.0).unwrap();
        if self.frames[f].dirty {
            disk.write_page(page_id, &self.frames[f].data);
        }
    }
}

/// A parallel buffer pool: `num_instances` single pools striped by
/// `page_id mod num_instances`, sharing one disk manager.
pub struct ParallelBufferPoolManager<R: Replacer, D: DiskManager> {
    pub num_instances: usize,
    pub pool_size: usize,
    pub instances: Vec<BufferPoolManager<R>>,
    /// Where the next round-robin page allocation starts looking.
    pub start_index: usize,
    pub disk_manager: D,
}

impl<R: Replacer, D: DiskManager> ParallelBufferPoolManager<R, D> {
    /// The instance that owns a page id.
    pub open spec fn inst_of(&self, pid: u32) -> int {
        (pid % (self.num_instances as u32)) as int
    }

    pub open spec fn resident(&self, pid: u32) -> bool {
        self.instances@[self.inst_of(pid)].resident(pid)
    }

    pub open spec fn content_of(&self, pid: u32) -> Seq<u8> {
        self.instances@[self.inst_of(pid)].content_of(pid)
    }

    pub open spec fn pin_of(&self, pid: u32) -> nat {
        self.instances@[self.inst_of(pid)].pin_of(pid)
    }

    pub open spec fn dirty_of(&self, pid: u32) -> bool {
        self.instances@[self.inst_of(pid)].dirty_of(pid)
    }

    pub open spec fn issued(&self, pid: u32) -> bool {
        self.instances@[self.inst_of(pid)].issued(pid)
    }

    /// The disk image seen through the shared disk manager.
    pub open spec fn disk(&self) -> Map<u32, Seq<u8>> {
        self.disk_manager.disk()
    }

    pub open spec fn same_config(&self, o: &Self) -> bool {
        &&& self.num_instances == o.num_instances
        &&& self.pool_size == o.pool_size
    }

    /// Payload, pin count and dirty flag of a page unchanged from `o`.
    pub open spec fn page_state_preserved(o: &Self, n: &Self, pid: u32) -> bool {
        &&& n.content_of(pid) == o.content_of(pid)
        &&& n.pin_of(pid) == o.pin_of(pid)
        &&& n.dirty_of(pid) == o.dirty_of(pid)
    }

    /// Residency, payload, pin count and dirty flag all unchanged.
    pub open spec fn page_untouched(o: &Self, n: &Self, pid: u32) -> bool {
        &&& n.resident(pid) == o.resident(pid)
        &&& (o.resident(pid) ==> Self::page_state_preserved(o, n, pid))
    }

    pub open spec fn wf(&self) -> bool {
        &&& self.num_instances >= 1
        &&& self.num_instances <= u32::MAX
        &&& self.instances@.len() == self.num_instances
        &&& self.start_index < self.num_instances
        &&& self.disk_manager.inv()
        &&& forall|k: int|
            0 <= k < self.instances@.len() ==> (#[trigger] self.instances@[k]).wf()
                && self.instances@[k].pool_size == self.pool_size
                && self.instances@[k].num_instances == self.num_instances
                && self.instances@[k].instance_index == k
    }

    pub fn new(num_instances: usize, pool_size: usize, disk_manager: D) -> (r: Self)
        requires
            num_instances >= 1,
            num_instances <= u32::MAX,
            pool_size >= 1,
            disk_manager.inv(),
        ensures
            r.wf(),
            r.num_instances == num_instances,
            r.pool_size == pool_size,
            r.start_index == 0,
            r.disk() == disk_manager.disk(),
            forall|pid: u32| !r.resident(pid),
            forall|pid: u32| !r.issued(pid),
            forall|k: int|
                0 <= k < num_instances ==> (#[trigger] r.instances@[k]).free_list@.len()
                    == pool_size && r.instances@[k].next_page_id == k as u32
                    && r.instances@[k].deleted_page_ids@.len() == 0,
    {
        let r = Self::reopen(num_instances, pool_size, disk_manager, 0);
        proof {
            assert forall|k: int| 0 <= k < num_instances implies (
            #[trigger] r.instances@[k]).next_page_id == k as u32 by {}
            assert forall|pid: u32| !r.issued(pid) by {
                let k = r.inst_of(pid);
                if pid < r.instances@[k].next_page_id {
                    vstd::arithmetic::div_mod::lemma_small_mod(pid as nat, num_instances as nat);
                }
            }
        }
        r
    }

    /// Build a pool over an existing backing store: every page id below
    /// the watermark counts as already issued, so pages persisted by an
    /// earlier pool can be fetched again and their ids are never handed
    /// out anew.
    pub fn reopen(
        num_instances: usize,
        pool_size: usize,
        disk_manager: D,
        id_watermark: u32,
    ) -> (r: Self)
        requires
            num_instances >= 1,
            num_instances <= u32::MAX,
            pool_size >= 1,
            disk_manager.inv(),
            id_watermark as int % (num_instances as int) == 0,
            id_watermark + num_instances <= u32::MAX,
        ensures
            r.wf(),
            r.num_instances == num_instances,
            r.pool_size == pool_size,
            r.start_index == 0,
            r.disk() == disk_manager.disk(),
            forall|pid: u32| !r.resident(pid),
            forall|pid: u32| pid < id_watermark ==> r.issued(pid),
            forall|k: int|
                0 <= k < num_instances ==> (#[trigger] r.instances@[k]).free_list@.len()
                    == pool_size && r.instances@[k].next_page_id == id_watermark + k
                    && r.instances@[k].deleted_page_ids@.len() == 0,
    {
        let mut instances: Vec<BufferPoolManager<R>> = Vec::new();
        let mut i: usize = 0;
        while i < num_instances
            invariant
                i <= num_instances,
                num_instances >= 1,
                num_instances <= u32::MAX,
                pool_size >= 1,
                id_watermark as int % (num_instances as int) == 0,
                id_watermark + num_instances <= u32::MAX,
                instances@.len() == i,
                forall|k: int|
                    0 <= k < i ==> (#[trigger] instances@[k]).wf() && instances@[k].pool_size
                        == pool_size && instances@[k].num_instances == num_instances
                        && instances@[k].instance_index == k && (forall|pid: u32|
                        !instances@[k].resident(pid)) && (forall|pid: u32|
                        pid % (num_instances as u32) == k as u32 && pid < id_watermark
                            ==> instances@[k].issued(pid)) && instances@[k].free_list@.len()
                        == pool_size && instances@[k].next_page_id == id_watermark + k
                        && instances@[k].deleted_page_ids@.len() == 0,
            decreases num_instances - i,
        {
            instances.push(BufferPoolManager::new_at(pool_size, num_instances, i, id_watermark));
            i += 1;
        }
        let r = ParallelBufferPoolManager {
            num_instances,
            pool_size,
            instances,
            start_index: 0,
            disk_manager,
        };
        proof {
            assert forall|pid: u32| pid < id_watermark implies r.issued(pid) by {
                let k = r.inst_of(pid);
                assert(r.instances@[k].issued(pid));
            }
        }
        r
    }

    /// Consume the pool, handing back the shared disk manager.
    pub fn into_disk_manager(self) -> (r: D)
        ensures
            r == self.disk_manager,
    {
        self.disk_manager
    }

    /// The index of the instance that owns a page id.
    fn get_instance(&self, page_id: PageId) -> (k: usize)
        requires
            self.wf(),
        ensures
            k as int == self.inst_of(page_id.0),
            k < self.num_instances,
    {
        (page_id.0 % (self.num_instances as u32)) as usize
    }

    /// Pin a page in its owning instance and return a copy of its payload.
    /// Only that instance is touched.
    pub fn fetch_page(&mut self, page_id: PageId) -> (r: Option<Vec<u8>>)
        requires
            old(self).wf(),
            old(self).resident(page_id.0) || old(self).issued(page_id.0),
            old(self).resident(page_id.0) ==> old(self).pin_of(page_id.0) < usize::MAX,
        ensures
            final(self).wf(),
            final(self).same_config(old(self)),
            final(self).start_index == old(self).start_index,
            forall|j: int|
                0 <= j < old(self).instances@.len() && j != old(self).inst_of(page_id.0)
                    ==> final(self).instances@[j] == old(self).instances@[j],
            forall|q: u32| final(self).issued(q) == old(self).issued(q),
            match r {
                None => Self::fetch_failed(old(self), final(self), page_id.0),
                Some(data) => Self::fetch_succeeded(old(self), final(self), page_id.0, data@),
            },
    {
        let k = self.get_instance(page_id);
        let r = self.instances[k].fetch_page(&mut self.disk_manager, page_id);
        proof {
            Self::lemma_one_instance_changed(old(self), final(self), k as int);
            let pre = old(self).instances@[k as int];
            let post = self.instances@[k as int];
            if r is Some && self.disk() != old(self).disk() {
                let x = choose|x: u32|
                    pre.resident(x) && !post.resident(x) && pre.dirty_of(x)
                        && self.disk_manager.disk()
                        == old(self).disk_manager.disk().insert(x, pre.content_of(x));
                assert(x % (old(self).num_instances as u32) == k as u32);
                assert(old(self).resident(x) && !self.resident(x) && old(self).dirty_of(x)
                    && self.disk() == old(self).disk().insert(x, old(self).content_of(x)));
            }
        }
        r
    }

    /// What a failed fetch leaves behind: nothing changed, the page was
    /// not resident and its instance had every frame pinned.
    pub open spec fn fetch_failed(o: &Self, n: &Self, pid: u32) -> bool {
        &&& forall|q: u32| Self::page_untouched(o, n, q)
        &&& n.disk() == o.disk()
        &&& !o.resident(pid)
        &&& !o.instances@[o.inst_of(pid)].can_alloc_frame()
    }

    /// What a successful fetch of `pid` returning payload `data` effects.
    pub open spec fn fetch_succeeded(o: &Self, n: &Self, pid: u32, data: Seq<u8>) -> bool {
        &&& n.resident(pid)
        &&& data == n.content_of(pid)
        &&& data.len() == PAGE_SIZE
        &&& forall|q: u32| q != pid && n.resident(q) ==> o.resident(q)
        &&& forall|q: u32|
            q != pid && o.resident(q) && n.resident(q) ==> Self::page_state_preserved(o, n, q)
        &&& forall|q: u32| o.resident(q) && o.pin_of(q) > 0 ==> n.resident(q)
        &&& if o.resident(pid) {
            &&& n.disk() == o.disk()
            &&& n.content_of(pid) == o.content_of(pid)
            &&& n.pin_of(pid) == o.pin_of(pid) + 1
            &&& n.dirty_of(pid) == o.dirty_of(pid)
            &&& forall|q: u32| o.resident(q) ==> n.resident(q)
        } else {
            &&& n.pin_of(pid) == 1
            &&& !n.dirty_of(pid)
            &&& o.disk().contains_key(pid) ==> data == o.disk()[pid]
            &&& (n.disk() == o.disk() || exists|q: u32|
                o.resident(q) && !n.resident(q) && o.dirty_of(q) && n.disk() == o.disk().insert(
                    q,
                    o.content_of(q),
                ))
            &&& forall|q1: u32, q2: u32|
                o.resident(q1) && !n.resident(q1) && o.resident(q2) && !n.resident(q2) ==> q1
                    == q2
            &&& forall|q: u32|
                o.resident(q) && !n.resident(q) ==> o.pin_of(q) == 0 && (o.dirty_of(q)
                    ==> n.disk() == o.disk().insert(q, o.content_of(q))) && (!o.dirty_of(q)
                    ==> n.disk() == o.disk())
        }
    }

    /// Fetch a page and run `f` on its payload, pairing the fetch with
    /// the work done on the page.
    pub fn fetch_page_run<T, F: FnOnce(Vec<u8>) -> T>(&mut self, page_id: PageId, f: F) -> (r:
        Option<T>)
        requires
            old(self).wf(),
            old(self).resident(page_id.0) || old(self).issued(page_id.0),
            old(self).resident(page_id.0) ==> old(self).pin_of(page_id.0) < usize::MAX,
            forall|data: Vec<u8>| data@.len() == PAGE_SIZE ==> call_requires(f, (data,)),
        ensures
            final(self).wf(),
            final(self).same_config(old(self)),
            final(self).start_index == old(self).start_index,
            forall|j: int|
                0 <= j < old(self).instances@.len() && j != old(self).inst_of(page_id.0)
                    ==> final(self).instances@[j] == old(self).instances@[j],
            forall|q: u32| final(self).issued(q) == old(self).issued(q),
            match r {
                None => Self::fetch_failed(old(self), final(self), page_id.0),
                Some(t) => exists|data: Vec<u8>|
                    Self::fetch_succeeded(old(self), final(self), page_id.0, data@)
                        && call_ensures(f, (data,), t),
            },
    {
        match self.fetch_page(page_id) {
            Some(data) => {
                let ghost gdata = data;
                let t = f(data);
                proof {
                    assert(Self::fetch_succeeded(old(self), final(self), page_id.0, gdata@)
                        && call_ensures(f, (gdata,), t));
                }
                Some(t)
            },
            None => None,
        }
    }

    /// Release one borrow of a resident page; `dirty = false` never
    /// clears an already set dirty flag.
    pub fn unpin_page(&mut self, page_id: PageId, is_dirty: bool)
        requires
            old(self).wf(),
            old(self).resident(page_id.0),
            old(self).pin_of(page_id.0) > 0,
        ensures
            final(self).wf(),
            final(self).same_config(old(self)),
            final(self).start_index == old(self).start_index,
            final(self).disk() == old(self).disk(),
            forall|j: int|
                0 <= j < old(self).instances@.len() && j != old(self).inst_of(page_id.0)
                    ==> final(self).instances@[j] == old(self).instances@[j],
            forall|q: u32| final(self).issued(q) == old(self).issued(q),
            forall|q: u32| final(self).resident(q) == old(self).resident(q),
            final(self).pin_of(page_id.0) == (old(self).pin_of(page_id.0) - 1) as nat,
            final(self).content_of(page_id.0) == old(self).content_of(page_id.0),
            final(self).dirty_of(page_id.0) == (old(self).dirty_of(page_id.0) || is_dirty),
            old(self).pin_of(page_id.0) == 1 ==> final(self).instances@[old(self).inst_of(
                page_id.0,
            )].replacer.queue() == old(self).instances@[old(self).inst_of(
                page_id.0,
            )].replacer.queue().push(
                old(self).instances@[old(self).inst_of(page_id.0)].page_table@[page_id.0],
            ),
            old(self).pin_of(page_id.0) > 1 ==> final(self).instances@[old(self).inst_of(
                page_id.0,
            )].replacer.queue() == old(self).instances@[old(self).inst_of(
                page_id.0,
            )].replacer.queue(),
            forall|j: int|
                0 <= j < old(self).instances@.len() ==> (#[trigger] final(self).instances@[j]).next_page_id
                    == old(self).instances@[j].next_page_id && final(self).instances@[j].deleted_page_ids@
                    == old(self).instances@[j].deleted_page_ids@ && final(self).instances@[j].page_table
                    == old(self).instances@[j].page_table,
            forall|q: u32|
                q != page_id.0 && old(self).resident(q) ==> Self::page_state_preserved(
                    old(self),
                    final(self),
                    q,
                ),
    {
        let k = self.get_instance(page_id);
        self.instances[k].unpin_page(page_id, is_dirty);
        proof {
            Self::lemma_one_instance_changed(old(self), final(self), k as int);
        }
    }

    /// Write a resident page back to disk if it is dirty.
    pub fn flush_page(&mut self, page_id: PageId)
        requires
            old(self).wf(),
            old(self).resident(page_id.0),
        ensures
            final(self).wf(),
            final(self).same_config(old(self)),
            final(self).start_index == old(self).start_index,
            final(self).instances == old(self).instances,
            old(self).dirty_of(page_id.0) ==> final(self).disk() == old(self).disk().insert(
                page_id.0,
                old(self).content_of(page_id.0),
            ),
            !old(self).dirty_of(page_id.0) ==> final(self).disk() == old(self).disk(),
    {
        let k = self.get_instance(page_id);
        self.instances[k].flush_page(&mut self.disk_manager, page_id);
    }

    /// Overwrite the payload of a pinned resident page.
    pub fn write_page_data(&mut self, page_id: PageId, data: &Vec<u8>)
        requires
            old(self).wf(),
            old(self).resident(page_id.0),
            old(self).pin_of(page_id.0) > 0,
            data@.len() == PAGE_SIZE,
        ensures
            final(self).wf(),
            final(self).same_config(old(self)),
            final(self).start_index == old(self).start_index,
            final(self).disk() == old(self).disk(),
            forall|j: int|
                0 <= j < old(self).instances@.len() && j != old(self).inst_of(page_id.0)
                    ==> final(self).instances@[j] == old(self).instances@[j],
            forall|q: u32| final(self).issued(q) == old(self).issued(q),
            forall|q: u32| final(self).resident(q) == old(self).resident(q),
            final(self).content_of(page_id.0) == data@,
            final(self).pin_of(page_id.0) == old(self).pin_of(page_id.0),
            final(self).dirty_of(page_id.0) == old(self).dirty_of(page_id.0),
            forall|q: u32|
                q != page_id.0 && old(self).resident(q) ==> Self::page_state_preserved(
                    old(self),
                    final(self),
                    q,
                ),
    {
        let k = self.get_instance(page_id);
        self.instances[k].write_page_data(page_id, data);
        proof {
            Self::lemma_one_instance_changed(old(self), final(self), k as int);
        }
    }

    /// What a successful page creation effects: `np` is the fresh id.
    pub open spec fn new_page_succeeded(o: &Self, n: &Self, np: u32, data: Seq<u8>) -> bool {
        &&& !o.issued(np)
        &&& !o.resident(np)
        &&& n.issued(np)
        &&& forall|q: u32| o.issued(q) ==> n.issued(q)
        &&& forall|q: u32| n.issued(q) ==> o.issued(q) || q == np
        &&& n.resident(np)
        &&& n.pin_of(np) == 1
        &&& n.dirty_of(np)
        &&& n.content_of(np) == zero_page()
        &&& data == zero_page()
        &&& forall|q: u32| q != np && n.resident(q) ==> o.resident(q)
        &&& forall|q: u32|
            q != np && o.resident(q) && n.resident(q) ==> Self::page_state_preserved(o, n, q)
        &&& forall|q: u32| o.resident(q) && o.pin_of(q) > 0 ==> n.resident(q)
        &&& (n.disk() == o.disk() || exists|q: u32|
            o.resident(q) && !n.resident(q) && o.dirty_of(q) && n.disk() == o.disk().insert(
                q,
                o.content_of(q),
            ))
        &&& forall|q1: u32, q2: u32|
            o.resident(q1) && !n.resident(q1) && o.resident(q2) && !n.resident(q2) ==> q1 == q2
        &&& forall|q: u32|
            o.resident(q) && !n.resident(q) ==> o.pin_of(q) == 0 && (o.dirty_of(q) ==> n.disk()
                == o.disk().insert(q, o.content_of(q))) && (!o.dirty_of(q) ==> n.disk()
                == o.disk())
    }

    /// How a page allocation in instance `k` moves that instance's id
    /// stream: the freed-id stack is reused LIFO, else the watermark
    /// advances by one stride.
    pub open spec fn id_stream_advanced(o: &Self, n: &Self, k: int, np: u32) -> bool {
        &&& (o.instances@[k].deleted_page_ids@.len() > 0 ==> np
            == o.instances@[k].deleted_page_ids@.last() && n.instances@[k].deleted_page_ids@
            == o.instances@[k].deleted_page_ids@.drop_last() && n.instances@[k].next_page_id
            == o.instances@[k].next_page_id)
        &&& (o.instances@[k].deleted_page_ids@.len() == 0 ==> np
            == o.instances@[k].next_page_id && n.instances@[k].next_page_id
            == o.instances@[k].next_page_id + o.num_instances && n.instances@[k].deleted_page_ids@
            == o.instances@[k].deleted_page_ids@)
    }

    /// Allocate a zeroed, pinned, dirty page in the instance owning the
    /// current value of `page_id`, writing the fresh id through it.
    pub fn new_page(&mut self, page_id: &mut PageId) -> (r: Option<Vec<u8>>)
        requires
            old(self).wf(),
        ensures
            final(self).wf(),
            final(self).same_config(old(self)),
            final(self).start_index == old(self).start_index,
            forall|j: int|
                0 <= j < old(self).instances@.len() && j != old(self).inst_of(old(page_id).0)
                    ==> final(self).instances@[j] == old(self).instances@[j],
            match r {
                None => {
                    &&& forall|q: u32| Self::page_untouched(old(self), final(self), q)
                    &&& forall|q: u32| final(self).issued(q) == old(self).issued(q)
                    &&& final(self).disk() == old(self).disk()
                    &&& *final(page_id) == *old(page_id)
                    &&& !(old(self).instances@[old(self).inst_of(
                        old(page_id).0,
                    )].can_alloc_frame() && old(self).instances@[old(self).inst_of(
                        old(page_id).0,
                    )].can_alloc_page_id())
                },
                Some(data) => {
                    &&& Self::new_page_succeeded(old(self), final(self), final(page_id).0, data@)
                    &&& old(self).inst_of(final(page_id).0) == old(self).inst_of(old(page_id).0)
                    &&& Self::id_stream_advanced(
                        old(self),
                        final(self),
                        old(self).inst_of(final(page_id).0),
                        final(page_id).0,
                    )
                },
            },
    {
        let k = self.get_instance(*page_id);
        let r = self.instances[k].new_page(&mut self.disk_manager, page_id);
        proof {
            Self::lemma_one_instance_changed(old(self), final(self), k as int);
            if r is Some {
                let np = final(page_id).0;
                assert(final(self).instances@[k as int].issued(np));
                assert(np % (old(self).num_instances as u32) == k as u32);
                let pre = old(self).instances@[k as int];
                let post = self.instances@[k as int];
                if self.disk() != old(self).disk() {
                    let x = choose|x: u32|
                        pre.resident(x) && !post.resident(x) && pre.dirty_of(x)
                            && self.disk_manager.disk()
                            == old(self).disk_manager.disk().insert(x, pre.content_of(x));
                    assert(x % (old(self).num_instances as u32) == k as u32);
                    assert(old(self).resident(x) && !self.resident(x) && old(self).dirty_of(x)
                        && self.disk() == old(self).disk().insert(x, old(self).content_of(x)));
                }
            }
        }
        r
    }

    /// Return a resident, unpinned page's frame and id to its instance.
    pub fn delete_page(&mut self, page_id: PageId)
        requires
            old(self).wf(),
            old(self).resident(page_id.0) ==> old(self).pin_of(page_id.0) == 0,
        ensures
            final(self).wf(),
            final(self).same_config(old(self)),
            final(self).start_index == old(self).start_index,
            final(self).disk() == old(self).disk(),
            forall|j: int|
                0 <= j < old(self).instances@.len() && j != old(self).inst_of(page_id.0)
                    ==> final(self).instances@[j] == old(self).instances@[j],
            forall|q: u32|
                !old(self).resident(page_id.0) ==> #[trigger] Self::page_untouched(
                    old(self),
                    final(self),
                    q,
                ),
            forall|q: u32|
                !old(self).resident(page_id.0) ==> (#[trigger] final(self).issued(q)) == old(
                    self,
                ).issued(q),
            old(self).resident(page_id.0) ==> {
                &&& !final(self).resident(page_id.0)
                &&& !final(self).issued(page_id.0)
                &&& forall|q: u32|
                    q != page_id.0 ==> final(self).resident(q) == old(self).resident(q)
                &&& forall|q: u32|
                    q != page_id.0 && old(self).resident(q) ==> Self::page_state_preserved(
                        old(self),
                        final(self),
                        q,
                    )
                &&& forall|q: u32|
                    final(self).issued(q) <==> (old(self).issued(q) && q != page_id.0)
            },
    {
        let k = self.get_instance(page_id);
        self.instances[k].delete_page(page_id);
        proof {
            Self::lemma_one_instance_changed(old(self), final(self), k as int);
        }
    }

    /// Write every dirty resident page of every instance back to disk.
    pub fn flush_all_pages(&mut self)
        requires
            old(self).wf(),
        ensures
            final(self).wf(),
            final(self).same_config(old(self)),
            final(self).start_index == old(self).start_index,
            final(self).instances == old(self).instances,
            forall|p: u32|
                old(self).resident(p) && old(self).dirty_of(p) ==> final(self).disk().contains_key(
                    p,
                ) && final(self).disk()[p] == old(self).content_of(p),
            forall|p: u32| #[trigger]
                final(self).disk().contains_key(p) <==> (old(self).disk().contains_key(p) || (old(self).resident(p) && old(self).dirty_of(p))),
            forall|p: u32|
                old(self).disk().contains_key(p) && !(old(self).resident(p) && old(self).dirty_of(
                    p,
                )) ==> final(self).disk()[p] == old(self).disk()[p],
    {
        let mut k: usize = 0;
        while k < self.instances.len()
            invariant
                self.wf(),
                old(self).wf(),
                self.instances == old(self).instances,
                self.num_instances == old(self).num_instances,
                self.pool_size == old(self).pool_size,
                self.start_index == old(self).start_index,
                k <= self.instances@.len(),
                forall|p: u32|
                    #![trigger old(self).dirty_of(p)]
                    old(self).resident(p) && old(self).dirty_of(p) && old(self).inst_of(p) < k
                        ==> self.disk().contains_key(p) && self.disk()[p] == old(self).content_of(
                        p,
                    ),
                forall|p: u32| #[trigger]
                    self.disk().contains_key(p) <==> (old(self).disk().contains_key(p) || (old(self).resident(p) && old(self).dirty_of(p) && old(self).inst_of(p) < k)),
                forall|p: u32|
                    #![trigger old(self).disk()[p]]
                    old(self).disk().contains_key(p) && !(old(self).resident(p) && old(self).dirty_of(p) && old(self).inst_of(p) < k) ==> self.disk()[p] == old(self).disk()[p],
            decreases self.instances@.len() - k,
        {
            let ghost pre_disk = self.disk();
            self.instances[k].flush_all_pages(&mut self.disk_manager);
            proof {
                assert(self.disk() == self.disk_manager.disk());
            }
            proof {
                let o = *old(self);
                let inst = o.instances@[k as int];
                assert forall|p: u32| #[trigger]
                    inst.resident(p) implies p % (o.num_instances as u32) == k as u32
                    && o.inst_of(p) == k && o.resident(p) == inst.resident(p) && (o.resident(p)
                    ==> o.dirty_of(p) == inst.dirty_of(p) && o.content_of(p) == inst.content_of(
                    p,
                )) by {}
                assert forall|p: u32|
                    o.resident(p) && o.dirty_of(p) && o.inst_of(p) < k + 1
                    implies self.disk().contains_key(p) && self.disk()[p] == o.content_of(p) by {
                    if o.inst_of(p) == k {
                        assert(inst.resident(p) && inst.dirty_of(p));
                        assert(self.disk().contains_key(p) && self.disk()[p] == inst.content_of(
                            p,
                        ));
                    } else {
                        assert(pre_disk.contains_key(p) && pre_disk[p] == o.content_of(p));
                        if inst.resident(p) && inst.dirty_of(p) {
                            assert(false);
                        }
                    }
                }
                assert forall|p: u32| #[trigger]
                    self.disk().contains_key(p) implies (o.disk().contains_key(p) || (o.resident(
                    p,
                ) && o.dirty_of(p) && o.inst_of(p) < k + 1)) by {
                    if !pre_disk.contains_key(p) {
                        assert(inst.resident(p) && inst.dirty_of(p));
                    }
                }
                assert forall|p: u32|
                    (o.disk().contains_key(p) || (o.resident(p) && o.dirty_of(p) && o.inst_of(p)
                        < k + 1)) implies self.disk().contains_key(p) by {
                    if o.disk().contains_key(p) {
                        assert(pre_disk.contains_key(p));
                    } else if o.inst_of(p) == k {
                        assert(inst.resident(p) && inst.dirty_of(p));
                    } else {
                        assert(pre_disk.contains_key(p));
                    }
                }
                assert forall|p: u32|
                    o.disk().contains_key(p) && !(o.resident(p) && o.dirty_of(p) && o.inst_of(p)
                        < k + 1) implies self.disk()[p] == o.disk()[p] by {
                    assert(old(self).disk().contains_key(p));
                    assert(!(old(self).resident(p) && old(self).dirty_of(p) && old(self).inst_of(
                        p,
                    ) < k));
                    assert(pre_disk.contains_key(p));
                    assert(pre_disk[p] == old(self).disk()[p]);
                    assert(o.disk()[p] == old(self).disk()[p]);
                    assert(pre_disk[p] == o.disk()[p]);
                    if inst.resident(p) && inst.dirty_of(p) {
                        assert(false);
                    }
                }
            }
            k += 1;
        }
    }

    /// Neither a frame nor a page id can be had from instance `j` of `o`.
    pub open spec fn cannot_alloc(o: &Self, j: int) -> bool {
        !(o.instances@[j].can_alloc_frame() && o.instances@[j].can_alloc_page_id())
    }

    /// Allocate a page from whichever instance can, scanning them in a
    /// rotation that starts at `start_index`; on success the rotation is
    /// advanced to the successful instance. Absent only when no instance
    /// can allocate.
    pub fn new_page_run(&mut self, page_id: &mut PageId) -> (r: Option<Vec<u8>>)
        requires
            old(self).wf(),
        ensures
            final(self).wf(),
            final(self).same_config(old(self)),
            match r {
                None => {
                    &&& forall|q: u32| Self::page_untouched(old(self), final(self), q)
                    &&& forall|q: u32| final(self).issued(q) == old(self).issued(q)
                    &&& final(self).disk() == old(self).disk()
                    &&& *final(page_id) == *old(page_id)
                    &&& forall|j: int|
                        0 <= j < old(self).instances@.len() ==> (
                        #[trigger] final(self).instances@[j]).obs_eq(&old(self).instances@[j])
                    &&& forall|j: int|
                        0 <= j < old(self).instances@.len() ==> !((
                        #[trigger] old(self).instances@[j]).can_alloc_frame()
                            && old(self).instances@[j].can_alloc_page_id())
                },
                Some(data) => {
                    &&& Self::new_page_succeeded(old(self), final(self), final(page_id).0, data@)
                    &&& final(self).start_index as int == old(self).inst_of(final(page_id).0)
                    &&& forall|j: int|
                        0 <= j < old(self).instances@.len() && j != old(self).inst_of(
                            final(page_id).0,
                        ) ==> (#[trigger] final(self).instances@[j]).obs_eq(
                            &old(self).instances@[j],
                        )
                    &&& Self::id_stream_advanced(
                        old(self),
                        final(self),
                        old(self).inst_of(final(page_id).0),
                        final(page_id).0,
                    )
                },
            },
    {
        let n = self.num_instances;
        let start = self.start_index;
        let mut off: usize = 0;
        while off < n
            invariant
                self.wf(),
                old(self).wf(),
                start < n,
                n == self.num_instances,
                self.same_config(old(self)),
                off <= n,
                self.instances@.len() == old(self).instances@.len(),
                forall|j: int|
                    0 <= j < self.instances@.len() ==> (#[trigger] self.instances@[j]).obs_eq(
                        &old(self).instances@[j],
                    ),
                self.start_index == old(self).start_index,
                self.disk() == old(self).disk(),
                *page_id == *old(page_id),
                forall|m: int|
                    0 <= m < off ==> #[trigger] Self::cannot_alloc(
                        old(self),
                        rotation_index(start as int, m, n as int),
                    ),
            decreases n - off,
        {
            let k = if off >= n - start {
                off - (n - start)
            } else {
                start + off
            };
            let ghost pre = *self;
            let r = self.instances[k].new_page(&mut self.disk_manager, page_id);
            if let Some(data) = r {
                self.start_index = k;
                proof {
                    let o = *old(self);
                    let f = *final(self);
                    let np = final(page_id).0;
                    assert forall|q: u32| o.inst_of(q) != k implies Self::page_untouched(&o, &f, q)
                        && f.issued(q) == o.issued(q) by {
                        assert(f.instances@[o.inst_of(q)].obs_eq(&o.instances@[o.inst_of(q)]));
                    }
                    assert(f.instances@[k as int].issued(np));
                    assert(np % (o.num_instances as u32) == k as u32);
                    assert(o.inst_of(np) == k);
                    let po = pre.instances@[k as int];
                    let fo = f.instances@[k as int];
                    assert(po.obs_eq(&o.instances@[k as int]));
                    assert forall|q: u32| o.inst_of(q) == k implies o.resident(q)
                        == po.resident(q) && o.issued(q) == po.issued(q) && (o.resident(q)
                        ==> o.content_of(q) == po.content_of(q) && o.pin_of(q) == po.pin_of(q)
                        && o.dirty_of(q) == po.dirty_of(q)) by {}
                    assert(Self::new_page_succeeded(&o, &f, np, data@)) by {
                        if f.disk() != o.disk() {
                            let x = choose|x: u32|
                                po.resident(x) && !fo.resident(x) && po.dirty_of(x) && f.disk_manager.disk()
                                    == pre.disk_manager.disk().insert(x, po.content_of(x));
                            assert(x % (o.num_instances as u32) == k as u32);
                            assert(o.resident(x) && !f.resident(x) && o.dirty_of(x) && f.disk()
                                == o.disk().insert(x, o.content_of(x)));
                        }
                        assert forall|q: u32| o.issued(q) implies f.issued(q) by {
                            if o.inst_of(q) == k {
                                assert(po.issued(q));
                            }
                        }
                        assert forall|q: u32| f.issued(q) implies o.issued(q) || q == np by {
                            if o.inst_of(q) == k {
                                assert(fo.issued(q));
                            }
                        }
                        assert forall|q: u32|
                            q != np && f.resident(q) implies o.resident(q) by {
                            if o.inst_of(q) == k {
                                assert(fo.resident(q));
                                assert(po.resident(q));
                            }
                        }
                        assert forall|q: u32|
                            q != np && o.resident(q) && f.resident(q)
                            implies Self::page_state_preserved(&o, &f, q) by {
                            if o.inst_of(q) == k {
                                assert(po.resident(q) && fo.resident(q));
                            }
                        }
                        assert forall|q: u32|
                            o.resident(q) && o.pin_of(q) > 0 implies f.resident(q) by {
                            if o.inst_of(q) == k {
                                assert(po.resident(q) && po.pin_of(q) > 0);
                            }
                        }
                        assert forall|q1: u32, q2: u32|
                            o.resident(q1) && !f.resident(q1) && o.resident(q2) && !f.resident(
                                q2,
                            ) implies q1 == q2 by {
                            assert(o.inst_of(q1) == k && o.inst_of(q2) == k);
                            assert(po.resident(q1) && !fo.resident(q1));
                            assert(po.resident(q2) && !fo.resident(q2));
                        }
                        assert forall|q: u32|
                            o.resident(q) && !f.resident(q) implies o.pin_of(q) == 0 && (
                        o.dirty_of(q) ==> f.disk() == o.disk().insert(q, o.content_of(q))) && (
                        !o.dirty_of(q) ==> f.disk() == o.disk()) by {
                            assert(o.inst_of(q) == k);
                            assert(po.resident(q) && !fo.resident(q));
                        }
                    }
                }
                return Some(data);
            }
            proof {
                assert(Self::cannot_alloc(old(self), k as int)) by {
                    assert(pre.instances@[k as int].obs_eq(&old(self).instances@[k as int]));
                }
                assert forall|m: int|
                    0 <= m < off + 1 implies #[trigger] Self::cannot_alloc(
                    old(self),
                    rotation_index(start as int, m, n as int),
                ) by {
                    if m == off {
                        assert(rotation_index(start as int, m, n as int) == k as int);
                    }
                }
            }
            off += 1;
        }
        proof {
            assert forall|j: int|
                0 <= j < old(self).instances@.len() implies !((
            #[trigger] old(self).instances@[j]).can_alloc_frame() && old(self).instances@[j].can_alloc_page_id()) by {
                let m = if j >= start {
                    j - start
                } else {
                    j + n - start
                };
                assert(0 <= m < n);
                if start + m < n {
                    assert(j == start + m);
                } else {
                    assert(j == start + m - n);
                }
                assert(Self::cannot_alloc(old(self), rotation_index(start as int, m, n as int)));
            }
            assert forall|q: u32|
                Self::page_untouched(old(self), final(self), q) && final(self).issued(q) == old(self).issued(q) by {
                let j = old(self).inst_of(q);
                assert(final(self).instances@[j].obs_eq(&old(self).instances@[j]));
            }
        }
        None
    }

    /// Other instances, and every page they hold, are untouched when only
    /// instance `k` changed; and pages of instance `k` keep their owner.
    proof fn lemma_one_instance_changed(o: &Self, n: &Self, k: int)
        requires
            o.wf(),
            0 <= k < o.instances@.len(),
            n.num_instances == o.num_instances,
            n.instances@.len() == o.instances@.len(),
            forall|j: int|
                0 <= j < o.instances@.len() && j != k ==> n.instances@[j] == o.instances@[j],
        ensures
            forall|q: u32| o.inst_of(q) != k ==> Self::page_untouched(o, n, q),
            forall|q: u32| o.inst_of(q) == n.inst_of(q),
    {
    }
}

} // verus!
