//! The extendible hash table: a directory page and bucket pages living
//! in the parallel buffer pool, with splits and directory doubling.

use vstd::prelude::*;

use crate::bucket_page::{
    has_empty, has_kv, parse_bucket_slots, values_of, HashTableBucketPage, InertResult, KV_NUM,
};
use crate::buffer_pool::{BufferPoolManager, ParallelBufferPoolManager};
use crate::directory_page::{
    parse_dir_global_depth, parse_dir_local_depth, parse_dir_page_id, parse_dir_page_ids,
    HashTableDirectoryPage, DIRECTORY_ARRAY_SIZE, MAX_GLOBAL_DEPTH,
};
use crate::disk::{DiskManager, PAGE_SIZE};
use crate::replacer::{PageId, Replacer};
use vstd::arithmetic::power2::pow2;

verus! {

/// Builds the hash of a key; the table uses only its low bits.
pub trait HasherBuilder: Sized {
    /// The hash as a mathematical function of the key.
    spec fn hash_spec(&self, key: u64) -> u64;

    fn hash_key(&self, key: u64) -> (r: u64)
        ensures
            r == self.hash_spec(key),
    ;
}

/// A hasher that uses the key itself: adjacent keys land in adjacent
/// directory slots.
pub struct IdentityHasher;

impl HasherBuilder for IdentityHasher {
    open spec fn hash_spec(&self, key: u64) -> u64 {
        key
    }

    fn hash_key(&self, key: u64) -> (r: u64) {
        key
    }
}

/// The extendible hash table. It owns the pool its pages live in.
pub struct ExtendibleHashTable<R: Replacer, D: DiskManager, H: HasherBuilder> {
    pub dir_page_id: PageId,
    pub bpm: ParallelBufferPoolManager<R, D>,
    pub hash_fn: H,
}

impl<R: Replacer, D: DiskManager, H: HasherBuilder> ExtendibleHashTable<R, D, H> {
    // ------------------------------------------------------------------
    // The abstract state.
    // ------------------------------------------------------------------
    /// The current byte image of a page: its cached payload, or its disk
    /// image while not cached.
    pub open spec fn image(&self, pid: u32) -> Seq<u8> {
        if self.bpm.resident(pid) {
            self.bpm.content_of(pid)
        } else {
            self.bpm.disk()[pid]
        }
    }

    /// The pool holds this page and its image survives eviction: a
    /// cached clean copy always matches the disk.
    pub open spec fn page_held(&self, pid: u32) -> bool {
        &&& self.bpm.issued(pid)
        &&& self.bpm.resident(pid) || self.bpm.disk().contains_key(pid)
        &&& (self.bpm.resident(pid) && !self.bpm.dirty_of(pid) ==> self.bpm.disk().contains_key(
            pid,
        ) && self.bpm.content_of(pid) == self.bpm.disk()[pid])
        &&& self.image(pid).len() == PAGE_SIZE
    }

    pub open spec fn gd(&self) -> u32 {
        parse_dir_global_depth(self.image(self.dir_page_id.0))
    }

    pub open spec fn dir_lds(&self) -> Seq<u8> {
        parse_dir_local_depth(self.image(self.dir_page_id.0))
    }

    pub open spec fn dir_pids(&self) -> Seq<PageId> {
        parse_dir_page_ids(self.image(self.dir_page_id.0))
    }

    /// Number of active directory slots.
    pub open spec fn num_slots(&self) -> int {
        pow2(self.gd() as nat) as int
    }

    /// The directory slot a key addresses.
    pub open spec fn index_of_key(&self, key: u64) -> int {
        (self.hash_fn.hash_spec(key) % (pow2(self.gd() as nat) as u64)) as int
    }

    /// The bucket page a key addresses.
    pub open spec fn bucket_pid_of(&self, key: u64) -> u32 {
        self.dir_pids()[self.index_of_key(key)].0
    }

    /// The slots of the bucket a key addresses.
    pub open spec fn bucket_slots_of(&self, key: u64) -> Seq<Option<(u64, u64)>> {
        parse_bucket_slots(self.image(self.bucket_pid_of(key)))
    }

    /// The values stored under a key, in that key's bucket.
    pub open spec fn lookup(&self, key: u64) -> Seq<u64> {
        values_of(self.bucket_slots_of(key), key)
    }

    /// Whether the pair is stored.
    pub open spec fn contains_kv(&self, key: u64, value: u64) -> bool {
        has_kv(self.bucket_slots_of(key), key, value)
    }

    /// The directory depth invariants: the global depth fits the fixed
    /// directory, and every local depth is bounded by the global depth.
    pub open spec fn dir_ok(gd: u32, lds: Seq<u8>, pids: Seq<PageId>) -> bool {
        &&& gd <= MAX_GLOBAL_DEPTH
        &&& forall|i: int| 0 <= i < pow2(gd as nat) ==> (#[trigger] lds[i]) <= gd
    }

    /// The sibling invariants of the directory: slots that agree on the
    /// low `local_depth` bits share one bucket page and one local depth,
    /// and a bucket page is shared only between such sibling slots.
    pub open spec fn dir_siblings_ok(gd: u32, lds: Seq<u8>, pids: Seq<PageId>) -> bool {
        &&& forall|i: int, j: int|
            #![trigger pids[i], pids[j]]
            0 <= i < pow2(gd as nat) && 0 <= j < pow2(gd as nat) && i % (pow2(lds[i] as nat) as int)
                == j % (pow2(lds[i] as nat) as int) ==> pids[j] == pids[i] && lds[j] == lds[i]
        &&& forall|i: int, j: int|
            #![trigger pids[i], pids[j]]
            0 <= i < pow2(gd as nat) && 0 <= j < pow2(gd as nat) && pids[i] == pids[j] ==> i % (
            pow2(lds[i] as nat) as int) == j % (pow2(lds[i] as nat) as int)
    }

    /// The table invariant between operations: the pool is well formed
    /// and holds no pins, the directory parses and satisfies the depth
    /// and sibling invariants, and every active bucket page is held.
    pub open spec fn wf(&self) -> bool {
        &&& self.bpm.wf()
        &&& self.bpm.pool_size >= 3
        &&& forall|p: u32| self.bpm.resident(p) ==> self.bpm.pin_of(p) == 0
        &&& self.page_held(self.dir_page_id.0)
        &&& Self::dir_ok(self.gd(), self.dir_lds(), self.dir_pids())
        &&& Self::dir_siblings_ok(self.gd(), self.dir_lds(), self.dir_pids())
        &&& forall|i: int|
            0 <= i < self.num_slots() ==> self.page_held((#[trigger] self.dir_pids()[i]).0)
                && self.dir_pids()[i].0 != self.dir_page_id.0
    }

    /// The directory and every active bucket image are the same in `o`
    /// and `n`: the stored table is unchanged.
    pub open spec fn table_unchanged(o: &Self, n: &Self) -> bool {
        &&& n.dir_page_id == o.dir_page_id
        &&& n.image(o.dir_page_id.0) == o.image(o.dir_page_id.0)
        &&& forall|i: int|
            0 <= i < o.num_slots() ==> n.image((#[trigger] o.dir_pids()[i]).0) == o.image(
                o.dir_pids()[i].0,
            )
    }

    /// The hash of a key; only its low `global_depth` bits address the
    /// directory.
    pub fn hash(&self, key: u64) -> (r: u64)
        ensures
            r == self.hash_fn.hash_spec(key),
    {
        self.hash_fn.hash_key(key)
    }

    // ------------------------------------------------------------------
    // Construction.
    // ------------------------------------------------------------------
    /// Build an empty table on the given pool: one directory page and
    /// one bucket page. Absent if the pool cannot provide two pages.
    pub fn new(bpm: ParallelBufferPoolManager<R, D>, hash_fn: H) -> (r: Option<Self>)
        requires
            bpm.wf(),
            bpm.pool_size >= 3,
            forall|p: u32| bpm.resident(p) ==> bpm.pin_of(p) == 0,
        ensures
            r is Some ==> {
                &&& r.unwrap().wf()
                &&& forall|key: u64| (#[trigger] r.unwrap().lookup(key)) == Seq::<u64>::empty()
                &&& r.unwrap().gd() == 0
                &&& r.unwrap().dir_lds()[0] == 0
                &&& parse_dir_page_id(r.unwrap().image(r.unwrap().dir_page_id.0)) == r.unwrap().dir_page_id
                &&& forall|i: int|
                    0 <= i < KV_NUM ==> (#[trigger] parse_bucket_slots(
                        r.unwrap().image(r.unwrap().dir_pids()[0].0),
                    )[i]) is None
            },
            (forall|j: int|
                0 <= j < bpm.instances@.len() ==> (#[trigger] bpm.instances@[j]).deleted_page_ids@.len()
                    == 0 && bpm.instances@[j].next_page_id + 2 * (bpm.num_instances as int)
                    <= u32::MAX) ==> r is Some,
    {
        let mut bpm = bpm;
        let ghost s0 = bpm;
        let mut dir_page_id = PageId(0);
        let dir_data = match bpm.new_page_run(&mut dir_page_id) {
            Some(d) => d,
            None => {
                proof {
                    if forall|j: int|
                        0 <= j < s0.instances@.len() ==> (
                        #[trigger] s0.instances@[j]).deleted_page_ids@.len() == 0
                            && s0.instances@[j].next_page_id + 2 * (s0.num_instances as int)
                            <= u32::MAX {
                        let inst = s0.instances@[0];
                        assert(inst.can_alloc_page_id());
                        assert(!inst.can_alloc_frame());
                        inst.lemma_pinned_beyond(0, 0);
                        let p = choose|p: u32| inst.resident(p) && inst.pin_of(p) > 0;
                        assert(s0.resident(p) && s0.pin_of(p) > 0) by {
                            assert(p % (s0.num_instances as u32) == 0);
                        }
                        assert(false);
                    }
                }
                return None;
            },
        };
        let ghost s1 = bpm;
        let mut bucket_page_id = PageId(0);
        let bucket_data = match bpm.new_page_run(&mut bucket_page_id) {
            Some(d) => d,
            None => {
                proof {
                    assert(ParallelBufferPoolManager::<R, D>::page_untouched(
                        &s1,
                        &bpm,
                        dir_page_id.0,
                    ));
                    if forall|j: int|
                        0 <= j < s0.instances@.len() ==> (
                        #[trigger] s0.instances@[j]).deleted_page_ids@.len() == 0
                            && s0.instances@[j].next_page_id + 2 * (s0.num_instances as int)
                            <= u32::MAX {
                        let k1 = s0.inst_of(dir_page_id.0);
                        let inst = s1.instances@[0];
                        assert(inst.can_alloc_page_id()) by {
                            if 0 == k1 {
                                assert(ParallelBufferPoolManager::<R, D>::id_stream_advanced(
                                    &s0,
                                    &s1,
                                    k1,
                                    dir_page_id.0,
                                ));
                                assert(inst.deleted_page_ids@.len() == 0);
                                assert(inst.next_page_id == s0.instances@[0].next_page_id
                                    + s0.num_instances);
                            } else {
                                assert(inst.obs_eq(&s0.instances@[0]));
                            }
                        }
                        assert(!inst.can_alloc_frame());
                        inst.lemma_pinned_beyond(dir_page_id.0, dir_page_id.0);
                        let p = choose|p: u32|
                            inst.resident(p) && inst.pin_of(p) > 0 && p != dir_page_id.0;
                        assert(s1.resident(p) && s1.pin_of(p) > 0) by {
                            assert(p % (s1.num_instances as u32) == 0);
                        }
                        assert(s0.resident(p) && s0.pin_of(p) == 0);
                        assert(false);
                    }
                }
                bpm.unpin_page(dir_page_id, false);
                return None;
            },
        };
        let mut dir = HashTableDirectoryPage::new();
        dir.set_page_id(dir_page_id);
        dir.set_bucket_page_id(0, bucket_page_id);
        dir.set_local_depth(0, 0);
        let dir_bytes = dir.serialize();
        bpm.write_page_data(dir_page_id, &dir_bytes);
        bpm.unpin_page(dir_page_id, true);
        bpm.unpin_page(bucket_page_id, false);
        let r = ExtendibleHashTable { dir_page_id, bpm, hash_fn };
        proof {
            vstd::arithmetic::power2::lemma2_to64();
            assert(r.image(dir_page_id.0) == dir_bytes@);
            assert(r.gd() == 0);
            assert(r.num_slots() == 1);
            assert(r.dir_lds()[0] == 0);
            assert(r.dir_pids()[0] == bucket_page_id);
            assert(Self::dir_ok(r.gd(), r.dir_lds(), r.dir_pids())) by {
                assert(forall|i: int| 0 <= i < 1 ==> (#[trigger] r.dir_lds()[i]) == 0);
            }
            assert(r.image(bucket_page_id.0) == crate::page::zero_page());
            assert forall|key: u64| (#[trigger] r.lookup(key)) == Seq::<u64>::empty() by {
                assert(r.index_of_key(key) == 0);
                assert(r.bucket_pid_of(key) == bucket_page_id.0);
                let slots = r.bucket_slots_of(key);
                assert forall|i: int| 0 <= i < slots.len() implies slots[i] is None by {
                    let b = crate::page::zero_page();
                    assert(crate::bucket_page::parse_bucket_readable(b)[i / 8] == 0);
                    let k = (i % 8) as u8;
                    assert(0u8 & (1u8 << k) == 0) by (bit_vector);
                }
                lemma_values_of_all_none(slots, key);
            }
            assert(parse_dir_page_id(r.image(r.dir_page_id.0)) == r.dir_page_id);
            assert forall|i: int|
                0 <= i < KV_NUM implies (#[trigger] parse_bucket_slots(
                r.image(r.dir_pids()[0].0),
            )[i]) is None by {
                let b = crate::page::zero_page();
                assert(r.image(r.dir_pids()[0].0) == b);
                assert(crate::bucket_page::parse_bucket_readable(b)[i / 8] == 0);
                let k = (i % 8) as u8;
                assert(0u8 & (1u8 << k) == 0) by (bit_vector);
            }
        }
        Some(r)
    }
}

impl<R: Replacer, D: DiskManager, H: HasherBuilder> ExtendibleHashTable<R, D, H> {
    /// A fetch preserves the holding and the image of every held page,
    /// and returns the image of the fetched one.
    proof fn lemma_fetch_preserves(o: &Self, n: &Self, pid: u32, data: Seq<u8>, q: u32)
        requires
            o.bpm.wf(),
            o.page_held(q),
            n.dir_page_id == o.dir_page_id,
            ParallelBufferPoolManager::<R, D>::fetch_succeeded(&o.bpm, &n.bpm, pid, data),
            forall|x: u32| n.bpm.issued(x) == o.bpm.issued(x),
            o.page_held(pid),
        ensures
            n.page_held(q),
            n.image(q) == o.image(q),
            data == o.image(pid),
    {
        let ob = &o.bpm;
        let nb = &n.bpm;
        if q == pid {
            if ob.resident(pid) {
                assert(nb.content_of(pid) == ob.content_of(pid));
                assert(nb.disk() == ob.disk());
            } else {
                assert(ob.disk().contains_key(pid));
                assert(data == ob.disk()[pid]);
                assert(nb.content_of(pid) == data);
                assert forall|x: u32| ob.resident(x) && !nb.resident(x) implies x != pid by {}
                if nb.disk() != ob.disk() {
                    assert(exists|x: u32|
                        ob.resident(x) && !nb.resident(x) && ob.dirty_of(x) && nb.disk()
                            == ob.disk().insert(x, ob.content_of(x))) by {
                        if forall|x: u32|
                            ob.resident(x) && !nb.resident(x) ==> !(#[trigger] ob.dirty_of(x))
                                || nb.disk() != ob.disk().insert(x, ob.content_of(x)) {
                            assert(nb.disk() == ob.disk());
                        }
                    }
                }
                assert(nb.disk().contains_key(pid) && nb.disk()[pid] == ob.disk()[pid]);
            }
        } else {
            if ob.resident(q) && nb.resident(q) {
                assert(nb.content_of(q) == ob.content_of(q) && nb.pin_of(q) == ob.pin_of(q)
                    && nb.dirty_of(q) == ob.dirty_of(q));
                if nb.disk() != ob.disk() {
                    let x = choose|x: u32|
                        ob.resident(x) && !nb.resident(x) && ob.dirty_of(x) && nb.disk()
                            == ob.disk().insert(x, ob.content_of(x));
                    assert(x != q);
                }
            } else if ob.resident(q) && !nb.resident(q) {
                assert(ob.pin_of(q) == 0);
                if ob.dirty_of(q) {
                    assert(nb.disk() == ob.disk().insert(q, ob.content_of(q)));
                } else {
                    assert(nb.disk() == ob.disk());
                    assert(ob.disk().contains_key(q) && ob.content_of(q) == ob.disk()[q]);
                }
            } else {
                assert(!ob.resident(q));
                assert(!nb.resident(q));
                assert(ob.disk().contains_key(q));
                if nb.disk() != ob.disk() {
                    let x = choose|x: u32|
                        ob.resident(x) && !nb.resident(x) && ob.dirty_of(x) && nb.disk()
                            == ob.disk().insert(x, ob.content_of(x));
                    assert(x != q);
                }
            }
        }
    }

    /// A fresh page allocation preserves the holding and the image of
    /// every held page.
    proof fn lemma_new_preserves(o: &Self, n: &Self, np: u32, data: Seq<u8>, q: u32)
        requires
            o.bpm.wf(),
            o.page_held(q),
            n.dir_page_id == o.dir_page_id,
            ParallelBufferPoolManager::<R, D>::new_page_succeeded(&o.bpm, &n.bpm, np, data),
        ensures
            n.page_held(q),
            n.image(q) == o.image(q),
            q != np,
    {
        assert(o.bpm.issued(q));
        assert(!o.bpm.issued(np));
        if o.bpm.resident(q) && !n.bpm.resident(q) {
            assert(o.bpm.pin_of(q) == 0);
        }
    }

    /// Fetch and pin one held page, returning a copy of its image. With
    /// at most two pages pinned in a pool of three or more frames per
    /// instance, the fetch cannot fail.
    fn pid_to_page_data(&mut self, page_id: PageId, pins: Ghost<(u32, u32)>) -> (r: Vec<u8>)
        requires
            old(self).bpm.wf(),
            old(self).bpm.pool_size >= 3,
            old(self).page_held(page_id.0),
            forall|p: u32|
                old(self).bpm.resident(p) && old(self).bpm.pin_of(p) > 0 ==> p == pins@.0 || p
                    == pins@.1,
            forall|p: u32| old(self).bpm.resident(p) ==> old(self).bpm.pin_of(p) <= 2,
        ensures
            final(self).dir_page_id == old(self).dir_page_id,
            final(self).hash_fn == old(self).hash_fn,
            final(self).bpm.wf(),
            final(self).bpm.pool_size == old(self).bpm.pool_size,
            final(self).bpm.num_instances == old(self).bpm.num_instances,
            forall|q: u32| final(self).bpm.issued(q) == old(self).bpm.issued(q),
            ParallelBufferPoolManager::<R, D>::fetch_succeeded(
                &old(self).bpm,
                &final(self).bpm,
                page_id.0,
                r@,
            ),
            r@ == old(self).image(page_id.0),
    {
        let r = match self.bpm.fetch_page(page_id) {
            Some(d) => d,
            None => {
                proof {
                    let k = old(self).bpm.inst_of(page_id.0);
                    let inst = old(self).bpm.instances@[k];
                    inst.lemma_pinned_beyond(pins@.0, pins@.1);
                    let p = choose|p: u32|
                        inst.resident(p) && inst.pin_of(p) > 0 && p != pins@.0 && p != pins@.1;
                    assert(p % (old(self).bpm.num_instances as u32) == k as u32);
                    assert(old(self).bpm.resident(p) && old(self).bpm.pin_of(p) > 0);
                    assert(false);
                }
                vstd::pervasive::unreached()
            },
        };
        proof {
            Self::lemma_fetch_preserves(old(self), final(self), page_id.0, r@, page_id.0);
        }
        r
    }

    /// What `o` needs so that operations run: the pieces of `wf` that do
    /// not mention pins.
    pub open spec fn pages_ok(&self) -> bool {
        &&& self.bpm.wf()
        &&& self.bpm.pool_size >= 3
        &&& self.page_held(self.dir_page_id.0)
        &&& Self::dir_ok(self.gd(), self.dir_lds(), self.dir_pids())
        &&& forall|i: int|
            0 <= i < self.num_slots() ==> self.page_held((#[trigger] self.dir_pids()[i]).0)
                && self.dir_pids()[i].0 != self.dir_page_id.0
    }

    /// A fetch of a held page preserves the directory, every active
    /// bucket, and the structural facts of the table.
    proof fn lemma_fetch_preserves_all(o: &Self, n: &Self, pid: u32, data: Seq<u8>)
        requires
            o.pages_ok(),
            o.page_held(pid),
            n.dir_page_id == o.dir_page_id,
            n.hash_fn == o.hash_fn,
            n.bpm.pool_size == o.bpm.pool_size,
            n.bpm.wf(),
            ParallelBufferPoolManager::<R, D>::fetch_succeeded(&o.bpm, &n.bpm, pid, data),
            forall|x: u32| n.bpm.issued(x) == o.bpm.issued(x),
        ensures
            n.pages_ok(),
            n.image(o.dir_page_id.0) == o.image(o.dir_page_id.0),
            n.gd() == o.gd(),
            n.dir_lds() == o.dir_lds(),
            n.dir_pids() == o.dir_pids(),
            n.num_slots() == o.num_slots(),
            forall|i: int|
                0 <= i < o.num_slots() ==> n.image((#[trigger] o.dir_pids()[i]).0) == o.image(
                    o.dir_pids()[i].0,
                ),
            data == o.image(pid),
            forall|key: u64| n.index_of_key(key) == o.index_of_key(key),
            forall|key: u64| n.bucket_pid_of(key) == o.bucket_pid_of(key),
            Self::table_unchanged(o, n),
    {
        Self::lemma_fetch_preserves(o, n, pid, data, o.dir_page_id.0);
        assert forall|i: int|
            0 <= i < o.num_slots() implies n.page_held((#[trigger] o.dir_pids()[i]).0) && n.image(
            o.dir_pids()[i].0,
        ) == o.image(o.dir_pids()[i].0) by {
            Self::lemma_fetch_preserves(o, n, pid, data, o.dir_pids()[i].0);
        }
    }

    /// A step that keeps every page in place, only raising dirty flags
    /// or changing pins, preserves the table: typically an unpin.
    proof fn lemma_quiet_step(o: &Self, n: &Self)
        requires
            o.pages_ok(),
            n.dir_page_id == o.dir_page_id,
            n.hash_fn == o.hash_fn,
            n.bpm.wf(),
            n.bpm.pool_size == o.bpm.pool_size,
            n.bpm.disk() == o.bpm.disk(),
            forall|q: u32| n.bpm.resident(q) == o.bpm.resident(q),
            forall|q: u32|
                o.bpm.resident(q) ==> n.bpm.content_of(q) == o.bpm.content_of(q) && (
                n.bpm.dirty_of(q) == o.bpm.dirty_of(q) || n.bpm.dirty_of(q)),
            forall|x: u32| n.bpm.issued(x) == o.bpm.issued(x),
        ensures
            n.pages_ok(),
            n.image(o.dir_page_id.0) == o.image(o.dir_page_id.0),
            n.gd() == o.gd(),
            n.dir_lds() == o.dir_lds(),
            n.dir_pids() == o.dir_pids(),
            n.num_slots() == o.num_slots(),
            forall|i: int|
                0 <= i < o.num_slots() ==> n.image((#[trigger] o.dir_pids()[i]).0) == o.image(
                    o.dir_pids()[i].0,
                ),
            forall|key: u64| n.index_of_key(key) == o.index_of_key(key),
            forall|key: u64| n.bucket_pid_of(key) == o.bucket_pid_of(key),
            Self::table_unchanged(o, n),
    {
        assert(n.page_held(o.dir_page_id.0) && n.image(o.dir_page_id.0) == o.image(
            o.dir_page_id.0,
        ));
        assert forall|i: int|
            0 <= i < o.num_slots() implies n.page_held((#[trigger] o.dir_pids()[i]).0) && n.image(
            o.dir_pids()[i].0,
        ) == o.image(o.dir_pids()[i].0) by {
            let q = o.dir_pids()[i].0;
            assert(o.page_held(q));
        }
    }

    /// The index computed from a hash with the low-bit mask is the hash
    /// modulo `2^global_depth`, and fits the directory.
    fn key_to_index(&self, key: u64, gd: u32) -> (idx: usize)
        requires
            gd <= MAX_GLOBAL_DEPTH,
        ensures
            idx as int == (self.hash_fn.hash_spec(key) % (pow2(gd as nat) as u64)) as int,
            idx < pow2(gd as nat),
            pow2(gd as nat) <= DIRECTORY_ARRAY_SIZE,
    {
        let h = self.hash_fn.hash_key(key);
        proof {
            vstd::arithmetic::power2::lemma2_to64();
            if gd < 9 {
                vstd::arithmetic::power2::lemma_pow2_strictly_increases(gd as nat, 9);
            }
            vstd::bits::lemma_u64_shl_is_mul(1u64, gd as u64);
        }
        let mask = (1u64 << (gd as u64)) - 1;
        proof {
            assert(mask == vstd::bits::low_bits_mask(gd as nat) as u64);
            vstd::bits::lemma_u64_low_bits_mask_is_mod(h, gd as nat);
        }
        (h & mask) as usize
    }

    /// Fetch and pin the directory page.
    fn get_dir_data(&mut self, pins: Ghost<(u32, u32)>) -> (r: Vec<u8>)
        requires
            old(self).bpm.wf(),
            old(self).bpm.pool_size >= 3,
            old(self).page_held(old(self).dir_page_id.0),
            forall|p: u32|
                old(self).bpm.resident(p) && old(self).bpm.pin_of(p) > 0 ==> p == pins@.0 || p
                    == pins@.1,
            forall|p: u32| old(self).bpm.resident(p) ==> old(self).bpm.pin_of(p) <= 2,
        ensures
            final(self).dir_page_id == old(self).dir_page_id,
            final(self).hash_fn == old(self).hash_fn,
            final(self).bpm.wf(),
            final(self).bpm.pool_size == old(self).bpm.pool_size,
            final(self).bpm.num_instances == old(self).bpm.num_instances,
            forall|q: u32| final(self).bpm.issued(q) == old(self).bpm.issued(q),
            ParallelBufferPoolManager::<R, D>::fetch_succeeded(
                &old(self).bpm,
                &final(self).bpm,
                old(self).dir_page_id.0,
                r@,
            ),
            r@ == old(self).image(old(self).dir_page_id.0),
    {
        let dir_page_id = self.dir_page_id;
        self.pid_to_page_data(dir_page_id, pins)
    }
    /// Rewriting one pinned bucket page and unpinning it dirty keeps the
    /// rest of the table in place and gives that bucket its new image.
    proof fn lemma_rewrite_step(o: &Self, n: &Self, bpid: u32, newdata: Seq<u8>)
        requires
            o.pages_ok(),
            o.bpm.resident(bpid),
            bpid != o.dir_page_id.0,
            newdata.len() == PAGE_SIZE,
            n.dir_page_id == o.dir_page_id,
            n.hash_fn == o.hash_fn,
            n.bpm.wf(),
            n.bpm.pool_size == o.bpm.pool_size,
            n.bpm.disk() == o.bpm.disk(),
            forall|q: u32| n.bpm.resident(q) == o.bpm.resident(q),
            forall|q: u32|
                q != bpid && o.bpm.resident(q) ==> n.bpm.content_of(q) == o.bpm.content_of(q) && (
                n.bpm.dirty_of(q) == o.bpm.dirty_of(q) || n.bpm.dirty_of(q)),
            n.bpm.content_of(bpid) == newdata,
            n.bpm.dirty_of(bpid),
            forall|x: u32| n.bpm.issued(x) == o.bpm.issued(x),
        ensures
            n.pages_ok(),
            n.image(o.dir_page_id.0) == o.image(o.dir_page_id.0),
            n.gd() == o.gd(),
            n.dir_lds() == o.dir_lds(),
            n.dir_pids() == o.dir_pids(),
            n.num_slots() == o.num_slots(),
            n.image(bpid) == newdata,
            forall|i: int|
                0 <= i < o.num_slots() && (#[trigger] o.dir_pids()[i]).0 != bpid ==> n.image(
                    o.dir_pids()[i].0,
                ) == o.image(o.dir_pids()[i].0),
            forall|key: u64| n.index_of_key(key) == o.index_of_key(key),
            forall|key: u64| n.bucket_pid_of(key) == o.bucket_pid_of(key),
    {
        assert(n.page_held(o.dir_page_id.0) && n.image(o.dir_page_id.0) == o.image(
            o.dir_page_id.0,
        ));
        assert forall|i: int|
            0 <= i < o.num_slots() implies n.page_held((#[trigger] o.dir_pids()[i]).0) by {
            let q = o.dir_pids()[i].0;
            assert(o.page_held(q));
        }
    }

    // ------------------------------------------------------------------
    // Lookup and removal.
    // ------------------------------------------------------------------
    /// All values stored under `key`, in slot order of its bucket.
    pub fn get_value(&mut self, key: u64) -> (r: Vec<u64>)
        requires
            old(self).wf(),
        ensures
            final(self).wf(),
            r@ == old(self).lookup(key),
            Self::table_unchanged(old(self), final(self)),
            final(self).hash_fn == old(self).hash_fn,
            final(self).gd() == old(self).gd(),
            final(self).dir_pids() == old(self).dir_pids(),
            final(self).dir_lds() == old(self).dir_lds(),
            forall|q: u32| final(self).bpm.issued(q) == old(self).bpm.issued(q),
            forall|k2: u64| final(self).lookup(k2) == old(self).lookup(k2),
            forall|k2: u64, v: u64|
                final(self).contains_kv(k2, v) == old(self).contains_kv(k2, v),
    {
        let ghost o = *old(self);
        let dir_pid = self.dir_page_id;
        let dir_data = self.pid_to_page_data(dir_pid, Ghost((dir_pid.0, dir_pid.0)));
        let ghost s1 = *self;
        proof {
            Self::lemma_fetch_preserves_all(&o, &s1, dir_pid.0, dir_data@);
            assert forall|p: u32|
                s1.bpm.resident(p) && s1.bpm.pin_of(p) > 0 implies p == dir_pid.0 by {}
            assert forall|p: u32| s1.bpm.resident(p) implies s1.bpm.pin_of(p) <= 2 by {}
        }
        let dir = HashTableDirectoryPage::deserialize(&dir_data);
        let gd = dir.get_global_depth();
        let idx = self.key_to_index(key, gd);
        let bpid = dir.get_bucket_page_id(idx);
        proof {
            assert(idx as int == o.index_of_key(key));
            assert(bpid == o.dir_pids()[idx as int]);
            assert(bpid.0 == o.bucket_pid_of(key));
            assert(s1.page_held(bpid.0));
        }
        let bucket_data = self.pid_to_page_data(bpid, Ghost((dir_pid.0, dir_pid.0)));
        let ghost s2 = *self;
        proof {
            Self::lemma_fetch_preserves_all(&s1, &s2, bpid.0, bucket_data@);
            assert(bucket_data@ == o.image(bpid.0));
        }
        let bucket = HashTableBucketPage::deserialize(&bucket_data);
        let result = bucket.get_value(key);
        proof {
            assert(bucket.slots() =~= parse_bucket_slots(bucket_data@));
            assert(result@ == o.lookup(key));
            assert(s2.bpm.pin_of(dir_pid.0) == 1);
            assert(s2.bpm.resident(dir_pid.0));
        }
        self.bpm.unpin_page(dir_pid, false);
        let ghost s3 = *self;
        proof {
            Self::lemma_quiet_step(&s2, &s3);
            assert(s3.bpm.pin_of(bpid.0) == 1 && s3.bpm.resident(bpid.0));
        }
        self.bpm.unpin_page(bpid, false);
        proof {
            Self::lemma_quiet_step(&s3, final(self));
            assert forall|p: u32|
                final(self).bpm.resident(p) implies final(self).bpm.pin_of(p) == 0 by {
                if p != dir_pid.0 && p != bpid.0 {
                    assert(o.bpm.resident(p) && o.bpm.pin_of(p) == 0);
                }
            }
            assert forall|k2: u64| final(self).lookup(k2) == o.lookup(k2) by {
                assert(final(self).bucket_pid_of(k2) == o.bucket_pid_of(k2));
                assert(0 <= o.index_of_key(k2) < o.num_slots()) by {
                    vstd::arithmetic::div_mod::lemma_mod_bound(
                        o.hash_fn.hash_spec(k2) as int,
                        pow2(o.gd() as nat) as int,
                    );
                    vstd::arithmetic::power2::lemma_pow2_pos(o.gd() as nat);
                }
                assert(final(self).image(o.bucket_pid_of(k2)) == o.image(o.bucket_pid_of(k2)));
            }
            assert forall|k2: u64, v: u64|
                final(self).contains_kv(k2, v) == o.contains_kv(k2, v) by {
                assert(final(self).lookup(k2) == o.lookup(k2));
                assert(final(self).bucket_slots_of(k2) == o.bucket_slots_of(k2));
            }
        }
        result
    }

    /// Remove the first live slot holding exactly `(key, value)` from
    /// the key's bucket; no bucket merge is performed.
    pub fn remove(&mut self, key: u64, value: u64) -> (r: bool)
        requires
            old(self).wf(),
        ensures
            final(self).wf(),
            r <==> old(self).contains_kv(key, value),
            !r ==> Self::table_unchanged(old(self), final(self)),
            final(self).gd() == old(self).gd(),
            final(self).dir_pids() == old(self).dir_pids(),
            final(self).dir_lds() == old(self).dir_lds(),
            final(self).image(old(self).dir_page_id.0) == old(self).image(old(self).dir_page_id.0),
            final(self).dir_page_id == old(self).dir_page_id,
            final(self).hash_fn == old(self).hash_fn,
            r ==> exists|i: int|
                0 <= i < KV_NUM && old(self).bucket_slots_of(key)[i] == Some((key, value)) && (
                forall|j: int| 0 <= j < i ==> old(self).bucket_slots_of(key)[j] != Some(
                    (key, value),
                )) && final(self).bucket_slots_of(key) == old(self).bucket_slots_of(key).update(
                    i,
                    None,
                ),
            forall|i: int|
                0 <= i < old(self).num_slots() && (#[trigger] old(self).dir_pids()[i]).0 != old(
                    self,
                ).bucket_pid_of(key) ==> final(self).image(old(self).dir_pids()[i].0) == old(
                    self,
                ).image(old(self).dir_pids()[i].0),
    {
        let ghost o = *old(self);
        let dir_pid = self.dir_page_id;
        let dir_data = self.pid_to_page_data(dir_pid, Ghost((dir_pid.0, dir_pid.0)));
        let ghost s1 = *self;
        proof {
            Self::lemma_fetch_preserves_all(&o, &s1, dir_pid.0, dir_data@);
            assert forall|p: u32|
                s1.bpm.resident(p) && s1.bpm.pin_of(p) > 0 implies p == dir_pid.0 by {}
            assert forall|p: u32| s1.bpm.resident(p) implies s1.bpm.pin_of(p) <= 2 by {}
        }
        let dir = HashTableDirectoryPage::deserialize(&dir_data);
        let gd = dir.get_global_depth();
        let idx = self.key_to_index(key, gd);
        let bpid = dir.get_bucket_page_id(idx);
        proof {
            assert(idx as int == o.index_of_key(key));
            assert(bpid.0 == o.bucket_pid_of(key));
            assert(s1.page_held(bpid.0));
        }
        let bucket_data = self.pid_to_page_data(bpid, Ghost((dir_pid.0, dir_pid.0)));
        let ghost s2 = *self;
        proof {
            Self::lemma_fetch_preserves_all(&s1, &s2, bpid.0, bucket_data@);
            assert(bucket_data@ == o.image(bpid.0));
        }
        let mut bucket = HashTableBucketPage::deserialize(&bucket_data);
        proof {
            assert(bucket.slots() =~= parse_bucket_slots(bucket_data@));
            assert(bucket.slots() == o.bucket_slots_of(key));
        }
        let removed = bucket.remove(key, value);
        if removed {
            let new_bytes = bucket.serialize();
            proof {
                assert(s2.bpm.resident(bpid.0) && s2.bpm.pin_of(bpid.0) == 1);
                assert(parse_bucket_slots(new_bytes@) =~= bucket.slots());
            }
            self.bpm.write_page_data(bpid, &new_bytes);
            self.bpm.unpin_page(bpid, true);
            let ghost s4 = *self;
            proof {
                Self::lemma_rewrite_step(&s2, &s4, bpid.0, new_bytes@);
                assert(s4.bpm.resident(dir_pid.0) && s4.bpm.pin_of(dir_pid.0) == 1);
            }
            self.bpm.unpin_page(dir_pid, false);
            proof {
                Self::lemma_quiet_step(&s4, final(self));
                assert forall|p: u32|
                    final(self).bpm.resident(p) implies final(self).bpm.pin_of(p) == 0 by {
                    if p != dir_pid.0 && p != bpid.0 {
                        assert(o.bpm.resident(p) && o.bpm.pin_of(p) == 0);
                    }
                }
                assert(final(self).image(bpid.0) == new_bytes@);
                assert(final(self).bucket_slots_of(key) == parse_bucket_slots(new_bytes@));
            }
            true
        } else {
            proof {
                assert(s2.bpm.resident(bpid.0) && s2.bpm.pin_of(bpid.0) == 1);
            }
            self.bpm.unpin_page(bpid, false);
            let ghost s4 = *self;
            proof {
                Self::lemma_quiet_step(&s2, &s4);
                assert(s4.bpm.resident(dir_pid.0) && s4.bpm.pin_of(dir_pid.0) == 1);
            }
            self.bpm.unpin_page(dir_pid, false);
            proof {
                Self::lemma_quiet_step(&s4, final(self));
                assert forall|p: u32|
                    final(self).bpm.resident(p) implies final(self).bpm.pin_of(p) == 0 by {
                    if p != dir_pid.0 && p != bpid.0 {
                        assert(o.bpm.resident(p) && o.bpm.pin_of(p) == 0);
                    }
                }
            }
            false
        }
    }
    // ------------------------------------------------------------------
    // Insertion and bucket splits.
    // ------------------------------------------------------------------
    /// Whether a stored entry belongs to the new sibling after a split
    /// that starts using hash bit `ld`: its own hash has that bit set.
    pub open spec fn entry_moves(hf: H, ld: u8, slot: Option<(u64, u64)>) -> bool {
        match slot {
            Some(kv) => (hf.hash_spec(kv.0) >> (ld as u64)) & 1 == 1,
            None => false,
        }
    }

    /// One slot of the split bucket, redistributed: a live entry sits in
    /// the sibling chosen by its own hash bit and nowhere else; an empty
    /// slot stays empty in both.
    pub open spec fn redistributed_at(
        hf: H,
        ld: u8,
        s_old: Option<(u64, u64)>,
        s0: Option<(u64, u64)>,
        s1: Option<(u64, u64)>,
    ) -> bool {
        if s_old is Some {
            if Self::entry_moves(hf, ld, s_old) {
                s1 == s_old && s0 is None
            } else {
                s0 == s_old && s1 is None
            }
        } else {
            s0 is None && s1 is None
        }
    }

    /// Everything a successful split of the bucket at slot `idx` does,
    /// with `b0` the split bucket's page and `newp` the fresh sibling:
    /// the directory transformation of the two cases (doubling when the
    /// local depth equals the global one, sibling repointing otherwise),
    /// the slot-by-slot redistribution of the bucket's entries by each
    /// entry's own hash bit, and every other bucket left untouched.
    pub open spec fn split_effects(o: &Self, n: &Self, idx: int, b0: PageId, newp: PageId) -> bool {
        let g = o.gd();
        let ld = o.dir_lds()[idx];
        let b = pow2(g as nat) as int;
        let c = pow2(ld as nat) as int;
        &&& newp.0 != o.dir_page_id.0
        &&& forall|m: int| 0 <= m < pow2(o.gd() as nat) ==> (#[trigger] o.dir_pids()[m]) != newp
        &&& if ld as u32 == g {
            &&& n.gd() == g + 1
            &&& forall|m: int|
                0 <= m < b && m != idx ==> (#[trigger] n.dir_lds()[m]) == o.dir_lds()[m]
                    && n.dir_pids()[m] == o.dir_pids()[m]
            &&& forall|m: int|
                b <= m < 2 * b && m != idx + b ==> (#[trigger] n.dir_lds()[m]) == o.dir_lds()[m
                    - b] && n.dir_pids()[m] == o.dir_pids()[m - b]
            &&& n.dir_lds()[idx] == ld + 1
            &&& n.dir_lds()[idx + b] == ld + 1
            &&& n.dir_pids()[idx] == o.dir_pids()[idx]
            &&& n.dir_pids()[idx + b] == newp
        } else {
            &&& n.gd() == g
            &&& forall|m: int|
                0 <= m < b ==> (#[trigger] n.dir_lds()[m]) == (if m % c == idx % c {
                    (ld + 1) as u8
                } else {
                    o.dir_lds()[m]
                })
            &&& forall|m: int|
                0 <= m < b ==> (#[trigger] n.dir_pids()[m]) == (if m % c == idx % c && (m / c) % 2
                    == 1 {
                    newp
                } else {
                    o.dir_pids()[m]
                })
        }
        &&& forall|i: int|
            0 <= i < KV_NUM ==> #[trigger] Self::redistributed_at(
                o.hash_fn,
                ld,
                parse_bucket_slots(o.image(b0.0))[i],
                parse_bucket_slots(n.image(b0.0))[i],
                parse_bucket_slots(n.image(newp.0))[i],
            )
        &&& forall|m: int|
            0 <= m < b && (#[trigger] o.dir_pids()[m]) != b0 ==> n.image(o.dir_pids()[m].0)
                == o.image(o.dir_pids()[m].0)
    }

    /// Split the full bucket of `key`: allocate a sibling bucket, deepen
    /// the directory slots involved (doubling the directory when the
    /// local depth already equals the global one) and redistribute the
    /// bucket's entries by the newly used hash bit. Both pages arrive
    /// pinned and all touched pages are unpinned dirty. Fails only when
    /// no page can be allocated, leaving the table unchanged.
    #[verifier::rlimit(100)]
    fn bucket_split(
        &mut self,
        dir: HashTableDirectoryPage,
        bucket: HashTableBucketPage,
        bucket_index: usize,
        bucket_pid: PageId,
    ) -> (ok: bool)
        requires
            old(self).pages_ok(),
            old(self).bpm.resident(old(self).dir_page_id.0),
            old(self).bpm.pin_of(old(self).dir_page_id.0) == 1,
            old(self).bpm.resident(bucket_pid.0),
            old(self).bpm.pin_of(bucket_pid.0) == 1,
            bucket_pid.0 != old(self).dir_page_id.0,
            forall|p: u32|
                old(self).bpm.resident(p) && old(self).bpm.pin_of(p) > 0 ==> p == old(
                    self,
                ).dir_page_id.0 || p == bucket_pid.0,
            forall|p: u32| old(self).bpm.resident(p) ==> old(self).bpm.pin_of(p) <= 2,
            dir.wf(),
            bucket.wf(),
            dir.global_depth == old(self).gd(),
            dir.local_depth@ == old(self).dir_lds(),
            dir.page_ids@ == old(self).dir_pids(),
            bucket_index < pow2(old(self).gd() as nat),
            pow2(old(self).gd() as nat) <= DIRECTORY_ARRAY_SIZE,
            bucket_pid == old(self).dir_pids()[bucket_index as int],
            bucket.slots() == parse_bucket_slots(old(self).image(bucket_pid.0)),
            Self::dir_siblings_ok(old(self).gd(), old(self).dir_lds(), old(self).dir_pids()),
            (old(self).dir_lds()[bucket_index as int] as u32) < old(self).gd() || old(self).gd()
                < MAX_GLOBAL_DEPTH,
        ensures
            final(self).dir_page_id == old(self).dir_page_id,
            final(self).hash_fn == old(self).hash_fn,
            final(self).wf(),
            !ok ==> Self::table_unchanged(old(self), final(self)),
            !ok ==> forall|j: int|
                0 <= j < old(self).bpm.instances@.len() ==> !((
                #[trigger] old(self).bpm.instances@[j]).can_alloc_frame() && old(
                    self,
                ).bpm.instances@[j].can_alloc_page_id()),
            !ok ==> forall|j: int|
                0 <= j < final(self).bpm.instances@.len() ==> !((
                #[trigger] final(self).bpm.instances@[j]).can_alloc_page_id()),
            ok ==> exists|newp: PageId|
                Self::split_effects(old(self), final(self), bucket_index as int, bucket_pid, newp),
    {
        let ghost o = *old(self);
        let mut dir = dir;
        let mut old_bucket = bucket;
        let dir_pid = self.dir_page_id;
        let ld = dir.get_local_depth(bucket_index);
        let gd = dir.get_global_depth();
        proof {
            vstd::arithmetic::power2::lemma2_to64();
            assert((ld as u32) <= gd);
        }
        let mut new_pid = PageId(0);
        let new_data = match self.bpm.new_page_run(&mut new_pid) {
            Some(d) => d,
            None => {
                let ghost s1 = *self;
                proof {
                    assert forall|q: u32|
                        ParallelBufferPoolManager::<R, D>::page_untouched(&o.bpm, &s1.bpm, q)
                        && s1.bpm.issued(q) == o.bpm.issued(q) by {}
                    assert forall|j: int|
                        0 <= j < o.bpm.instances@.len() implies !((
                    #[trigger] o.bpm.instances@[j]).can_alloc_page_id()) by {
                        let inst = o.bpm.instances@[j];
                        if !inst.can_alloc_frame() {
                            inst.lemma_pinned_beyond(dir_pid.0, bucket_pid.0);
                            let p = choose|p: u32|
                                inst.resident(p) && inst.pin_of(p) > 0 && p != dir_pid.0 && p
                                    != bucket_pid.0;
                            assert(p % (o.bpm.num_instances as u32) == j as u32);
                            assert(o.bpm.resident(p) && o.bpm.pin_of(p) > 0);
                            assert(false);
                        }
                    }
                }
                self.bpm.unpin_page(bucket_pid, false);
                let ghost s2 = *self;
                proof {
                    Self::lemma_quiet_step(&s1, &s2);
                    assert(s2.bpm.resident(dir_pid.0) && s2.bpm.pin_of(dir_pid.0) == 1);
                }
                self.bpm.unpin_page(dir_pid, false);
                proof {
                    Self::lemma_quiet_step(&s2, final(self));
                    assert(Self::table_unchanged(&s1, final(self)));
                    assert forall|p: u32|
                        final(self).bpm.resident(p) implies final(self).bpm.pin_of(p) == 0 by {
                        if p != dir_pid.0 && p != bucket_pid.0 {
                            assert(ParallelBufferPoolManager::<R, D>::page_untouched(
                                &o.bpm,
                                &s1.bpm,
                                p,
                            ));
                            assert(s2.bpm.resident(p) == final(self).bpm.resident(p));
                            assert(s1.bpm.resident(p) == s2.bpm.resident(p));
                            assert(o.bpm.pin_of(p) == 0);
                            assert(s2.bpm.pin_of(p) == s1.bpm.pin_of(p));
                            assert(final(self).bpm.pin_of(p) == s2.bpm.pin_of(p));
                        }
                    }
                    assert(Self::table_unchanged(&o, final(self)));
                    assert forall|j: int|
                        0 <= j < final(self).bpm.instances@.len() implies !((
                    #[trigger] final(self).bpm.instances@[j]).can_alloc_page_id()) by {
                        assert(s1.bpm.instances@[j].obs_eq(&o.bpm.instances@[j]));
                        assert(s2.bpm.instances@[j].next_page_id
                            == s1.bpm.instances@[j].next_page_id
                            && s2.bpm.instances@[j].deleted_page_ids@
                            == s1.bpm.instances@[j].deleted_page_ids@);
                        assert(final(self).bpm.instances@[j].next_page_id
                            == s2.bpm.instances@[j].next_page_id
                            && final(self).bpm.instances@[j].deleted_page_ids@
                            == s2.bpm.instances@[j].deleted_page_ids@);
                    }
                }
                return false;
            },
        };
        let ghost s1 = *self;
        proof {
            assert(ParallelBufferPoolManager::<R, D>::new_page_succeeded(
                &o.bpm,
                &s1.bpm,
                new_pid.0,
                new_data@,
            ));
            Self::lemma_new_preserves(&o, &s1, new_pid.0, new_data@, o.dir_page_id.0);
            assert forall|i: int|
                0 <= i < o.num_slots() implies s1.page_held(
                (#[trigger] o.dir_pids()[i]).0,
            ) && s1.image(o.dir_pids()[i].0) == o.image(o.dir_pids()[i].0) && o.dir_pids()[i].0
                != new_pid.0 by {
                Self::lemma_new_preserves(&o, &s1, new_pid.0, new_data@, o.dir_pids()[i].0);
            }
            assert(s1.gd() == o.gd() && s1.dir_lds() == o.dir_lds() && s1.dir_pids()
                == o.dir_pids());
            assert(new_pid.0 != dir_pid.0) by {
                assert(o.bpm.issued(dir_pid.0));
            }
            assert(new_pid.0 != bucket_pid.0) by {
                assert(o.bpm.issued(bucket_pid.0));
            }
        }
        let mut new_bucket = HashTableBucketPage::new();
        // Deepen the directory.
        if (ld as u32) == gd {
            // The directory must double: replicate it into the upper
            // half, then give the split pair its deeper local depth.
            dir.increase_global_depth();
            proof {
                vstd::bits::lemma_usize_shl_is_mul(1usize, gd as usize);
            }
            let b = 1usize << (gd as usize);
            let mut i: usize = 0;
            while i < b
                invariant
                    dir.wf(),
                    b == pow2(gd as nat),
                    2 * b <= DIRECTORY_ARRAY_SIZE,
                    i <= b,
                    dir.global_depth == gd + 1,
                    gd + 1 <= MAX_GLOBAL_DEPTH,
                    forall|j: int| 0 <= j < b ==> dir.local_depth@[j] == o.dir_lds()[j],
                    forall|j: int| 0 <= j < b ==> dir.page_ids@[j] == o.dir_pids()[j],
                    forall|j: int|
                        b <= j < b + i ==> dir.local_depth@[j] == o.dir_lds()[j - b]
                            && dir.page_ids@[j] == o.dir_pids()[j - b],
                decreases b - i,
            {
                let pid_i = dir.get_bucket_page_id(i);
                dir.set_bucket_page_id(b + i, pid_i);
                let ld_i = dir.get_local_depth(i);
                dir.set_local_depth(b + i, ld_i);
                i += 1;
            }
            dir.increase_local_depth(bucket_index);
            dir.set_local_depth(bucket_index + b, ld + 1);
            dir.set_bucket_page_id(bucket_index + b, new_pid);
            proof {
                vstd::arithmetic::power2::lemma_pow2_unfold((gd + 1) as nat);
                assert(pow2((gd + 1) as nat) == 2 * b);
                assert forall|j: int|
                    0 <= j < pow2((gd + 1) as nat) implies (#[trigger] dir.local_depth@[j]) as u32
                    <= gd + 1 by {
                    if j < b {
                        if j != bucket_index {
                            assert(dir.local_depth@[j] == o.dir_lds()[j]);
                        }
                    } else {
                        if j != bucket_index + b {
                            assert(dir.local_depth@[j] == o.dir_lds()[j - b]);
                        }
                    }
                }
                assert forall|j: int|
                    0 <= j < pow2((gd + 1) as nat) implies (exists|m: int|
                    0 <= m < pow2(gd as nat) && (#[trigger] dir.page_ids@[j]) == o.dir_pids()[m])
                    || dir.page_ids@[j] == new_pid by {
                    if j == bucket_index + b {
                    } else if j < b {
                        assert(dir.page_ids@[j] == o.dir_pids()[j]);
                    } else {
                        assert(dir.page_ids@[j] == o.dir_pids()[j - b]);
                    }
                }
                assert forall|m: int|
                    0 <= m < pow2(gd as nat) implies (#[trigger] o.dir_pids()[m]) != new_pid by {
                    assert(o.dir_pids()[m].0 != new_pid.0);
                }
                Self::lemma_split_double_siblings(
                    gd,
                    o.dir_lds(),
                    o.dir_pids(),
                    dir.local_depth@,
                    dir.page_ids@,
                    bucket_index as int,
                    new_pid,
                );
            }
        } else {
            // The directory keeps its size: deepen every sibling slot and
            // repoint those whose newly used bit is set.
            proof {
                vstd::bits::lemma_usize_shl_is_mul(1usize, ld as usize);
                vstd::bits::lemma_usize_shl_is_mul(1usize, gd as usize);
                vstd::arithmetic::power2::lemma_pow2_strictly_increases(ld as nat, gd as nat);
            }
            let cycle = 1usize << (ld as usize);
            let nb = 1usize << (gd as usize);
            let mut j: usize = 0;
            while j < nb
                invariant
                    dir.wf(),
                    cycle == pow2(ld as nat),
                    cycle >= 1,
                    nb == pow2(gd as nat),
                    nb <= DIRECTORY_ARRAY_SIZE,
                    (ld as u32) < gd,
                    gd <= MAX_GLOBAL_DEPTH,
                    j <= nb,
                    dir.global_depth == gd,
                    bucket_index < nb,
                    forall|m: int|
                        0 <= m < j ==> (#[trigger] dir.local_depth@[m]) == (if m % (cycle as int)
                            == (bucket_index as int) % (cycle as int) {
                            (ld + 1) as u8
                        } else {
                            o.dir_lds()[m]
                        }),
                    forall|m: int|
                        0 <= m < j ==> (#[trigger] dir.page_ids@[m]) == (if m % (cycle as int) == (
                        bucket_index as int) % (cycle as int) && (m / (cycle as int)) % 2 == 1 {
                            new_pid
                        } else {
                            o.dir_pids()[m]
                        }),
                    forall|m: int|
                        j <= m < DIRECTORY_ARRAY_SIZE ==> (#[trigger] dir.local_depth@[m])
                            == o.dir_lds()[m],
                    forall|m: int|
                        j <= m < DIRECTORY_ARRAY_SIZE ==> (#[trigger] dir.page_ids@[m])
                            == o.dir_pids()[m],
                decreases nb - j,
            {
                let is_sibling = j % cycle == bucket_index % cycle;
                let is_upper = (j / cycle) % 2 == 1;
                let ghost pre_ld = dir.local_depth@;
                let ghost pre_pid = dir.page_ids@;
                if is_sibling {
                    dir.set_local_depth(j, ld + 1);
                    if is_upper {
                        dir.set_bucket_page_id(j, new_pid);
                    }
                }
                proof {
                    assert(is_sibling <==> (j as int) % (cycle as int) == (bucket_index as int) % (
                    cycle as int));
                    assert(is_upper <==> ((j as int) / (cycle as int)) % 2 == 1);
                    assert forall|m: int|
                        0 <= m < j + 1 implies (#[trigger] dir.local_depth@[m]) == (if m % (
                        cycle as int) == (bucket_index as int) % (cycle as int) {
                            (ld + 1) as u8
                        } else {
                            o.dir_lds()[m]
                        }) by {
                        if m < j {
                            assert(dir.local_depth@[m] == pre_ld[m]);
                        } else {
                            if !is_sibling {
                                assert(dir.local_depth@[m] == pre_ld[m]);
                                assert(pre_ld[m] == o.dir_lds()[m]);
                            }
                        }
                    }
                    assert forall|m: int|
                        0 <= m < j + 1 implies (#[trigger] dir.page_ids@[m]) == (if m % (
                        cycle as int) == (bucket_index as int) % (cycle as int) && (m / (
                        cycle as int)) % 2 == 1 {
                            new_pid
                        } else {
                            o.dir_pids()[m]
                        }) by {
                        if m < j {
                            assert(dir.page_ids@[m] == pre_pid[m]);
                        } else {
                            if !(is_sibling && is_upper) {
                                assert(dir.page_ids@[m] == pre_pid[m]);
                                assert(pre_pid[m] == o.dir_pids()[m]);
                            }
                        }
                    }
                    assert forall|m: int|
                        j + 1 <= m < DIRECTORY_ARRAY_SIZE implies (
                    #[trigger] dir.local_depth@[m]) == o.dir_lds()[m] by {
                        assert(dir.local_depth@[m] == pre_ld[m]);
                    }
                    assert forall|m: int|
                        j + 1 <= m < DIRECTORY_ARRAY_SIZE implies (#[trigger] dir.page_ids@[m])
                        == o.dir_pids()[m] by {
                        assert(dir.page_ids@[m] == pre_pid[m]);
                    }
                }
                j += 1;
            }
            proof {
                assert forall|j: int|
                    0 <= j < pow2(gd as nat) implies (#[trigger] dir.local_depth@[j]) as u32
                    <= gd by {}
                assert forall|j: int|
                    0 <= j < pow2(gd as nat) implies (exists|m: int|
                    0 <= m < pow2(gd as nat) && (#[trigger] dir.page_ids@[j]) == o.dir_pids()[m])
                    || dir.page_ids@[j] == new_pid by {
                    if dir.page_ids@[j] != new_pid {
                        assert(dir.page_ids@[j] == o.dir_pids()[j]);
                    }
                }
                Self::lemma_split_same_siblings(
                    gd,
                    o.dir_lds(),
                    o.dir_pids(),
                    dir.local_depth@,
                    dir.page_ids@,
                    bucket_index as int,
                    new_pid,
                );
            }
        }
        // Redistribute the old bucket's entries by the newly used bit of
        // each entry's own hash, keeping each entry in its slot.
        let ghost pre_slots = old_bucket.slots();
        let ghost hf = self.hash_fn;
        let mut i: usize = 0;
        while i < KV_NUM
            invariant
                old_bucket.wf(),
                new_bucket.wf(),
                (ld as u32) <= MAX_GLOBAL_DEPTH,
                i <= KV_NUM,
                self.hash_fn == hf,
                pre_slots.len() == KV_NUM,
                forall|m: int|
                    0 <= m < i ==> #[trigger] Self::redistributed_at(
                        hf,
                        ld,
                        pre_slots[m],
                        old_bucket.slots()[m],
                        new_bucket.slots()[m],
                    ),
                forall|m: int|
                    #![trigger pre_slots[m]]
                    i <= m < KV_NUM ==> old_bucket.slots()[m] == pre_slots[m]
                        && new_bucket.slots()[m] is None,
            decreases KV_NUM - i,
        {
            let ghost pre_old = old_bucket.slots();
            let ghost pre_new = new_bucket.slots();
            proof {
                assert forall|m: int|
                    i <= m < KV_NUM implies pre_old[m] == pre_slots[m] && pre_new[m]
                    is None by {
                    assert(pre_slots[m] == pre_slots[m]);
                    assert(old_bucket.slots()[m] == pre_slots[m] && new_bucket.slots()[m]
                        is None);
                }
            }
            if old_bucket.is_readable(i) {
                let k0 = old_bucket.kvs[i].0;
                let v0 = old_bucket.kvs[i].1;
                proof {
                    assert(pre_slots[i as int] == Some((k0, v0)));
                }
                let h = self.hash_fn.hash_key(k0);
                if (h >> (ld as u64)) & 1 == 1 {
                    new_bucket.put_slot(i, k0, v0);
                    old_bucket.clear_slot(i);
                }
            }
            proof {
                assert forall|m: int|
                    0 <= m < i + 1 implies #[trigger] Self::redistributed_at(
                    hf,
                    ld,
                    pre_slots[m],
                    old_bucket.slots()[m],
                    new_bucket.slots()[m],
                ) by {
                    if m < i {
                        assert(old_bucket.slots()[m] == pre_old[m]);
                        assert(new_bucket.slots()[m] == pre_new[m]);
                    }
                }
                assert forall|m: int|
                    i + 1 <= m < KV_NUM implies old_bucket.slots()[m] == pre_slots[m]
                    && new_bucket.slots()[m] is None by {
                    assert(old_bucket.slots()[m] == pre_old[m]);
                    assert(new_bucket.slots()[m] == pre_new[m]);
                    assert(pre_slots[m] == pre_slots[m]);
                }
            }
            i += 1;
        }
        // Persist the directory and both buckets, then release them.
        let ghost s2 = *self;
        let dir_bytes = dir.serialize();
        self.bpm.write_page_data(dir_pid, &dir_bytes);
        let old_bytes = old_bucket.serialize();
        self.bpm.write_page_data(bucket_pid, &old_bytes);
        let new_bytes = new_bucket.serialize();
        self.bpm.write_page_data(new_pid, &new_bytes);
        self.bpm.unpin_page(dir_pid, true);
        self.bpm.unpin_page(bucket_pid, true);
        self.bpm.unpin_page(new_pid, true);
        proof {
            let n = *final(self);
            assert(n.bpm.resident(dir_pid.0) && n.bpm.content_of(dir_pid.0) == dir_bytes@
                && n.bpm.dirty_of(dir_pid.0));
            assert(n.image(dir_pid.0) == dir_bytes@);
            assert(n.gd() == dir.global_depth && n.dir_lds() =~= dir.local_depth@ && n.dir_pids()
                =~= dir.page_ids@);
            assert forall|p: u32| n.bpm.resident(p) implies n.bpm.pin_of(p) == 0 by {
                if p != dir_pid.0 && p != bucket_pid.0 && p != new_pid.0 {
                    assert(s1.bpm.resident(p) && s1.bpm.pin_of(p) == 0);
                    assert(o.bpm.resident(p) && o.bpm.pin_of(p) == 0);
                }
            }
            assert(Self::dir_ok(n.gd(), n.dir_lds(), n.dir_pids()));
            assert(n.page_held(dir_pid.0));
            assert forall|i2: int|
                0 <= i2 < n.num_slots() implies n.page_held((#[trigger] n.dir_pids()[i2]).0)
                && n.dir_pids()[i2].0 != n.dir_page_id.0 by {
                if n.dir_pids()[i2] == new_pid {
                    assert(n.bpm.resident(new_pid.0) && n.bpm.dirty_of(new_pid.0));
                    assert(n.bpm.issued(new_pid.0));
                } else {
                    let m = choose|m: int|
                        0 <= m < pow2(o.gd() as nat) && n.dir_pids()[i2] == o.dir_pids()[m];
                    let q = o.dir_pids()[m].0;
                    assert(o.page_held(q));
                    assert(s1.page_held(q));
                    if q == bucket_pid.0 {
                        assert(n.bpm.resident(q) && n.bpm.dirty_of(q));
                    } else {
                        assert(n.bpm.resident(q) == s1.bpm.resident(q));
                        if s1.bpm.resident(q) {
                            assert(n.bpm.content_of(q) == s1.bpm.content_of(q));
                            assert(n.bpm.dirty_of(q) == s1.bpm.dirty_of(q) || n.bpm.dirty_of(q));
                        }
                    }
                }
            }
            // The split's advertised effects, witnessed by the fresh page.
            assert(n.bpm.resident(bucket_pid.0) && n.bpm.content_of(bucket_pid.0) == old_bytes@);
            assert(n.bpm.resident(new_pid.0) && n.bpm.content_of(new_pid.0) == new_bytes@);
            assert(n.image(bucket_pid.0) == old_bytes@);
            assert(n.image(new_pid.0) == new_bytes@);
            assert(parse_bucket_slots(n.image(bucket_pid.0)) =~= old_bucket.slots());
            assert(parse_bucket_slots(n.image(new_pid.0)) =~= new_bucket.slots());
            assert(parse_bucket_slots(o.image(bucket_pid.0)) == pre_slots);
            assert(o.hash_fn == hf);
            assert(o.dir_lds()[bucket_index as int] == ld);
            assert forall|m: int|
                0 <= m < pow2(o.gd() as nat) implies (#[trigger] o.dir_pids()[m]) != new_pid by {
                assert(o.dir_pids()[m].0 != new_pid.0);
            }
            assert forall|i2: int|
                0 <= i2 < KV_NUM implies #[trigger] Self::redistributed_at(
                o.hash_fn,
                ld,
                parse_bucket_slots(o.image(bucket_pid.0))[i2],
                parse_bucket_slots(n.image(bucket_pid.0))[i2],
                parse_bucket_slots(n.image(new_pid.0))[i2],
            ) by {
                assert(Self::redistributed_at(
                    hf,
                    ld,
                    pre_slots[i2],
                    old_bucket.slots()[i2],
                    new_bucket.slots()[i2],
                ));
            }
            assert forall|m: int|
                0 <= m < pow2(o.gd() as nat) && (#[trigger] o.dir_pids()[m]) != bucket_pid
                implies n.image(o.dir_pids()[m].0) == o.image(o.dir_pids()[m].0) by {
                let q = o.dir_pids()[m].0;
                assert(q != new_pid.0 && q != dir_pid.0 && q != bucket_pid.0);
                Self::lemma_new_preserves(&o, &s1, new_pid.0, new_data@, q);
                assert(s1.image(q) == o.image(q));
                assert(n.bpm.resident(q) == s1.bpm.resident(q));
                if s1.bpm.resident(q) {
                    assert(n.bpm.content_of(q) == s1.bpm.content_of(q));
                } else {
                    assert(n.bpm.disk() == s1.bpm.disk());
                }
            }
            assert(Self::split_effects(&o, &n, bucket_index as int, bucket_pid, new_pid)) by {
                if (ld as u32) == o.gd() {
                    let b = pow2(o.gd() as nat) as int;
                    assert(n.gd() == o.gd() + 1);
                    assert forall|m: int|
                        0 <= m < b && m != bucket_index as int implies (#[trigger] n.dir_lds()[m])
                        == o.dir_lds()[m] && n.dir_pids()[m] == o.dir_pids()[m] by {
                        assert(n.dir_lds()[m] == dir.local_depth@[m]);
                        assert(n.dir_pids()[m] == dir.page_ids@[m]);
                    }
                    assert forall|m: int|
                        b <= m < 2 * b && m != bucket_index as int + b implies (
                    #[trigger] n.dir_lds()[m]) == o.dir_lds()[m - b] && n.dir_pids()[m]
                        == o.dir_pids()[m - b] by {
                        assert(n.dir_lds()[m] == dir.local_depth@[m]);
                        assert(n.dir_pids()[m] == dir.page_ids@[m]);
                    }
                } else {
                    let b = pow2(o.gd() as nat) as int;
                    let c = pow2(ld as nat) as int;
                    assert forall|m: int|
                        0 <= m < b implies (#[trigger] n.dir_lds()[m]) == (if m % c
                        == bucket_index as int % c {
                        (ld + 1) as u8
                    } else {
                        o.dir_lds()[m]
                    }) && (#[trigger] n.dir_pids()[m]) == (if m % c == bucket_index as int % c && (
                    m / c) % 2 == 1 {
                        new_pid
                    } else {
                        o.dir_pids()[m]
                    }) by {
                        assert(n.dir_lds()[m] == dir.local_depth@[m]);
                        assert(n.dir_pids()[m] == dir.page_ids@[m]);
                    }
                }
            }
        }
        true
    }

    /// After a split of the bucket a key addresses, the key addresses a
    /// bucket one level deeper, whose entries come from the split bucket:
    /// a pair absent before the split is still absent.
    proof fn lemma_split_key_bucket(
        o: &Self,
        n: &Self,
        idx: int,
        b0: PageId,
        newp: PageId,
        key: u64,
        value: u64,
    )
        requires
            Self::split_effects(o, n, idx, b0, newp),
            0 <= idx < pow2(o.gd() as nat),
            o.gd() <= MAX_GLOBAL_DEPTH,
            (o.dir_lds()[idx] as u32) <= o.gd(),
            idx == o.index_of_key(key),
            b0 == o.dir_pids()[idx],
            !has_kv(parse_bucket_slots(o.image(b0.0)), key, value),
            (o.dir_lds()[idx] as u32) == o.gd() ==> o.gd() < MAX_GLOBAL_DEPTH,
            n.hash_fn == o.hash_fn,
        ensures
            0 <= n.index_of_key(key) < pow2(n.gd() as nat),
            (n.dir_lds()[n.index_of_key(key)] as int) == (o.dir_lds()[idx] as int) + 1,
            !n.contains_kv(key, value),
    {
        let g = o.gd();
        let ld = o.dir_lds()[idx];
        let h = o.hash_fn.hash_spec(key) as int;
        let b = pow2(g as nat) as int;
        vstd::arithmetic::power2::lemma2_to64();
        if (g as nat) < 9 {
            vstd::arithmetic::power2::lemma_pow2_strictly_increases(g as nat, 9);
        }
        if ((g + 1) as nat) < 9 {
            vstd::arithmetic::power2::lemma_pow2_strictly_increases((g + 1) as nat, 9);
        }
        vstd::arithmetic::power2::lemma_pow2_pos(g as nat);
        vstd::arithmetic::div_mod::lemma_mod_bound(h, b);
        assert(pow2(g as nat) as u64 == b);
        assert(h % b == idx);
        let olds = parse_bucket_slots(o.image(b0.0));
        let idx2 = n.index_of_key(key);
        if ld as u32 == g {
            vstd::arithmetic::power2::lemma_pow2_unfold((g + 1) as nat);
            vstd::arithmetic::div_mod::lemma_mod_breakdown(h, b, 2);
            assert(h % (2 * b) == b * ((h / b) % 2) + idx);
            vstd::arithmetic::div_mod::lemma_mod_bound(h, 2 * b);
            assert(idx2 == h % (2 * b));
            if (h / b) % 2 == 1 {
                assert(b * ((h / b) % 2) == b) by (nonlinear_arith)
                    requires
                        (h / b) % 2 == 1,
                ;
                assert(idx2 == idx + b);
            } else {
                vstd::arithmetic::div_mod::lemma_mod_pos_bound(h / b, 2);
                assert((h / b) % 2 == 0);
                assert(b * ((h / b) % 2) == 0) by (nonlinear_arith)
                    requires
                        (h / b) % 2 == 0,
                ;
                assert(h % (2 * b) == idx);
                assert(idx2 == idx);
            }
        } else {
            assert(n.gd() == g);
            assert(idx2 == idx);
            let c = pow2(ld as nat) as int;
            assert(idx % c == idx % c);
        }
        let child = parse_bucket_slots(n.image(n.dir_pids()[idx2].0));
        assert(n.dir_pids()[idx2].0 == b0.0 || n.dir_pids()[idx2].0 == newp.0);
        assert forall|i: int| 0 <= i < KV_NUM implies child[i] is None || child[i]
            == olds[i] by {
            assert(Self::redistributed_at(
                o.hash_fn,
                ld,
                olds[i],
                parse_bucket_slots(n.image(b0.0))[i],
                parse_bucket_slots(n.image(newp.0))[i],
            ));
        }
        if has_kv(child, key, value) {
            let i = choose|i: int| 0 <= i < child.len() && child[i] == Some((key, value));
            assert(olds[i] == Some((key, value)));
            assert(false);
        }
    }

    /// Insert a pair into the bucket of `key`. An exact duplicate pair
    /// is refused with `false`; a full bucket is split (doubling the
    /// directory when needed) and the insert retried. Returns `false`
    /// also when the directory or the pool cannot grow any further.
    pub fn insert(&mut self, key: u64, value: u64) -> (r: bool)
        requires
            old(self).wf(),
        ensures
            final(self).wf(),
            final(self).dir_page_id == old(self).dir_page_id,
            final(self).hash_fn == old(self).hash_fn,
            old(self).contains_kv(key, value) ==> r == false && Self::table_unchanged(
                old(self),
                final(self),
            ),
            !old(self).contains_kv(key, value) && has_empty(old(self).bucket_slots_of(key))
                ==> r == true,
            r == true ==> final(self).contains_kv(key, value),
            r == false ==> old(self).contains_kv(key, value) || !has_empty(
                old(self).bucket_slots_of(key),
            ),
            r == false ==> old(self).contains_kv(key, value) || (final(self).gd()
                == MAX_GLOBAL_DEPTH && !has_empty(final(self).bucket_slots_of(key))) || (forall|
                j: int,
            |
                0 <= j < final(self).bpm.instances@.len() ==> !((
                #[trigger] final(self).bpm.instances@[j]).can_alloc_page_id())),
            !old(self).contains_kv(key, value) && has_empty(old(self).bucket_slots_of(key)) ==> {
                &&& final(self).gd() == old(self).gd()
                &&& final(self).dir_pids() == old(self).dir_pids()
                &&& final(self).dir_lds() == old(self).dir_lds()
                &&& final(self).image(old(self).dir_page_id.0) == old(self).image(
                    old(self).dir_page_id.0,
                )
                &&& exists|i: int|
                    0 <= i < KV_NUM && old(self).bucket_slots_of(key)[i] is None && (forall|j: int|
                        0 <= j < i ==> old(self).bucket_slots_of(key)[j] is Some)
                        && final(self).bucket_slots_of(key) == old(self).bucket_slots_of(
                        key,
                    ).update(i, Some((key, value)))
                &&& forall|i: int|
                    0 <= i < old(self).num_slots() && (#[trigger] old(self).dir_pids()[i]).0
                        != old(self).bucket_pid_of(key) ==> final(self).image(
                        old(self).dir_pids()[i].0,
                    ) == old(self).image(old(self).dir_pids()[i].0)
            },
    {
        let mut attempts: usize = 0;
        while attempts < 10
            invariant
                self.wf(),
                self.dir_page_id == old(self).dir_page_id,
                self.hash_fn == old(self).hash_fn,
                attempts <= 10,
                attempts == 0 ==> self == old(self),
                attempts > 0 ==> !old(self).contains_kv(key, value) && !has_empty(
                    old(self).bucket_slots_of(key),
                ),
                attempts > 0 ==> !self.contains_kv(key, value) && 0 <= self.index_of_key(key)
                    < self.num_slots() && (self.dir_lds()[self.index_of_key(key)] as int)
                    >= attempts,
            decreases 10 - attempts,
        {
            let ghost c = *self;
            let dir_pid = self.dir_page_id;
            let dir_data = self.pid_to_page_data(dir_pid, Ghost((dir_pid.0, dir_pid.0)));
            let ghost s1 = *self;
            proof {
                Self::lemma_fetch_preserves_all(&c, &s1, dir_pid.0, dir_data@);
                assert forall|p: u32|
                    s1.bpm.resident(p) && s1.bpm.pin_of(p) > 0 implies p == dir_pid.0 by {}
                assert forall|p: u32| s1.bpm.resident(p) implies s1.bpm.pin_of(p) <= 2 by {}
            }
            let dir = HashTableDirectoryPage::deserialize(&dir_data);
            let gd = dir.get_global_depth();
            let idx = self.key_to_index(key, gd);
            let bpid = dir.get_bucket_page_id(idx);
            let ld = dir.get_local_depth(idx);
            proof {
                assert(idx as int == c.index_of_key(key));
                assert(bpid.0 == c.bucket_pid_of(key));
                assert(s1.page_held(bpid.0));
            }
            let bucket_data = self.pid_to_page_data(bpid, Ghost((dir_pid.0, dir_pid.0)));
            let ghost s2 = *self;
            proof {
                Self::lemma_fetch_preserves_all(&s1, &s2, bpid.0, bucket_data@);
                assert(bucket_data@ == c.image(bpid.0));
            }
            let mut bucket = HashTableBucketPage::deserialize(&bucket_data);
            proof {
                assert(bucket.slots() =~= parse_bucket_slots(bucket_data@));
                assert(bucket.slots() == c.bucket_slots_of(key));
            }
            let ghost pre_slots = bucket.slots();
            let outcome = bucket.insert(key, value);
            match outcome {
                InertResult::Success => {
                    let new_bytes = bucket.serialize();
                    proof {
                        assert(s2.bpm.resident(bpid.0) && s2.bpm.pin_of(bpid.0) == 1);
                        assert(parse_bucket_slots(new_bytes@) =~= bucket.slots());
                    }
                    self.bpm.write_page_data(bpid, &new_bytes);
                    self.bpm.unpin_page(bpid, true);
                    let ghost s4 = *self;
                    proof {
                        Self::lemma_rewrite_step(&s2, &s4, bpid.0, new_bytes@);
                        assert(s4.bpm.resident(dir_pid.0) && s4.bpm.pin_of(dir_pid.0) == 1);
                    }
                    self.bpm.unpin_page(dir_pid, false);
                    proof {
                        Self::lemma_quiet_step(&s4, final(self));
                        assert forall|p: u32|
                            final(self).bpm.resident(p) implies final(self).bpm.pin_of(p)
                            == 0 by {
                            if p != dir_pid.0 && p != bpid.0 {
                                assert(c.bpm.resident(p) && c.bpm.pin_of(p) == 0);
                            }
                        }
                        assert(final(self).image(bpid.0) == new_bytes@);
                        assert(final(self).bucket_slots_of(key) == parse_bucket_slots(
                            new_bytes@,
                        ));
                        let i = choose|i: int|
                            0 <= i < KV_NUM && pre_slots[i] is None && (forall|j: int|
                                0 <= j < i ==> pre_slots[j] is Some) && bucket.slots()
                                == pre_slots.update(i, Some((key, value)));
                        assert(bucket.slots()[i] == Some((key, value)));
                        assert(final(self).contains_kv(key, value));
                    }
                    return true;
                },
                InertResult::Duplicate => {
                    proof {
                        if attempts > 0 {
                            assert(has_kv(c.bucket_slots_of(key), key, value));
                            assert(c.contains_kv(key, value));
                            assert(false);
                        }
                        assert(s2.bpm.resident(bpid.0) && s2.bpm.pin_of(bpid.0) == 1);
                    }
                    self.bpm.unpin_page(bpid, false);
                    let ghost s4 = *self;
                    proof {
                        Self::lemma_quiet_step(&s2, &s4);
                        assert(s4.bpm.resident(dir_pid.0) && s4.bpm.pin_of(dir_pid.0) == 1);
                    }
                    self.bpm.unpin_page(dir_pid, false);
                    proof {
                        Self::lemma_quiet_step(&s4, final(self));
                        assert forall|p: u32|
                            final(self).bpm.resident(p) implies final(self).bpm.pin_of(p)
                            == 0 by {
                            if p != dir_pid.0 && p != bpid.0 {
                                assert(c.bpm.resident(p) && c.bpm.pin_of(p) == 0);
                            }
                        }
                        assert(has_kv(c.bucket_slots_of(key), key, value));
                        if attempts == 0 {
                            assert(Self::table_unchanged(&c, final(self)));
                        }
                    }
                    return false;
                },
                InertResult::Full => {
                    proof {
                        assert(!has_kv(c.bucket_slots_of(key), key, value));
                        assert(!has_empty(c.bucket_slots_of(key)));
                    }
                    if (ld as u32) >= gd && gd >= MAX_GLOBAL_DEPTH {
                        proof {
                            assert(s2.bpm.resident(bpid.0) && s2.bpm.pin_of(bpid.0) == 1);
                        }
                        self.bpm.unpin_page(bpid, false);
                        let ghost s4 = *self;
                        proof {
                            Self::lemma_quiet_step(&s2, &s4);
                            assert(s4.bpm.resident(dir_pid.0) && s4.bpm.pin_of(dir_pid.0) == 1);
                        }
                        self.bpm.unpin_page(dir_pid, false);
                        proof {
                            Self::lemma_quiet_step(&s4, final(self));
                            assert forall|p: u32|
                                final(self).bpm.resident(p) implies final(self).bpm.pin_of(p)
                                == 0 by {
                                if p != dir_pid.0 && p != bpid.0 {
                                    assert(c.bpm.resident(p) && c.bpm.pin_of(p) == 0);
                                }
                            }
                            assert(final(self).gd() == MAX_GLOBAL_DEPTH);
                            assert(final(self).index_of_key(key) == c.index_of_key(key));
                            assert(final(self).bucket_pid_of(key) == c.bucket_pid_of(key));
                            assert(final(self).bucket_slots_of(key) == c.bucket_slots_of(key));
                            assert(!has_empty(final(self).bucket_slots_of(key)));
                        }
                        return false;
                    }
                    let ghost pre_split = *self;
                    let ok = self.bucket_split(dir, bucket, idx, bpid);
                    if !ok {
                        return false;
                    }
                    let ghost cur = *self;
                    proof {
                        let newp = choose|p: PageId|
                            Self::split_effects(&pre_split, &cur, idx as int, bpid, p);
                        assert(pre_split.gd() == c.gd() && pre_split.dir_lds() == c.dir_lds()
                            && pre_split.dir_pids() == c.dir_pids());
                        assert(idx as int == pre_split.index_of_key(key));
                        assert(pre_split.image(bpid.0) == c.image(bpid.0));
                        assert(!has_kv(parse_bucket_slots(pre_split.image(bpid.0)), key, value));
                        Self::lemma_split_key_bucket(
                            &pre_split,
                            &cur,
                            idx as int,
                            bpid,
                            newp,
                            key,
                            value,
                        );
                        assert((cur.dir_lds()[cur.index_of_key(key)] as int) == (ld as int) + 1);
                        assert(!cur.contains_kv(key, value));
                        assert(0 <= cur.index_of_key(key) < cur.num_slots()) by {
                            vstd::arithmetic::power2::lemma_pow2_pos(cur.gd() as nat);
                            vstd::arithmetic::div_mod::lemma_mod_bound(
                                cur.hash_fn.hash_spec(key) as int,
                                pow2(cur.gd() as nat) as int,
                            );
                        }
                    }
                    attempts += 1;
                },
            }
        }
        proof {
            let i = self.index_of_key(key);
            assert(0 <= i < pow2(self.gd() as nat));
            assert((self.dir_lds()[i] as u32) <= self.gd());
            assert(false);
        }
        false
    }
}

/// Taking a remainder by a smaller power of two after a larger one
/// changes nothing.
proof fn lemma_pow2_mod_mod(x: int, l: nat, g: nat)
    requires
        l <= g,
    ensures
        (x % (pow2(g) as int)) % (pow2(l) as int) == x % (pow2(l) as int),
{
    vstd::arithmetic::power2::lemma_pow2_adds(l, (g - l) as nat);
    vstd::arithmetic::power2::lemma_pow2_pos(l);
    vstd::arithmetic::power2::lemma_pow2_pos((g - l) as nat);
    vstd::arithmetic::div_mod::lemma_mod_mod(x, pow2(l) as int, pow2((g - l) as nat) as int);
}

/// Adding a larger power of two does not change the remainder by a
/// smaller one.
proof fn lemma_pow2_add_mod(i: int, l: nat, g: nat)
    requires
        l <= g,
    ensures
        (i + pow2(g)) % (pow2(l) as int) == i % (pow2(l) as int),
{
    vstd::arithmetic::power2::lemma_pow2_adds(l, (g - l) as nat);
    vstd::arithmetic::power2::lemma_pow2_pos(l);
    vstd::arithmetic::power2::lemma_pow2_pos((g - l) as nat);
    vstd::arithmetic::div_mod::lemma_mod_multiples_vanish(
        pow2((g - l) as nat) as int,
        i,
        pow2(l) as int,
    );
    assert((pow2(l) as int) * (pow2((g - l) as nat) as int) == pow2(g) as int);
}

/// Two equal remainders by `pow2(g)` of values below `pow2(g)` mean the
/// values are equal.
proof fn lemma_pow2_mod_small_eq(i: int, j: int, g: nat)
    requires
        0 <= i < pow2(g),
        0 <= j < pow2(g),
        i % (pow2(g) as int) == j % (pow2(g) as int),
    ensures
        i == j,
{
    vstd::arithmetic::div_mod::lemma_small_mod(i as nat, pow2(g));
    vstd::arithmetic::div_mod::lemma_small_mod(j as nat, pow2(g));
}

impl<R: Replacer, D: DiskManager, H: HasherBuilder> ExtendibleHashTable<R, D, H> {
    /// Read the doubled directory's characterization at one ordinary slot.
    proof fn double_char_at(
        g: u32,
        ls: Seq<u8>,
        ps: Seq<PageId>,
        l2: Seq<u8>,
        p2: Seq<PageId>,
        idx: int,
        m: int,
    )
        requires
            0 <= idx < pow2(g as nat),
            0 <= m < 2 * pow2(g as nat),
            m != idx,
            m != idx + pow2(g as nat),
            forall|k: int|
                0 <= k < pow2(g as nat) && k != idx ==> (#[trigger] l2[k]) == ls[k] && p2[k]
                    == ps[k],
            forall|k: int|
                pow2(g as nat) <= k < 2 * pow2(g as nat) && k != idx + pow2(g as nat) ==> (
                #[trigger] l2[k]) == ls[k - pow2(g as nat)] && p2[k] == ps[k - pow2(g as nat)],
        ensures
            m < pow2(g as nat) ==> l2[m] == ls[m] && p2[m] == ps[m],
            m >= pow2(g as nat) ==> l2[m] == ls[m - pow2(g as nat)] && p2[m] == ps[m - pow2(
                g as nat,
            )],
    {
        if m < pow2(g as nat) {
            assert(l2[m] == ls[m] && p2[m] == ps[m]);
        } else {
            assert(l2[m] == ls[m - pow2(g as nat)] && p2[m] == ps[m - pow2(g as nat)]);
        }
    }

    /// Apply the first sibling clause at a concrete pair of slots.
    proof fn siblings_same(g: u32, ls: Seq<u8>, ps: Seq<PageId>, i: int, j: int)
        requires
            Self::dir_siblings_ok(g, ls, ps),
            0 <= i < pow2(g as nat),
            0 <= j < pow2(g as nat),
            i % (pow2(ls[i] as nat) as int) == j % (pow2(ls[i] as nat) as int),
        ensures
            ps[j] == ps[i],
            ls[j] == ls[i],
    {
        assert(ps[i] == ps[i]);
        assert(ps[j] == ps[j]);
    }

    /// Apply the second sibling clause at a concrete pair of slots.
    proof fn siblings_distinct(g: u32, ls: Seq<u8>, ps: Seq<PageId>, i: int, j: int)
        requires
            Self::dir_siblings_ok(g, ls, ps),
            0 <= i < pow2(g as nat),
            0 <= j < pow2(g as nat),
            ps[i] == ps[j],
        ensures
            i % (pow2(ls[i] as nat) as int) == j % (pow2(ls[i] as nat) as int),
    {
        assert(ps[i] == ps[i]);
        assert(ps[j] == ps[j]);
    }

    /// Doubling the directory while splitting the bucket of slot `idx`
    /// preserves the sibling invariants: the upper half mirrors the
    /// lower, and the split pair alone uses the new depth.
    #[verifier::rlimit(100)]
    #[verifier::spinoff_prover]
    proof fn lemma_split_double_siblings(
        g: u32,
        ls: Seq<u8>,
        ps: Seq<PageId>,
        l2: Seq<u8>,
        p2: Seq<PageId>,
        idx: int,
        newp: PageId,
    )
        requires
            g < MAX_GLOBAL_DEPTH,
            Self::dir_ok(g, ls, ps),
            Self::dir_siblings_ok(g, ls, ps),
            ls.len() == DIRECTORY_ARRAY_SIZE,
            ps.len() == DIRECTORY_ARRAY_SIZE,
            l2.len() == DIRECTORY_ARRAY_SIZE,
            p2.len() == DIRECTORY_ARRAY_SIZE,
            0 <= idx < pow2(g as nat),
            ls[idx] == g as u8,
            forall|m: int| 0 <= m < pow2(g as nat) ==> (#[trigger] ps[m]) != newp,
            forall|m: int|
                0 <= m < pow2(g as nat) && m != idx ==> (#[trigger] l2[m]) == ls[m] && p2[m]
                    == ps[m],
            forall|m: int|
                pow2(g as nat) <= m < 2 * pow2(g as nat) && m != idx + pow2(g as nat) ==> (
                #[trigger] l2[m]) == ls[m - pow2(g as nat)] && p2[m] == ps[m - pow2(g as nat)],
            l2[idx] == (g + 1) as u8,
            l2[idx + pow2(g as nat)] == (g + 1) as u8,
            p2[idx] == ps[idx],
            p2[idx + pow2(g as nat)] == newp,
        ensures
            Self::dir_ok((g + 1) as u32, l2, p2),
            Self::dir_siblings_ok((g + 1) as u32, l2, p2),
    {
        let b = pow2(g as nat) as int;
        vstd::arithmetic::power2::lemma_pow2_unfold((g + 1) as nat);
        assert(pow2((g + 1) as nat) as int == 2 * b);
        vstd::arithmetic::power2::lemma_pow2_pos(g as nat);
        assert forall|i: int|
            0 <= i < pow2((g + 1) as nat) implies (#[trigger] l2[i]) <= g + 1 by {
            if i != idx && i != idx + b {
                if i < b {
                    assert(l2[i] == ls[i]);
                } else {
                    assert(l2[i] == ls[i - b]);
                }
            }
        }
        assert forall|i: int, j: int|
            #![trigger p2[i], p2[j]]
            0 <= i < 2 * b && 0 <= j < 2 * b && i % (pow2(l2[i] as nat) as int) == j % (pow2(
                l2[i] as nat,
            ) as int) implies p2[j] == p2[i] && l2[j] == l2[i] by {
            if i == idx || i == idx + b {
                assert(l2[i] == (g + 1) as u8);
                lemma_pow2_mod_small_eq(i, j, (g + 1) as nat);
            } else {
                let i0 = if i < b {
                    i
                } else {
                    i - b
                };
                let j0 = if j < b {
                    j
                } else {
                    j - b
                };
                let l = ls[i0] as nat;
                assert(l2[i] == ls[i0] && p2[i] == ps[i0]);
                assert(l <= g);
                assert(0 <= i0 < b && 0 <= j0 < b);
                if i >= b {
                    lemma_pow2_add_mod(i0, l, g as nat);
                }
                if j >= b {
                    lemma_pow2_add_mod(j0, l, g as nat);
                }
                assert(i % (pow2(l) as int) == i0 % (pow2(l) as int));
                assert(j % (pow2(l) as int) == j0 % (pow2(l) as int));
                assert(i0 % (pow2(ls[i0] as nat) as int) == j0 % (pow2(ls[i0] as nat) as int));
                Self::siblings_same(g, ls, ps, i0, j0);
                assert(ps[j0] == ps[i0] && ls[j0] == ls[i0]);
                if j0 == idx {
                    assert(ls[idx] == g as u8);
                    assert(l == g);
                    lemma_pow2_mod_small_eq(i0, idx, g as nat);
                    assert(false);
                }
                assert(j != idx && j != idx + b);
                Self::double_char_at(g, ls, ps, l2, p2, idx, j);
                assert(p2[j] == ps[j0] && l2[j] == ls[j0]);
            }
        }
        assert forall|i: int, j: int|
            #![trigger p2[i], p2[j]]
            0 <= i < 2 * b && 0 <= j < 2 * b && p2[i] == p2[j] implies i % (pow2(
                l2[i] as nat,
            ) as int) == j % (pow2(l2[i] as nat) as int) by {
            if p2[i] == newp {
                assert(i == idx + b) by {
                    if i != idx + b {
                        if i == idx {
                            assert(p2[i] == ps[idx]);
                        } else if i < b {
                            assert(p2[i] == ps[i]);
                        } else {
                            assert(p2[i] == ps[i - b]);
                        }
                        assert(false);
                    }
                }
                assert(j == idx + b) by {
                    if j != idx + b {
                        if j == idx {
                            assert(p2[j] == ps[idx]);
                        } else if j < b {
                            assert(p2[j] == ps[j]);
                        } else {
                            assert(p2[j] == ps[j - b]);
                        }
                        assert(false);
                    }
                }
            } else {
                let i0 = if i == idx + b {
                    idx
                } else if i < b {
                    i
                } else {
                    i - b
                };
                let j0 = if j == idx + b {
                    idx
                } else if j < b {
                    j
                } else {
                    j - b
                };
                assert(p2[i] == ps[i0] && p2[j] == ps[j0]);
                assert(ps[i0] == ps[j0]);
                if i == idx || i == idx + b {
                    assert(i0 == idx);
                    Self::siblings_distinct(g, ls, ps, idx, j0);
                    lemma_pow2_mod_small_eq(idx, j0, g as nat);
                    assert(j0 == idx);
                    assert(j == idx || j == idx + b);
                    if i == idx + b {
                        assert(p2[i] == newp);
                        assert(false);
                    }
                    if j == idx + b {
                        assert(p2[j] == newp);
                        assert(false);
                    }
                    assert(i == idx && j == idx);
                } else {
                    let l = ls[i0] as nat;
                    assert(l2[i] == ls[i0]);
                    assert(l <= g);
                    Self::siblings_distinct(g, ls, ps, i0, j0);
                    assert(i0 % (pow2(l) as int) == j0 % (pow2(l) as int));
                    if j0 == idx {
                        Self::siblings_same(g, ls, ps, i0, idx);
                        assert(ls[idx] == ls[i0]);
                        assert(l == g);
                        lemma_pow2_mod_small_eq(i0, idx, g as nat);
                        assert(false);
                    }
                    if i >= b {
                        lemma_pow2_add_mod(i0, l, g as nat);
                    }
                    if j >= b {
                        lemma_pow2_add_mod(j0, l, g as nat);
                    }
                }
            }
        }
    }

    /// Splitting a bucket without doubling preserves the sibling
    /// invariants: every sibling slot is deepened by one bit, and those
    /// whose new bit is set are repointed to the fresh bucket.
    #[verifier::rlimit(100)]
    #[verifier::spinoff_prover]
    proof fn lemma_split_same_siblings(
        g: u32,
        ls: Seq<u8>,
        ps: Seq<PageId>,
        l2: Seq<u8>,
        p2: Seq<PageId>,
        idx: int,
        newp: PageId,
    )
        requires
            g <= MAX_GLOBAL_DEPTH,
            Self::dir_ok(g, ls, ps),
            Self::dir_siblings_ok(g, ls, ps),
            ls.len() == DIRECTORY_ARRAY_SIZE,
            ps.len() == DIRECTORY_ARRAY_SIZE,
            l2.len() == DIRECTORY_ARRAY_SIZE,
            p2.len() == DIRECTORY_ARRAY_SIZE,
            0 <= idx < pow2(g as nat),
            (ls[idx] as nat) < g as nat,
            forall|m: int| 0 <= m < pow2(g as nat) ==> (#[trigger] ps[m]) != newp,
            forall|m: int|
                0 <= m < pow2(g as nat) ==> (#[trigger] l2[m]) == (if m % (pow2(
                    ls[idx] as nat,
                ) as int) == idx % (pow2(ls[idx] as nat) as int) {
                    (ls[idx] + 1) as u8
                } else {
                    ls[m]
                }),
            forall|m: int|
                0 <= m < pow2(g as nat) ==> (#[trigger] p2[m]) == (if m % (pow2(
                    ls[idx] as nat,
                ) as int) == idx % (pow2(ls[idx] as nat) as int) && (m / (pow2(
                    ls[idx] as nat,
                ) as int)) % 2 == 1 {
                    newp
                } else {
                    ps[m]
                }),
        ensures
            Self::dir_ok(g, l2, p2),
            Self::dir_siblings_ok(g, l2, p2),
    {
        let l = ls[idx] as nat;
        let c = pow2(l) as int;
        let c2 = pow2((l + 1) as nat) as int;
        let nb = pow2(g as nat) as int;
        vstd::arithmetic::power2::lemma_pow2_unfold((l + 1) as nat);
        vstd::arithmetic::power2::lemma_pow2_pos(l);
        assert(c2 == 2 * c);
        // An entry shares the split bucket exactly when it is a sibling.
        assert forall|m: int|
            0 <= m < nb && ps[m] == ps[idx] implies m % c == idx % c by {
            Self::siblings_distinct(g, ls, ps, m, idx);
            assert(m % (pow2(ls[m] as nat) as int) == idx % (pow2(ls[m] as nat) as int));
            Self::siblings_same(g, ls, ps, m, idx);
            assert(ls[idx] == ls[m]);
        }
        assert forall|m: int| 0 <= m < nb && m % c == idx % c implies ps[m] == ps[idx] && ls[m]
            == ls[idx] by {
            assert(idx % (pow2(ls[idx] as nat) as int) == m % (pow2(ls[idx] as nat) as int));
            Self::siblings_same(g, ls, ps, idx, m);
        }
        // Remainders by the doubled cycle split by the parity bit.
        assert forall|m: int| 0 <= m < nb implies #[trigger] (m % c2) == c * ((m / c) % 2) + m
            % c by {
            vstd::arithmetic::div_mod::lemma_mod_breakdown(m, c, 2);
        }
        assert forall|i: int|
            0 <= i < pow2(g as nat) implies (#[trigger] l2[i]) <= g by {}
        assert forall|i: int, j: int|
            #![trigger p2[i], p2[j]]
            0 <= i < nb && 0 <= j < nb && i % (pow2(l2[i] as nat) as int) == j % (pow2(
                l2[i] as nat,
            ) as int) implies p2[j] == p2[i] && l2[j] == l2[i] by {
            if i % c == idx % c {
                assert(l2[i] == (ls[idx] + 1) as u8);
                assert(i % c2 == j % c2);
                lemma_pow2_mod_mod(i, l, (l + 1) as nat);
                lemma_pow2_mod_mod(j, l, (l + 1) as nat);
                assert(i % c == j % c);
                assert(c * ((i / c) % 2) + i % c == i % c2);
                assert(c * ((j / c) % 2) + j % c == j % c2);
                assert((i / c) % 2 == (j / c) % 2) by (nonlinear_arith)
                    requires
                        c > 0,
                        c * ((i / c) % 2) + i % c == c * ((j / c) % 2) + j % c,
                        i % c == j % c,
                ;
            } else {
                assert(l2[i] == ls[i]);
                Self::siblings_same(g, ls, ps, i, j);
                assert(ps[j] == ps[i] && ls[j] == ls[i]);
                if j % c == idx % c {
                    assert(ps[j] == ps[idx]);
                    assert(ps[i] == ps[idx]);
                    assert(i % c == idx % c);
                    assert(false);
                }
            }
        }
        assert forall|i: int, j: int|
            #![trigger p2[i], p2[j]]
            0 <= i < nb && 0 <= j < nb && p2[i] == p2[j] implies i % (pow2(l2[i] as nat) as int)
                == j % (pow2(l2[i] as nat) as int) by {
            if p2[i] == newp {
                assert(i % c == idx % c && (i / c) % 2 == 1);
                assert(j % c == idx % c && (j / c) % 2 == 1);
                assert(l2[i] == (ls[idx] + 1) as u8);
                assert(i % c2 == j % c2);
            } else if i % c == idx % c {
                assert((i / c) % 2 != 1);
                assert(p2[i] == ps[i]);
                assert(ps[i] == ps[idx]);
                assert(p2[j] == ps[idx]);
                if j % c == idx % c {
                    if (j / c) % 2 == 1 {
                        assert(p2[j] == newp);
                        assert(ps[idx] != newp);
                        assert(false);
                    }
                } else {
                    assert(p2[j] == ps[j]);
                    assert(j % c == idx % c);
                    assert(false);
                }
                assert(l2[i] == (ls[idx] + 1) as u8);
                assert(i % c2 == j % c2);
            } else {
                assert(p2[i] == ps[i]);
                assert(l2[i] == ls[i]);
                if j % c == idx % c {
                    if (j / c) % 2 == 1 {
                        assert(p2[j] == newp);
                        assert(ps[i] != newp);
                        assert(false);
                    } else {
                        assert(p2[j] == ps[j] && ps[j] == ps[idx]);
                        assert(ps[i] == ps[idx]);
                        assert(i % c == idx % c);
                        assert(false);
                    }
                }
                assert(p2[j] == ps[j]);
                Self::siblings_distinct(g, ls, ps, i, j);
                assert(i % (pow2(ls[i] as nat) as int) == j % (pow2(ls[i] as nat) as int));
            }
        }
    }

    /// Law: inserting a pair that was absent, into a bucket with room,
    /// leaves exactly one occurrence of the value under the key. Paired
    /// with `insert`'s contract (an insert of a stored pair returns
    /// `false` and changes nothing), inserting the same pair twice
    /// returns `true` then `false` and stores the pair once.
    pub proof fn lemma_insert_adds_exactly_one(o: &Self, n: &Self, key: u64, value: u64)
        requires
            !o.contains_kv(key, value),
            exists|i: int|
                0 <= i < KV_NUM && o.bucket_slots_of(key)[i] is None && n.bucket_slots_of(key)
                    == o.bucket_slots_of(key).update(i, Some((key, value))),
        ensures
            n.lookup(key).to_multiset() == o.lookup(key).to_multiset().insert(value),
            n.lookup(key).to_multiset().count(value) == 1,
            n.contains_kv(key, value),
    {
        broadcast use vstd::seq_lib::group_to_multiset_ensures;

        let i = choose|i: int|
            0 <= i < KV_NUM && o.bucket_slots_of(key)[i] is None && n.bucket_slots_of(key)
                == o.bucket_slots_of(key).update(i, Some((key, value)));
        crate::bucket_page::lemma_values_update_insert(o.bucket_slots_of(key), i, key, value);
        crate::bucket_page::lemma_no_kv_count_zero(o.bucket_slots_of(key), key, value);
        assert(n.bucket_slots_of(key)[i] == Some((key, value)));
    }

    /// Law: removing a pair whose value is stored exactly once leaves
    /// the key's values without that value. Paired with `insert`'s and
    /// `remove`'s contracts, an insert of a fresh pair followed by its
    /// removal returns `true` twice and the lookup then excludes the
    /// value.
    pub proof fn lemma_remove_drops_value(o: &Self, n: &Self, key: u64, value: u64)
        requires
            o.lookup(key).to_multiset().count(value) == 1,
            exists|i: int|
                0 <= i < KV_NUM && o.bucket_slots_of(key)[i] == Some((key, value))
                    && n.bucket_slots_of(key) == o.bucket_slots_of(key).update(i, None),
        ensures
            n.lookup(key).to_multiset() == o.lookup(key).to_multiset().remove(value),
            n.lookup(key).to_multiset().count(value) == 0,
            !n.lookup(key).contains(value),
    {
        broadcast use vstd::seq_lib::group_to_multiset_ensures;

        let i = choose|i: int|
            0 <= i < KV_NUM && o.bucket_slots_of(key)[i] == Some((key, value))
                && n.bucket_slots_of(key) == o.bucket_slots_of(key).update(i, None);
        crate::bucket_page::lemma_values_update_remove(o.bucket_slots_of(key), i, key, value);
        assert(!n.lookup(key).contains(value)) by {
            n.lookup(key).to_multiset_ensures();
            if n.lookup(key).contains(value) {
                assert(n.lookup(key).to_multiset().count(value) > 0);
            }
        }
    }
}

/// A slot sequence with no live entry stores no values.
proof fn lemma_values_of_all_none(s: Seq<Option<(u64, u64)>>, key: u64)
    requires
        forall|i: int| 0 <= i < s.len() ==> s[i] is None,
    ensures
        values_of(s, key) == Seq::<u64>::empty(),
    decreases s.len(),
{
    if s.len() > 0 {
        lemma_values_of_all_none(s.drop_last(), key);
    }
}

} // verus!
