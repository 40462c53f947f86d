//! Victim selection for the buffer pool: a replacer tracks the evictable
//! frames of one pool instance and hands out the least recently unpinned one.

use vstd::prelude::*;

verus! {

/// Identifies a physical frame within one buffer pool instance.
#[derive(Clone, Copy, PartialEq, Eq, Structural, Debug)]
pub struct FrameId(pub usize);

/// Identifies a page of the backing store.
#[derive(Clone, Copy, PartialEq, Eq, Structural, Debug, Hash, Default)]
pub struct PageId(pub u32);

/// Chooses which unpinned frame to evict next.
///
/// The model is a queue of frame indices, least recently unpinned first.
pub trait Replacer: Sized {
    /// The evictable frames, in victim order (front is evicted first).
    spec fn queue(&self) -> Seq<usize>;

    /// How many distinct frames this replacer was built for.
    spec fn capacity(&self) -> nat;

    /// Internal well-formedness of the implementation.
    spec fn inv(&self) -> bool;

    fn new(pool_size: usize) -> (r: Self)
        ensures
            r.inv(),
            r.queue() == Seq::<usize>::empty(),
            r.capacity() == pool_size as nat,
    ;

    /// Remove and return the least recently unpinned frame, if any.
    fn victim(&mut self) -> (r: Option<FrameId>)
        requires
            old(self).inv(),
        ensures
            final(self).inv(),
            final(self).capacity() == old(self).capacity(),
            old(self).queue().len() == 0 ==> r is None && final(self).queue()
                == old(self).queue(),
            old(self).queue().len() > 0 ==> r == Some(FrameId(old(self).queue()[0]))
                && final(self).queue() == old(self).queue().drop_first(),
    ;

    /// Stop tracking a frame: it is no longer evictable. No-op if untracked.
    fn pin(&mut self, frame_id: FrameId)
        requires
            old(self).inv(),
            frame_id.0 < old(self).capacity(),
            old(self).queue().no_duplicates(),
        ensures
            final(self).inv(),
            final(self).capacity() == old(self).capacity(),
            old(self).queue().contains(frame_id.0) ==> exists|j: int|
                0 <= j < old(self).queue().len() && old(self).queue()[j] == frame_id.0
                    && final(self).queue() == old(self).queue().remove(j),
            !old(self).queue().contains(frame_id.0) ==> final(self).queue()
                == old(self).queue(),
    ;

    /// Mark a frame evictable, appending it at the back of the victim order.
    fn unpin(&mut self, frame_id: FrameId)
        requires
            old(self).inv(),
            frame_id.0 < old(self).capacity(),
            !old(self).queue().contains(frame_id.0),
        ensures
            final(self).inv(),
            final(self).capacity() == old(self).capacity(),
            final(self).queue() == old(self).queue().push(frame_id.0),
    ;

    /// Number of currently evictable frames.
    fn size(&self) -> (r: usize)
        requires
            self.inv(),
        ensures
            r == self.queue().len(),
    ;
}

/// LRU replacer: a queue of evictable frames in unpin order, with a
/// per-frame membership index for a constant-time tracked check.
pub struct LRUReplacer {
    /// Frame indices in victim order, least recently unpinned first.
    pub container: Vec<usize>,
    /// `index[f]` holds exactly when frame `f` is in `container`.
    pub index: Vec<bool>,
}

impl Replacer for LRUReplacer {
    open spec fn queue(&self) -> Seq<usize> {
        self.container@
    }

    open spec fn capacity(&self) -> nat {
        self.index@.len()
    }

    open spec fn inv(&self) -> bool {
        &&& self.container@.no_duplicates()
        &&& forall|i: int|
            0 <= i < self.container@.len() ==> self.container@[i] < self.index@.len()
        &&& forall|f: usize|
            f < self.index@.len() ==> (self.index@[f as int] <==> self.container@.contains(f))
    }

    fn new(pool_size: usize) -> (r: Self) {
        let mut index: Vec<bool> = Vec::new();
        let mut i: usize = 0;
        while i < pool_size
            invariant
                i <= pool_size,
                index@.len() == i,
                forall|f: int| 0 <= f < i ==> !index@[f],
            decreases pool_size - i,
        {
            index.push(false);
            i += 1;
        }
        LRUReplacer { container: Vec::new(), index }
    }

    fn victim(&mut self) -> (r: Option<FrameId>) {
        if self.container.len() == 0 {
            None
        } else {
            let frame = self.container.remove(0);
            self.index[frame] = false;
            proof {
                let oldq = old(self).container@;
                assert(oldq.remove(0) =~= oldq.drop_first());
                assert forall|f: usize|
                    f < self.index@.len() implies (self.index@[f as int]
                    <==> self.container@.contains(f)) by {
                    if f == frame {
                        if self.container@.contains(frame) {
                            let j = self.container@.index_of(frame);
                            assert(oldq[j + 1] == frame);
                            assert(oldq[0] == frame);
                        }
                    } else {
                        if oldq.contains(f) {
                            let j = oldq.index_of(f);
                            assert(j != 0);
                            assert(self.container@[j - 1] == f);
                        }
                        if self.container@.contains(f) {
                            let j = self.container@.index_of(f);
                            assert(oldq[j + 1] == f);
                        }
                    }
                }
            }
            Some(FrameId(frame))
        }
    }

    fn pin(&mut self, frame_id: FrameId) {
        if self.index[frame_id.0] {
            let mut i: usize = 0;
            while i < self.container.len()
                invariant
                    self == old(self),
                    self.inv(),
                    self.container@.contains(frame_id.0),
                    0 <= i <= self.container@.len(),
                    forall|j: int| 0 <= j < i ==> self.container@[j] != frame_id.0,
                ensures
                    self == old(self),
                    (i < self.container@.len() && self.container@[i as int] == frame_id.0) || (i
                        == self.container@.len() && forall|j: int|
                        0 <= j < i ==> self.container@[j] != frame_id.0),
                decreases self.container@.len() - i,
            {
                if self.container[i] == frame_id.0 {
                    break;
                }
                i += 1;
            }
            proof {
                if i == self.container@.len() {
                    let j = self.container@.index_of(frame_id.0);
                    assert(self.container@[j] == frame_id.0);
                    assert(false);
                }
            }
            let ghost target = i as int;
            let _ = self.container.remove(i);
            self.index[frame_id.0] = false;
            proof {
                let oldq = old(self).container@;
                assert(oldq[target] == frame_id.0);
                assert forall|f: usize|
                    f < self.index@.len() implies (self.index@[f as int]
                    <==> self.container@.contains(f)) by {
                    if f == frame_id.0 {
                        if self.container@.contains(frame_id.0) {
                            let j = self.container@.index_of(frame_id.0);
                            assert(self.container@[j] == frame_id.0);
                            if j < target {
                                assert(oldq[j] == frame_id.0);
                            } else {
                                assert(oldq[j + 1] == frame_id.0);
                            }
                            assert(false);
                        }
                    } else {
                        if oldq.contains(f) {
                            let j = oldq.index_of(f);
                            assert(oldq[j] == f);
                            assert(j != target);
                            if j < target {
                                assert(self.container@[j] == f);
                            } else {
                                assert(self.container@[j - 1] == f);
                            }
                        }
                        if self.container@.contains(f) {
                            let j = self.container@.index_of(f);
                            assert(self.container@[j] == f);
                            if j < target {
                                assert(oldq[j] == f);
                            } else {
                                assert(oldq[j + 1] == f);
                            }
                        }
                    }
                }
            }
        }
    }

    fn unpin(&mut self, frame_id: FrameId) {
        self.container.push(frame_id.0);
        self.index[frame_id.0] = true;
        proof {
            let oldq = old(self).container@;
            assert forall|f: usize|
                f < self.index@.len() implies (self.index@[f as int]
                <==> self.container@.contains(f)) by {
                if f == frame_id.0 {
                    assert(self.container@[oldq.len() as int] == frame_id.0);
                }
                if oldq.contains(f) {
                    let j = oldq.index_of(f);
                    assert(self.container@[j] == f);
                }
                if self.container@.contains(f) && f != frame_id.0 {
                    let j = self.container@.index_of(f);
                    assert(self.container@[j] == f);
                    assert(j != oldq.len());
                    assert(oldq[j] == f);
                }
            }
        }
    }

    fn size(&self) -> (r: usize) {
        self.container.len()
    }
}

} // verus!
