//! A hash table bucket page: a bitmap of occupied slots and a fixed
//! array of key/value pairs, stored as one page-sized byte image.

use vstd::prelude::*;

use crate::disk::PAGE_SIZE;

verus! {

/// Bytes of the occupancy bitmap: one bit per slot. Eight slots of
/// 64-bit keys and values cost `8 * (8 + 8) + 1` bytes, and
/// `PAGE_SIZE / 129` of those groups fit in a page, giving 31.
pub const BYTE_NUM: usize = 31;

/// Number of key/value slots per bucket.
pub const KV_NUM: usize = BYTE_NUM * 8;

/// Unused trailing bytes of the page image.
pub const BLANK_SIZE: usize = PAGE_SIZE - (8 + 8) * KV_NUM - BYTE_NUM;

/// Byte offset of the key/value array in the page image.
pub const KVS_OFFSET: usize = BYTE_NUM;

/// The sizing rules of the bucket layout, kept as named constants.
pub struct Tool;

/// What a bucket insert did.
pub enum InertResult {
    Success,
    Duplicate,
    Full,
}

/// A bucket of the extendible hash table, as interpreted from and
/// written to a page image.
pub struct HashTableBucketPage {
    /// Bit `i % 8` of byte `i / 8` is set iff slot `i` holds a live pair.
    pub readable: Vec<u8>,
    /// The key/value pairs; a slot whose bit is clear holds stale bytes.
    pub kvs: Vec<(u64, u64)>,
}

/// Whether bit `i % 8` of byte `i / 8` is set in the bitmap.
pub open spec fn spec_bit_set(readable: Seq<u8>, i: int) -> bool {
    readable[i / 8] & (1u8 << ((i % 8) as u8)) != 0
}

/// Setting one bit sets exactly that bit.
proof fn lemma_or_bit(b: u8, k: u8, j: u8)
    requires
        k < 8,
        j < 8,
    ensures
        ((b | (1u8 << k)) & (1u8 << j) != 0) <==> (j == k || (b & (1u8 << j) != 0)),
{
    assert(k < 8 && j < 8 ==> (((b | (1u8 << k)) & (1u8 << j) != 0) <==> (j == k || (b & (1u8
        << j) != 0)))) by (bit_vector);
}

/// Clearing one bit clears exactly that bit.
proof fn lemma_andnot_bit(b: u8, k: u8, j: u8)
    requires
        k < 8,
        j < 8,
    ensures
        ((b & !(1u8 << k)) & (1u8 << j) != 0) <==> (j != k && (b & (1u8 << j) != 0)),
{
    assert(k < 8 && j < 8 ==> (((b & !(1u8 << k)) & (1u8 << j) != 0) <==> (j != k && (b & (1u8
        << j) != 0)))) by (bit_vector);
}

/// The slot array a bucket represents: a live pair or nothing, per slot.
pub open spec fn spec_slots(readable: Seq<u8>, kvs: Seq<(u64, u64)>) -> Seq<Option<(u64, u64)>> {
    Seq::new(
        KV_NUM as nat,
        |i: int|
            if spec_bit_set(readable, i) {
                Some(kvs[i])
            } else {
                None
            },
    )
}

/// The values stored under `key`, in slot order.
pub open spec fn values_of(s: Seq<Option<(u64, u64)>>, key: u64) -> Seq<u64>
    decreases s.len(),
{
    if s.len() == 0 {
        Seq::empty()
    } else {
        let rest = values_of(s.drop_last(), key);
        match s.last() {
            Some(kv) => if kv.0 == key {
                rest.push(kv.1)
            } else {
                rest
            },
            None => rest,
        }
    }
}

/// Whether the pair `(key, value)` is live in the slots.
pub open spec fn has_kv(s: Seq<Option<(u64, u64)>>, key: u64, value: u64) -> bool {
    exists|i: int| 0 <= i < s.len() && s[i] == Some((key, value))
}

/// Whether some slot is empty.
pub open spec fn has_empty(s: Seq<Option<(u64, u64)>>) -> bool {
    exists|i: int| 0 <= i < s.len() && s[i] is None
}

impl HashTableBucketPage {
    pub open spec fn wf(&self) -> bool {
        &&& self.readable@.len() == BYTE_NUM
        &&& self.kvs@.len() == KV_NUM
    }

    /// The slot array this bucket represents.
    pub open spec fn slots(&self) -> Seq<Option<(u64, u64)>> {
        spec_slots(self.readable@, self.kvs@)
    }

    /// A fresh bucket with every slot empty.
    pub fn new() -> (r: Self)
        ensures
            r.wf(),
            forall|i: int| 0 <= i < KV_NUM ==> r.slots()[i] is None,
    {
        let mut readable: Vec<u8> = Vec::new();
        let mut i: usize = 0;
        while i < BYTE_NUM
            invariant
                i <= BYTE_NUM,
                readable@.len() == i,
                forall|j: int| 0 <= j < i ==> readable@[j] == 0,
            decreases BYTE_NUM - i,
        {
            readable.push(0);
            i += 1;
        }
        let mut kvs: Vec<(u64, u64)> = Vec::new();
        let mut i: usize = 0;
        while i < KV_NUM
            invariant
                i <= KV_NUM,
                kvs@.len() == i,
            decreases KV_NUM - i,
        {
            kvs.push((0, 0));
            i += 1;
        }
        let r = HashTableBucketPage { readable, kvs };
        proof {
            assert forall|i: int| 0 <= i < KV_NUM implies r.slots()[i] is None by {
                assert(r.readable@[i / 8] == 0);
                let k = (i % 8) as u8;
                assert(0u8 & (1u8 << k) == 0) by (bit_vector);
            }
        }
        r
    }

    /// Whether slot `index` holds a live pair.
    pub fn is_readable(&self, index: usize) -> (r: bool)
        requires
            self.wf(),
            index < KV_NUM,
        ensures
            r == (self.slots()[index as int] is Some),
    {
        self.readable[index / 8] & (1u8 << ((index % 8) as u8)) != 0
    }

    /// All values stored under `key`, in slot order.
    pub fn get_value(&self, key: u64) -> (r: Vec<u64>)
        requires
            self.wf(),
        ensures
            r@ == values_of(self.slots(), key),
    {
        let mut result: Vec<u64> = Vec::new();
        let mut i: usize = 0;
        while i < KV_NUM
            invariant
                self.wf(),
                i <= KV_NUM,
                result@ == values_of(self.slots().take(i as int), key),
            decreases KV_NUM - i,
        {
            proof {
                assert(self.slots().take(i + 1).drop_last() =~= self.slots().take(i as int));
                assert(self.slots().take(i + 1).last() == self.slots()[i as int]);
            }
            if self.is_readable(i) && self.kvs[i].0 == key {
                result.push(self.kvs[i].1);
            }
            i += 1;
        }
        proof {
            assert(self.slots().take(KV_NUM as int) =~= self.slots());
        }
        result
    }

    /// Insert a pair at the first empty slot. An exact duplicate pair is
    /// refused; a bucket with no empty slot is full.
    pub fn insert(&mut self, key: u64, value: u64) -> (r: InertResult)
        requires
            old(self).wf(),
        ensures
            final(self).wf(),
            (r is Duplicate) <==> has_kv(old(self).slots(), key, value),
            (r is Full) <==> (!has_kv(old(self).slots(), key, value) && !has_empty(
                old(self).slots(),
            )),
            (r is Duplicate || r is Full) ==> *final(self) == *old(self),
            (r is Success) ==> exists|i: int|
                0 <= i < KV_NUM && old(self).slots()[i] is None && (forall|j: int|
                    0 <= j < i ==> old(self).slots()[j] is Some) && final(self).slots() == old(
                    self,
                ).slots().update(i, Some((key, value))),
    {
        let mut is_full = true;
        let mut first_empty_index: usize = 0;
        let mut i: usize = 0;
        while i < KV_NUM
            invariant
                self.wf(),
                self == old(self),
                i <= KV_NUM,
                forall|j: int| 0 <= j < i ==> self.slots()[j] != Some((key, value)),
                !is_full ==> first_empty_index < i && self.slots()[first_empty_index as int]
                    is None && (forall|j: int|
                    0 <= j < first_empty_index ==> self.slots()[j] is Some),
                is_full ==> forall|j: int| 0 <= j < i ==> self.slots()[j] is Some,
            ensures
                self == old(self),
                i <= KV_NUM,
                forall|j: int| 0 <= j < i ==> self.slots()[j] != Some((key, value)),
                !is_full ==> first_empty_index < i && self.slots()[first_empty_index as int]
                    is None && (forall|j: int|
                    0 <= j < first_empty_index ==> self.slots()[j] is Some),
                is_full ==> forall|j: int| 0 <= j < i ==> self.slots()[j] is Some,
                i < KV_NUM ==> self.slots()[i as int] == Some((key, value)),
            decreases KV_NUM - i,
        {
            if self.is_readable(i) {
                if self.kvs[i].0 == key && self.kvs[i].1 == value {
                    proof {
                        assert(self.slots()[i as int] == Some((key, value)));
                    }
                    break;
                }
            } else if is_full {
                is_full = false;
                first_empty_index = i;
            }
            i += 1;
        }
        if i < KV_NUM {
            proof {
                assert(has_kv(self.slots(), key, value));
            }
            return InertResult::Duplicate;
        }
        if is_full {
            proof {
                assert forall|j: int| 0 <= j < KV_NUM implies self.slots()[j] is Some by {}
                if has_empty(self.slots()) {
                    let j = choose|j: int| 0 <= j < KV_NUM && self.slots()[j] is None;
                    assert(false);
                }
                if has_kv(self.slots(), key, value) {
                    let j = choose|j: int|
                        0 <= j < KV_NUM && self.slots()[j] == Some((key, value));
                    assert(false);
                }
            }
            return InertResult::Full;
        }
        let ghost pre = *self;
        self.kvs[first_empty_index] = (key, value);
        self.readable[first_empty_index / 8] = self.readable[first_empty_index / 8] | (1u8 << ((
        first_empty_index % 8) as u8));
        proof {
            let fi = first_empty_index as int;
            assert forall|j: int| 0 <= j < KV_NUM implies final(self).slots()[j] == pre.slots(
            ).update(fi, Some((key, value)))[j] by {
                lemma_or_bit(
                    pre.readable@[fi / 8],
                    (fi % 8) as u8,
                    (j % 8) as u8,
                );
                if j != fi {
                    if j / 8 == fi / 8 {
                        assert((j % 8) != (fi % 8));
                    } else {
                        assert(final(self).readable@[j / 8] == pre.readable@[j / 8]);
                    }
                }
            }
            assert(final(self).slots() =~= pre.slots().update(fi, Some((key, value))));
            if has_kv(pre.slots(), key, value) {
                let j = choose|j: int| 0 <= j < KV_NUM && pre.slots()[j] == Some((key, value));
                assert(false);
            }
            assert(pre.slots()[fi] is None);
        }
        InertResult::Success
    }

    /// Fill one slot with a pair, marking it live.
    pub fn put_slot(&mut self, index: usize, key: u64, value: u64)
        requires
            old(self).wf(),
            index < KV_NUM,
        ensures
            final(self).wf(),
            final(self).slots() == old(self).slots().update(index as int, Some((key, value))),
    {
        self.kvs[index] = (key, value);
        self.readable[index / 8] = self.readable[index / 8] | (1u8 << ((index % 8) as u8));
        proof {
            let fi = index as int;
            assert forall|j: int| 0 <= j < KV_NUM implies final(self).slots()[j] == old(
                self,
            ).slots().update(fi, Some((key, value)))[j] by {
                lemma_or_bit(old(self).readable@[fi / 8], (fi % 8) as u8, (j % 8) as u8);
                if j != fi {
                    if j / 8 == fi / 8 {
                        assert((j % 8) != (fi % 8));
                    } else {
                        assert(final(self).readable@[j / 8] == old(self).readable@[j / 8]);
                    }
                }
            }
            assert(final(self).slots() =~= old(self).slots().update(fi, Some((key, value))));
        }
    }

    /// Clear one slot, leaving its bytes in place.
    pub fn clear_slot(&mut self, index: usize)
        requires
            old(self).wf(),
            index < KV_NUM,
        ensures
            final(self).wf(),
            final(self).slots() == old(self).slots().update(index as int, None),
    {
        self.readable[index / 8] = self.readable[index / 8] & !(1u8 << ((index % 8) as u8));
        proof {
            let fi = index as int;
            assert forall|j: int| 0 <= j < KV_NUM implies final(self).slots()[j] == old(
                self,
            ).slots().update(fi, None)[j] by {
                lemma_andnot_bit(old(self).readable@[fi / 8], (fi % 8) as u8, (j % 8) as u8);
                if j != fi && j / 8 == fi / 8 {
                    assert((j % 8) != (fi % 8));
                }
            }
            assert(final(self).slots() =~= old(self).slots().update(fi, None));
        }
    }

    /// Remove the first live slot holding exactly `(key, value)`.
    pub fn remove(&mut self, key: u64, value: u64) -> (r: bool)
        requires
            old(self).wf(),
        ensures
            final(self).wf(),
            r <==> has_kv(old(self).slots(), key, value),
            !r ==> *final(self) == *old(self),
            r ==> exists|i: int|
                0 <= i < KV_NUM && old(self).slots()[i] == Some((key, value)) && (forall|j: int|
                    0 <= j < i ==> old(self).slots()[j] != Some((key, value)))
                    && final(self).slots() == old(self).slots().update(i, None),
    {
        let mut i: usize = 0;
        while i < KV_NUM
            invariant
                self.wf(),
                self == old(self),
                i <= KV_NUM,
                forall|j: int| 0 <= j < i ==> self.slots()[j] != Some((key, value)),
            decreases KV_NUM - i,
        {
            if self.is_readable(i) && self.kvs[i].0 == key && self.kvs[i].1 == value {
                let ghost pre = *self;
                proof {
                    assert(pre.slots()[i as int] == Some((key, value)));
                }
                self.readable[i / 8] = self.readable[i / 8] & !(1u8 << ((i % 8) as u8));
                proof {
                    let fi = i as int;
                    assert forall|j: int| 0 <= j < KV_NUM implies final(self).slots()[j]
                        == pre.slots().update(fi, None)[j] by {
                        lemma_andnot_bit(
                            pre.readable@[fi / 8],
                            (fi % 8) as u8,
                            (j % 8) as u8,
                        );
                        if j != fi && j / 8 == fi / 8 {
                            assert((j % 8) != (fi % 8));
                        }
                    }
                    assert(final(self).slots() =~= pre.slots().update(fi, None));
                }
                return true;
            }
            i += 1;
        }
        proof {
            if has_kv(self.slots(), key, value) {
                let j = choose|j: int| 0 <= j < KV_NUM && self.slots()[j] == Some((key, value));
                assert(false);
            }
        }
        false
    }

    /// Write the bucket out as a page image.
    pub fn serialize(&self) -> (r: Vec<u8>)
        requires
            self.wf(),
        ensures
            r@.len() == PAGE_SIZE,
            parse_bucket_readable(r@) == self.readable@,
            parse_bucket_kvs(r@) == self.kvs@,
    {
        proof {
            vstd::bytes::lemma_auto_spec_u64_to_from_le_bytes();
        }
        let mut out: Vec<u8> = Vec::new();
        let mut i: usize = 0;
        while i < BYTE_NUM
            invariant
                self.wf(),
                i <= BYTE_NUM,
                out@.len() == i,
                forall|j: int| 0 <= j < i ==> out@[j] == self.readable@[j],
            decreases BYTE_NUM - i,
        {
            out.push(self.readable[i]);
            i += 1;
        }
        let mut i: usize = 0;
        while i < KV_NUM
            invariant
                self.wf(),
                i <= KV_NUM,
                out@.len() == KVS_OFFSET + 16 * i,
                forall|j: int| 0 <= j < BYTE_NUM ==> out@[j] == self.readable@[j],
                forall|j: int|
                    0 <= j < i ==> out@.subrange(KVS_OFFSET + 16 * j, KVS_OFFSET + 16 * j + 8)
                        == vstd::bytes::spec_u64_to_le_bytes(self.kvs@[j].0) && out@.subrange(
                        KVS_OFFSET + 16 * j + 8,
                        KVS_OFFSET + 16 * j + 16,
                    ) == vstd::bytes::spec_u64_to_le_bytes(self.kvs@[j].1),
            decreases KV_NUM - i,
        {
            let ghost pre = out@;
            let mut kb = vstd::bytes::u64_to_le_bytes(self.kvs[i].0);
            out.append(&mut kb);
            let mut vb = vstd::bytes::u64_to_le_bytes(self.kvs[i].1);
            out.append(&mut vb);
            proof {
                assert forall|j: int|
                    0 <= j < i + 1 implies out@.subrange(
                    KVS_OFFSET + 16 * j,
                    KVS_OFFSET + 16 * j + 8,
                ) == vstd::bytes::spec_u64_to_le_bytes(self.kvs@[j].0) && out@.subrange(
                    KVS_OFFSET + 16 * j + 8,
                    KVS_OFFSET + 16 * j + 16,
                ) == vstd::bytes::spec_u64_to_le_bytes(self.kvs@[j].1) by {
                    if j < i {
                        assert(out@.subrange(KVS_OFFSET + 16 * j, KVS_OFFSET + 16 * j + 8)
                            =~= pre.subrange(KVS_OFFSET + 16 * j, KVS_OFFSET + 16 * j + 8));
                        assert(out@.subrange(KVS_OFFSET + 16 * j + 8, KVS_OFFSET + 16 * j + 16)
                            =~= pre.subrange(KVS_OFFSET + 16 * j + 8, KVS_OFFSET + 16 * j + 16));
                    } else {
                        assert(out@.subrange(KVS_OFFSET + 16 * j, KVS_OFFSET + 16 * j + 8)
                            =~= vstd::bytes::spec_u64_to_le_bytes(self.kvs@[j].0));
                        assert(out@.subrange(KVS_OFFSET + 16 * j + 8, KVS_OFFSET + 16 * j + 16)
                            =~= vstd::bytes::spec_u64_to_le_bytes(self.kvs@[j].1));
                    }
                }
            }
            i += 1;
        }
        let mut i: usize = KVS_OFFSET + 16 * KV_NUM;
        while i < PAGE_SIZE
            invariant
                self.wf(),
                KVS_OFFSET + 16 * KV_NUM <= i <= PAGE_SIZE,
                out@.len() == i,
                forall|j: int| 0 <= j < BYTE_NUM ==> out@[j] == self.readable@[j],
                forall|j: int|
                    0 <= j < KV_NUM ==> out@.subrange(KVS_OFFSET + 16 * j, KVS_OFFSET + 16 * j + 8)
                        == vstd::bytes::spec_u64_to_le_bytes(self.kvs@[j].0) && out@.subrange(
                        KVS_OFFSET + 16 * j + 8,
                        KVS_OFFSET + 16 * j + 16,
                    ) == vstd::bytes::spec_u64_to_le_bytes(self.kvs@[j].1),
            decreases PAGE_SIZE - i,
        {
            let ghost pre = out@;
            out.push(0u8);
            proof {
                assert forall|j: int|
                    0 <= j < KV_NUM implies out@.subrange(
                    KVS_OFFSET + 16 * j,
                    KVS_OFFSET + 16 * j + 8,
                ) == vstd::bytes::spec_u64_to_le_bytes(self.kvs@[j].0) && out@.subrange(
                    KVS_OFFSET + 16 * j + 8,
                    KVS_OFFSET + 16 * j + 16,
                ) == vstd::bytes::spec_u64_to_le_bytes(self.kvs@[j].1) by {
                    assert(out@.subrange(KVS_OFFSET + 16 * j, KVS_OFFSET + 16 * j + 8)
                        =~= pre.subrange(KVS_OFFSET + 16 * j, KVS_OFFSET + 16 * j + 8));
                    assert(out@.subrange(KVS_OFFSET + 16 * j + 8, KVS_OFFSET + 16 * j + 16)
                        =~= pre.subrange(KVS_OFFSET + 16 * j + 8, KVS_OFFSET + 16 * j + 16));
                }
            }
            i += 1;
        }
        proof {
            assert(parse_bucket_readable(out@) =~= self.readable@);
            assert(parse_bucket_kvs(out@) =~= self.kvs@);
        }
        out
    }

    /// Read a bucket back from a page image.
    pub fn deserialize(bytes: &Vec<u8>) -> (r: Self)
        requires
            bytes@.len() == PAGE_SIZE,
        ensures
            r.wf(),
            r.readable@ == parse_bucket_readable(bytes@),
            r.kvs@ == parse_bucket_kvs(bytes@),
    {
        let mut readable: Vec<u8> = Vec::new();
        let mut i: usize = 0;
        while i < BYTE_NUM
            invariant
                bytes@.len() == PAGE_SIZE,
                i <= BYTE_NUM,
                readable@.len() == i,
                forall|j: int| 0 <= j < i ==> readable@[j] == bytes@[j],
            decreases BYTE_NUM - i,
        {
            readable.push(bytes[i]);
            i += 1;
        }
        let mut kvs: Vec<(u64, u64)> = Vec::new();
        let mut i: usize = 0;
        while i < KV_NUM
            invariant
                bytes@.len() == PAGE_SIZE,
                i <= KV_NUM,
                kvs@.len() == i,
                forall|j: int|
                    0 <= j < i ==> kvs@[j] == (
                        vstd::bytes::spec_u64_from_le_bytes(
                            bytes@.subrange(KVS_OFFSET + 16 * j, KVS_OFFSET + 16 * j + 8),
                        ),
                        vstd::bytes::spec_u64_from_le_bytes(
                            bytes@.subrange(KVS_OFFSET + 16 * j + 8, KVS_OFFSET + 16 * j + 16),
                        ),
                    ),
            decreases KV_NUM - i,
        {
            let k = vstd::bytes::u64_from_le_bytes(
                vstd::slice::slice_subrange(
                    bytes.as_slice(),
                    KVS_OFFSET + 16 * i,
                    KVS_OFFSET + 16 * i + 8,
                ),
            );
            let v = vstd::bytes::u64_from_le_bytes(
                vstd::slice::slice_subrange(
                    bytes.as_slice(),
                    KVS_OFFSET + 16 * i + 8,
                    KVS_OFFSET + 16 * i + 16,
                ),
            );
            kvs.push((k, v));
            i += 1;
        }
        let r = HashTableBucketPage { readable, kvs };
        proof {
            assert(r.readable@ =~= parse_bucket_readable(bytes@));
            assert(r.kvs@ =~= parse_bucket_kvs(bytes@));
        }
        r
    }
}

/// The occupancy bitmap a page image holds.
pub open spec fn parse_bucket_readable(b: Seq<u8>) -> Seq<u8> {
    Seq::new(BYTE_NUM as nat, |i: int| b[i])
}

/// The key/value array a page image holds.
pub open spec fn parse_bucket_kvs(b: Seq<u8>) -> Seq<(u64, u64)> {
    Seq::new(
        KV_NUM as nat,
        |i: int|
            (
                vstd::bytes::spec_u64_from_le_bytes(
                    b.subrange(KVS_OFFSET + 16 * i, KVS_OFFSET + 16 * i + 8),
                ),
                vstd::bytes::spec_u64_from_le_bytes(
                    b.subrange(KVS_OFFSET + 16 * i + 8, KVS_OFFSET + 16 * i + 16),
                ),
            ),
    )
}

/// The slots a page image holds.
pub open spec fn parse_bucket_slots(b: Seq<u8>) -> Seq<Option<(u64, u64)>> {
    spec_slots(parse_bucket_readable(b), parse_bucket_kvs(b))
}

/// Number of live entries in a slot array.
pub open spec fn live_count(s: Seq<Option<(u64, u64)>>) -> nat
    decreases s.len(),
{
    if s.len() == 0 {
        0
    } else {
        live_count(s.drop_last()) + if s.last() is Some {
            1nat
        } else {
            0
        }
    }
}

/// Number of set bits among the low `k` bits of a bitmap byte.
pub open spec fn count_bits_upto(b: u8, k: nat) -> nat
    decreases k,
{
    if k == 0 {
        0
    } else {
        count_bits_upto(b, (k - 1) as nat) + if b & (1u8 << ((k - 1) as u8)) != 0 {
            1nat
        } else {
            0
        }
    }
}

/// Number of set bits in the first `j` bytes of a bitmap.
pub open spec fn bitmap_count(readable: Seq<u8>, j: nat) -> nat
    decreases j,
{
    if j == 0 {
        0
    } else {
        bitmap_count(readable, (j - 1) as nat) + count_bits_upto(readable[j - 1], 8)
    }
}

/// The set bits of the first `j` bytes and the low `k` bits of byte `j`
/// count the live entries among the first `8 j + k` slots.
proof fn lemma_bitmap_prefix(b: &HashTableBucketPage, j: nat, k: nat)
    requires
        b.wf(),
        j < BYTE_NUM || (j == BYTE_NUM && k == 0),
        k <= 8,
    ensures
        live_count(b.slots().take((8 * j + k) as int)) == bitmap_count(b.readable@, j) + (if j < BYTE_NUM {
            count_bits_upto(b.readable@[j as int], k)
        } else {
            0
        }),
    decreases j, k,
{
    if k == 0 {
        if j == 0 {
        } else {
            lemma_bitmap_prefix(b, (j - 1) as nat, 8);
        }
    } else {
        lemma_bitmap_prefix(b, j, (k - 1) as nat);
        let m = (8 * j + k - 1) as int;
        assert(b.slots().take((8 * j + k) as int).drop_last() =~= b.slots().take(m));
        assert(b.slots().take((8 * j + k) as int).last() == b.slots()[m]);
        assert(m / 8 == j && m % 8 == k - 1);
        assert(b.slots()[m] is Some <==> b.readable@[j as int] & (1u8 << ((k - 1) as u8)) != 0);
    }
}

/// Law: the number of set bits in the occupancy bitmap equals the
/// number of live entries of the bucket.
pub proof fn lemma_bitmap_counts_live(b: &HashTableBucketPage)
    requires
        b.wf(),
    ensures
        live_count(b.slots()) == bitmap_count(b.readable@, BYTE_NUM as nat),
{
    lemma_bitmap_prefix(b, BYTE_NUM as nat, 0);
    assert(b.slots().take((8 * (BYTE_NUM as nat) + 0) as int) =~= b.slots());
}

/// Filling an empty slot with `(key, value)` adds exactly one occurrence
/// of `value` under `key` and leaves every other key's values unchanged.
pub proof fn lemma_values_update_insert(s: Seq<Option<(u64, u64)>>, i: int, key: u64, value: u64)
    requires
        0 <= i < s.len(),
        s[i] is None,
    ensures
        values_of(s.update(i, Some((key, value))), key).to_multiset() == values_of(
            s,
            key,
        ).to_multiset().insert(value),
        forall|k2: u64| k2 != key ==> values_of(s.update(i, Some((key, value))), k2) == values_of(
            s,
            k2,
        ),
    decreases s.len(),
{
    broadcast use vstd::seq_lib::group_to_multiset_ensures;

    let s2 = s.update(i, Some((key, value)));
    if i == s.len() - 1 {
        assert(s2.drop_last() =~= s.drop_last());
        assert(values_of(s2, key) == values_of(s.drop_last(), key).push(value));
        assert(values_of(s, key) == values_of(s.drop_last(), key));
        assert forall|k2: u64| k2 != key implies values_of(s2, k2) == values_of(s, k2) by {
            assert(values_of(s2, k2) == values_of(s2.drop_last(), k2));
            assert(values_of(s, k2) == values_of(s.drop_last(), k2));
        }
    } else {
        assert(s2.drop_last() =~= s.drop_last().update(i, Some((key, value))));
        lemma_values_update_insert(s.drop_last(), i, key, value);
        assert(s2.last() == s.last());
        match s.last() {
            Some(kv) => {
                if kv.0 == key {
                    assert(values_of(s2, key) == values_of(s2.drop_last(), key).push(kv.1));
                    assert(values_of(s, key) == values_of(s.drop_last(), key).push(kv.1));
                    assert(values_of(s2, key).to_multiset() =~= values_of(
                        s,
                        key,
                    ).to_multiset().insert(value));
                }
            },
            None => {},
        }
        assert forall|k2: u64| k2 != key implies values_of(s2, k2) == values_of(s, k2) by {
            assert(values_of(s2.drop_last(), k2) == values_of(s.drop_last(), k2));
            match s.last() {
                Some(kv) => {
                    if kv.0 == k2 {
                        assert(values_of(s2, k2) == values_of(s2.drop_last(), k2).push(kv.1));
                        assert(values_of(s, k2) == values_of(s.drop_last(), k2).push(kv.1));
                    } else {
                        assert(values_of(s2, k2) == values_of(s2.drop_last(), k2));
                        assert(values_of(s, k2) == values_of(s.drop_last(), k2));
                    }
                },
                None => {
                    assert(values_of(s2, k2) == values_of(s2.drop_last(), k2));
                    assert(values_of(s, k2) == values_of(s.drop_last(), k2));
                },
            }
        }
    }
}

/// A stored pair contributes at least one occurrence of its value.
pub proof fn lemma_kv_count_pos(s: Seq<Option<(u64, u64)>>, i: int, key: u64, value: u64)
    requires
        0 <= i < s.len(),
        s[i] == Some((key, value)),
    ensures
        values_of(s, key).to_multiset().count(value) > 0,
    decreases s.len(),
{
    broadcast use vstd::seq_lib::group_to_multiset_ensures;

    if i == s.len() - 1 {
        assert(values_of(s, key) == values_of(s.drop_last(), key).push(value));
    } else {
        assert(s.drop_last()[i] == Some((key, value)));
        lemma_kv_count_pos(s.drop_last(), i, key, value);
        match s.last() {
            Some(kv) => {
                if kv.0 == key {
                    assert(values_of(s, key) == values_of(s.drop_last(), key).push(kv.1));
                }
            },
            None => {},
        }
    }
}

/// Clearing a slot holding `(key, value)` removes one occurrence of
/// `value` under `key` and leaves every other key's values unchanged.
pub proof fn lemma_values_update_remove(s: Seq<Option<(u64, u64)>>, i: int, key: u64, value: u64)
    requires
        0 <= i < s.len(),
        s[i] == Some((key, value)),
    ensures
        values_of(s.update(i, None), key).to_multiset() == values_of(
            s,
            key,
        ).to_multiset().remove(value),
        forall|k2: u64| k2 != key ==> values_of(s.update(i, None), k2) == values_of(s, k2),
    decreases s.len(),
{
    broadcast use vstd::seq_lib::group_to_multiset_ensures;

    let s2 = s.update(i, None);
    if i == s.len() - 1 {
        assert(s2.drop_last() =~= s.drop_last());
        assert(values_of(s2, key) == values_of(s.drop_last(), key));
        assert(values_of(s, key) == values_of(s.drop_last(), key).push(value));
        assert(values_of(s, key).to_multiset() == values_of(
            s.drop_last(),
            key,
        ).to_multiset().insert(value));
        assert(values_of(s2, key).to_multiset() =~= values_of(s, key).to_multiset().remove(
            value,
        ));
        assert forall|k2: u64| k2 != key implies values_of(s2, k2) == values_of(s, k2) by {
            assert(values_of(s2, k2) == values_of(s2.drop_last(), k2));
            assert(values_of(s, k2) == values_of(s.drop_last(), k2));
        }
    } else {
        assert(s2.drop_last() =~= s.drop_last().update(i, None));
        lemma_values_update_remove(s.drop_last(), i, key, value);
        assert(s2.last() == s.last());
        match s.last() {
            Some(kv) => {
                if kv.0 == key {
                    assert(values_of(s2, key) == values_of(s2.drop_last(), key).push(kv.1));
                    assert(values_of(s, key) == values_of(s.drop_last(), key).push(kv.1));
                    assert(s.drop_last()[i] == Some((key, value)));
                    lemma_kv_count_pos(s.drop_last(), i, key, value);
                    assert(values_of(s2, key).to_multiset() =~= values_of(
                        s,
                        key,
                    ).to_multiset().remove(value));
                }
            },
            None => {},
        }
        assert forall|k2: u64| k2 != key implies values_of(s2, k2) == values_of(s, k2) by {
            assert(values_of(s2.drop_last(), k2) == values_of(s.drop_last(), k2));
            match s.last() {
                Some(kv) => {
                    if kv.0 == k2 {
                        assert(values_of(s2, k2) == values_of(s2.drop_last(), k2).push(kv.1));
                        assert(values_of(s, k2) == values_of(s.drop_last(), k2).push(kv.1));
                    } else {
                        assert(values_of(s2, k2) == values_of(s2.drop_last(), k2));
                        assert(values_of(s, k2) == values_of(s.drop_last(), k2));
                    }
                },
                None => {
                    assert(values_of(s2, k2) == values_of(s2.drop_last(), k2));
                    assert(values_of(s, k2) == values_of(s.drop_last(), k2));
                },
            }
        }
    }
}

/// A pair that is not stored contributes no occurrence of its value.
pub proof fn lemma_no_kv_count_zero(s: Seq<Option<(u64, u64)>>, key: u64, value: u64)
    requires
        !has_kv(s, key, value),
    ensures
        values_of(s, key).to_multiset().count(value) == 0,
    decreases s.len(),
{
    broadcast use vstd::seq_lib::group_to_multiset_ensures;

    if s.len() > 0 {
        if has_kv(s.drop_last(), key, value) {
            let i = choose|i: int|
                0 <= i < s.drop_last().len() && s.drop_last()[i] == Some((key, value));
            assert(s[i] == Some((key, value)));
            assert(false);
        }
        lemma_no_kv_count_zero(s.drop_last(), key, value);
        match s.last() {
            Some(kv) => {
                if kv.0 == key {
                    assert(s[s.len() - 1] == Some((key, kv.1)));
                    assert(kv.1 != value);
                }
            },
            None => {},
        }
    }
}

} // verus!
