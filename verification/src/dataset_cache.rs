//! Fixed-capacity cache of equal-size byte buffers keyed by resource
//! identifier, with least-recently-used eviction driven by a logical clock.

use vstd::prelude::*;
use vstd::arithmetic::mul::*;
use vstd::pervasive::VecAdditionalExecFns;
use vstd::string::*;
use crate::uri_format::dec_digits;
use crate::uri_format::lemma_dec_digits_roundtrip;

verus! {

/// One cache slot: the key it is bound to, the byte offset of its buffer
/// in the backing storage, and the logical time of its last access.
pub struct CacheSlot {
    pub key: String,
    pub offset: usize,
    pub stamp: u64,
}

/// The first slot index bound to `key` at or after `from`, or `-1`.
pub open spec fn slot_find_from(slots: Seq<CacheSlot>, key: Seq<char>, from: int) -> int
    decreases slots.len() - from,
{
    if from < 0 || from >= slots.len() {
        -1
    } else if slots[from].key@ == key {
        from
    } else {
        slot_find_from(slots, key, from + 1)
    }
}

/// The slot index bound to `key`, or `-1` when `key` is not resident.
pub open spec fn spec_find(slots: Seq<CacheSlot>, key: Seq<char>) -> int {
    slot_find_from(slots, key, 0)
}

/// The index with the smallest stamp among the first `upto` slots,
/// earliest such index first.
pub open spec fn lru_best(slots: Seq<CacheSlot>, upto: int) -> int
    decreases upto,
{
    if upto <= 1 {
        0
    } else {
        let b = lru_best(slots, upto - 1);
        if slots[upto - 1].stamp < slots[b].stamp {
            upto - 1
        } else {
            b
        }
    }
}

/// The least-recently-used slot: smallest stamp, ties broken by the lowest
/// index.
pub open spec fn spec_lru(slots: Seq<CacheSlot>) -> int {
    lru_best(slots, slots.len() as int)
}

/// `lru_best` picks a minimal stamp among the first `upto` slots.
pub proof fn lemma_lru_best_min(slots: Seq<CacheSlot>, upto: int)
    requires
        1 <= upto <= slots.len(),
    ensures
        0 <= lru_best(slots, upto) < upto,
        forall|i: int|
            0 <= i < upto ==> slots[lru_best(slots, upto)].stamp <= #[trigger] slots[i].stamp,
    decreases upto,
{
    if upto > 1 {
        lemma_lru_best_min(slots, upto - 1);
    }
}

/// What a `slot_find_from` result means.
pub proof fn lemma_slot_find_props(slots: Seq<CacheSlot>, key: Seq<char>, from: int)
    requires
        0 <= from,
    ensures
        slot_find_from(slots, key, from) == -1 || slot_find_from(slots, key, from) >= from,
        slot_find_from(slots, key, from) == -1 ==> forall|j: int|
            from <= j < slots.len() ==> slots[j].key@ != key,
        slot_find_from(slots, key, from) >= 0 ==> {
            &&& from <= slot_find_from(slots, key, from) < slots.len()
            &&& slots[slot_find_from(slots, key, from)].key@ == key
            &&& forall|j: int|
                from <= j < slot_find_from(slots, key, from) ==> slots[j].key@ != key
        },
    decreases slots.len() - from,
{
    if from < slots.len() && slots[from].key@ != key {
        lemma_slot_find_props(slots, key, from + 1);
    }
}

/// The first slot bound to `key` determines `slot_find_from`.
pub proof fn lemma_slot_find_at(slots: Seq<CacheSlot>, key: Seq<char>, from: int, i: int)
    requires
        0 <= from <= i <= slots.len(),
        forall|j: int| from <= j < i ==> slots[j].key@ != key,
        i < slots.len() ==> slots[i].key@ == key,
    ensures
        slot_find_from(slots, key, from) == if i < slots.len() {
            i
        } else {
            -1int
        },
    decreases i - from,
{
    if from < i {
        lemma_slot_find_at(slots, key, from + 1, i);
    }
}

/// With unique keys, the slot that holds `key` is where `spec_find`
/// points.
pub proof fn lemma_slot_find_at_known(slots: Seq<CacheSlot>, key: Seq<char>, m: int)
    requires
        0 <= m < slots.len(),
        slots[m].key@ == key,
        forall|i: int, j: int|
            #![trigger slots[i].key@, slots[j].key@]
            0 <= i < j < slots.len() ==> slots[i].key@ != slots[j].key@,
    ensures
        spec_find(slots, key) == m,
{
    lemma_slot_find_props(slots, key, 0);
    let f = spec_find(slots, key);
    if f == -1 {
        assert(slots[m].key@ != key);
    } else {
        if f < m {
            assert(slots[f].key@ != slots[m].key@);
        } else if m < f {
            assert(slots[m].key@ != slots[f].key@);
        }
    }
}

/// A pool of `slots.len()` byte buffers of `size` bytes each, carved out
/// of one backing allocation, with logical-clock bookkeeping for LRU
/// eviction.
pub struct DatasetCache {
    pub time: u64,
    pub slots: Vec<CacheSlot>,
    pub data: Vec<u8>,
    pub size: usize,
}

/// The outcome of demanding a slot for a key: `Valid` carries the buffer
/// offset of an already-resident key, `Invalid` the buffer offset of a
/// freshly rebound slot that the caller must still fill.
pub enum DatasetCacheResult {
    Valid(usize),
    Invalid(usize),
}

impl DatasetCache {
    /// Slots partition the backing bytes, keys are unique, and no stamp is
    /// ahead of the clock.
    pub open spec fn wf(self) -> bool {
        &&& self.data.len() == self.slots.len() * self.size
        &&& forall|i: int|
            0 <= i < self.slots.len() ==> #[trigger] self.slots[i].offset == i * self.size
        &&& forall|i: int, j: int|
            #![trigger self.slots[i].key@, self.slots[j].key@]
            0 <= i < j < self.slots.len() ==> self.slots[i].key@ != self.slots[j].key@
        &&& forall|i: int| 0 <= i < self.slots.len() ==> #[trigger] self.slots[i].stamp <= self.time
    }

    /// Whether `key` is resident.
    pub open spec fn spec_contains(self, key: Seq<char>) -> bool {
        spec_find(self.slots@, key) >= 0
    }

    /// The bytes of the slot at index `i`.
    pub open spec fn slot_bytes_at(self, i: int) -> Seq<u8> {
        self.data@.subrange(
            self.slots@[i].offset as int,
            self.slots@[i].offset + self.size,
        )
    }

    /// Build a cache of `count` slots of `size` bytes each, zero-filled
    /// and bound to distinct decimal placeholder keys.
    pub fn new(size: usize, count: usize) -> (r: DatasetCache)
        requires
            count * size <= usize::MAX,
        ensures
            r.wf(),
            r.time == 0,
            r.size == size,
            r.slots.len() == count,
            r.data.len() == count * size,
            forall|i: int| 0 <= i < count ==> #[trigger] r.slots[i].stamp == 0,
            forall|i: int| 0 <= i < count ==> #[trigger] r.slots[i].key@ == dec_digits(i as nat),
            forall|i: int| 0 <= i < count * size ==> #[trigger] r.data[i] == 0,
    {
        let mut slots: Vec<CacheSlot> = Vec::new();
        let mut i: usize = 0;
        while i < count
            invariant
                0 <= i <= count,
                count * size <= usize::MAX,
                slots.len() == i,
                forall|k: int| 0 <= k < i ==> #[trigger] slots[k].stamp == 0,
                forall|k: int| 0 <= k < i ==> #[trigger] slots[k].key@ == dec_digits(k as nat),
                forall|k: int| 0 <= k < i ==> #[trigger] slots[k].offset == k * size,
            decreases count - i,
        {
            proof {
                lemma_mul_inequality(i + 1, count as int, size as int);
                lemma_mul_is_distributive_add_other_way(size as int, i as int, 1);
                lemma_mul_is_commutative(i as int, size as int);
            }
            let mut key = String::new();
            crate::uri_format::append_dec_u64(i as u64, &mut key);
            slots.push(CacheSlot { key, offset: i * size, stamp: 0 });
            i = i + 1;
        }
        let total = count * size;
        let mut data: Vec<u8> = Vec::new();
        while data.len() < total
            invariant
                data.len() <= total,
                forall|k: int| 0 <= k < data.len() ==> #[trigger] data[k] == 0,
            decreases total - data.len(),
        {
            data.push(0u8);
        }
        let r = DatasetCache { time: 0, slots, data, size };
        proof {
            assert forall|a: int, b: int|
                #![trigger r.slots[a].key@, r.slots[b].key@]
                0 <= a < b < r.slots.len() implies r.slots[a].key@ != r.slots[b].key@ by {
                lemma_dec_digits_roundtrip(a as nat);
                lemma_dec_digits_roundtrip(b as nat);
            }
            lemma_mul_is_commutative(count as int, size as int);
        }
        r
    }

    /// Rebind the least-recently-used slot to `key`, stamp it with the
    /// next logical time, and return its buffer offset.
    pub fn evict(&mut self, key: &str) -> (r: usize)
        requires
            old(self).wf(),
            old(self).slots.len() > 0,
            old(self).time < u64::MAX,
            !old(self).spec_contains(key@),
        ensures
            final(self).wf(),
            final(self).size == old(self).size,
            final(self).data == old(self).data,
            final(self).time == old(self).time + 1,
            ({
                let m = spec_lru(old(self).slots@);
                &&& r == old(self).slots[m].offset
                &&& final(self).slots@ == old(self).slots@.update(
                    m,
                    CacheSlot {
                        key: final(self).slots@[m].key,
                        offset: old(self).slots[m].offset,
                        stamp: (old(self).time + 1) as u64,
                    },
                )
                &&& final(self).slots@[m].key@ == key@
            }),
    {
        let ghost oldslots = self.slots@;
        let mut best: usize = 0;
        let mut i: usize = 1;
        while i < self.slots.len()
            invariant
                self.slots.len() >= 1,
                0 <= best < i <= self.slots.len(),
                best == lru_best(self.slots@, i as int),
                *self == *old(self),
            decreases self.slots.len() - i,
        {
            if self.slots[i].stamp < self.slots[best].stamp {
                best = i;
            }
            i = i + 1;
        }
        proof {
            lemma_slot_find_props(oldslots, key@, 0);
            lemma_lru_best_min(oldslots, oldslots.len() as int);
        }
        let t = self.time + 1;
        self.time = t;
        let off = self.slots[best].offset;
        let new_key = String::from_str(key);
        self.slots.set(best, CacheSlot { key: new_key, offset: off, stamp: t });
        proof {
            assert forall|a: int, b: int|
                #![trigger self.slots[a].key@, self.slots[b].key@]
                0 <= a < b < self.slots.len() implies self.slots[a].key@ != self.slots[b].key@ by {
                if a != best && b != best {
                    assert(self.slots[a].key@ == oldslots[a].key@);
                    assert(self.slots[b].key@ == oldslots[b].key@);
                    assert(oldslots[a].key@ != oldslots[b].key@);
                } else if a == best {
                    assert(self.slots[a].key@ == key@);
                    assert(self.slots[b].key@ == oldslots[b].key@);
                    assert(oldslots[b].key@ != key@);
                } else {
                    assert(self.slots[b].key@ == key@);
                    assert(self.slots[a].key@ == oldslots[a].key@);
                    assert(oldslots[a].key@ != key@);
                }
            }
        }
        off
    }

    /// The buffer offset for `key` if it is resident, refreshing its
    /// stamp; `None` (and no state change) otherwise.
    pub fn access(&mut self, key: &str) -> (r: Option<usize>)
        requires
            old(self).wf(),
            old(self).time < u64::MAX,
        ensures
            final(self).wf(),
            final(self).size == old(self).size,
            final(self).data == old(self).data,
            ({
                let f = spec_find(old(self).slots@, key@);
                if f < 0 {
                    r is None && *final(self) == *old(self)
                } else {
                    &&& r == Some(old(self).slots[f].offset)
                    &&& final(self).time == old(self).time + 1
                    &&& final(self).slots@ == old(self).slots@.update(
                        f,
                        CacheSlot {
                            key: old(self).slots@[f].key,
                            offset: old(self).slots[f].offset,
                            stamp: (old(self).time + 1) as u64,
                        },
                    )
                }
            }),
    {
        let ghost oldslots = self.slots@;
        let k = String::from_str(key);
        let mut i: usize = 0;
        while i < self.slots.len()
            invariant
                0 <= i <= self.slots.len(),
                k@ == key@,
                forall|j: int| 0 <= j < i ==> oldslots[j].key@ != key@,
                *self == *old(self),
                oldslots == old(self).slots@,
                self.wf(),
                self.time < u64::MAX,
            decreases self.slots.len() - i,
        {
            if self.slots[i].key == k {
                proof {
                    lemma_slot_find_at(oldslots, key@, 0, i as int);
                }
                let t = self.time + 1;
                self.time = t;
                let off = self.slots[i].offset;
                let key_again = self.slots[i].key.clone();
                self.slots.set(i, CacheSlot { key: key_again, offset: off, stamp: t });
                proof {
                    assert(self.slots@ =~= oldslots.update(
                        i as int,
                        CacheSlot {
                            key: oldslots[i as int].key,
                            offset: oldslots[i as int].offset,
                            stamp: t,
                        },
                    ));
                    assert forall|a: int, b: int|
                        #![trigger self.slots[a].key@, self.slots[b].key@]
                        0 <= a < b < self.slots.len() implies self.slots[a].key@
                        != self.slots[b].key@ by {
                        assert(self.slots[a].key@ == oldslots[a].key@);
                        assert(self.slots[b].key@ == oldslots[b].key@);
                        assert(oldslots[a].key@ != oldslots[b].key@);
                    }
                }
                return Some(off);
            }
            i = i + 1;
        }
        proof {
            lemma_slot_find_at(oldslots, key@, 0, oldslots.len() as int);
        }
        None
    }

    /// The slot for `key`: `Valid` with its offset on a hit (stamp
    /// refreshed), otherwise `Invalid` with the offset of the evicted
    /// least-recently-used slot, now rebound to `key`.
    pub fn access_mut(&mut self, key: &str) -> (r: DatasetCacheResult)
        requires
            old(self).wf(),
            old(self).slots.len() > 0,
            old(self).time < u64::MAX,
        ensures
            final(self).wf(),
            final(self).size == old(self).size,
            final(self).data == old(self).data,
            final(self).time == old(self).time + 1,
            ({
                let f = spec_find(old(self).slots@, key@);
                if f >= 0 {
                    &&& r == DatasetCacheResult::Valid(old(self).slots[f].offset)
                    &&& final(self).slots@ == old(self).slots@.update(
                        f,
                        CacheSlot {
                            key: old(self).slots@[f].key,
                            offset: old(self).slots[f].offset,
                            stamp: (old(self).time + 1) as u64,
                        },
                    )
                } else {
                    let m = spec_lru(old(self).slots@);
                    &&& r == DatasetCacheResult::Invalid(old(self).slots[m].offset)
                    &&& final(self).slots@ == old(self).slots@.update(
                        m,
                        CacheSlot {
                            key: final(self).slots@[m].key,
                            offset: old(self).slots[m].offset,
                            stamp: (old(self).time + 1) as u64,
                        },
                    )
                    &&& final(self).slots@[m].key@ == key@
                }
            }),
    {
        match self.access(key) {
            Some(off) => DatasetCacheResult::Valid(off),
            None => {
                let off = self.evict(key);
                DatasetCacheResult::Invalid(off)
            },
        }
    }

    /// Read a whole slot buffer.
    pub fn read_slot(&self, offset: usize) -> (r: Vec<u8>)
        requires
            offset + self.size <= self.data.len(),
        ensures
            r@ == self.data@.subrange(offset as int, offset + self.size),
    {
        let mut out: Vec<u8> = Vec::new();
        let mut i: usize = 0;
        while i < self.size
            invariant
                0 <= i <= self.size,
                offset + self.size <= self.data.len(),
                out@ == self.data@.subrange(offset as int, offset + i),
            decreases self.size - i,
        {
            out.push(self.data[offset + i]);
            proof {
                assert(out@ =~= self.data@.subrange(offset as int, offset + i + 1));
            }
            i = i + 1;
        }
        out
    }

    /// Overwrite a whole slot buffer with `payload`, whose length must be
    /// exactly the slot byte size.
    pub fn fill_slot(&mut self, offset: usize, payload: &Vec<u8>)
        requires
            old(self).wf(),
            payload.len() == old(self).size,
            offset + old(self).size <= old(self).data.len(),
        ensures
            final(self).wf(),
            final(self).time == old(self).time,
            final(self).slots == old(self).slots,
            final(self).size == old(self).size,
            final(self).data.len() == old(self).data.len(),
            final(self).data@ == old(self).data@.subrange(0, offset as int) + payload@ + old(
                self,
            ).data@.subrange(offset + old(self).size, old(self).data.len() as int),
    {
        let mut i: usize = 0;
        while i < self.size
            invariant
                0 <= i <= self.size,
                payload.len() == self.size,
                offset + self.size <= self.data.len(),
                self.data.len() == old(self).data.len(),
                self.time == old(self).time,
                self.slots == old(self).slots,
                self.size == old(self).size,
                forall|j: int|
                    0 <= j < self.data.len() && !(offset <= j < offset + i)
                        ==> #[trigger] self.data[j] == old(self).data[j],
                forall|j: int|
                    offset <= j < offset + i ==> #[trigger] self.data[j] == payload[j - offset],
            decreases self.size - i,
        {
            self.data.set(offset + i, payload[i]);
            i = i + 1;
        }
        proof {
            assert(self.data@ =~= old(self).data@.subrange(0, offset as int) + payload@ + old(
                self,
            ).data@.subrange(offset + old(self).size, old(self).data.len() as int));
        }
    }
}

} // verus!
