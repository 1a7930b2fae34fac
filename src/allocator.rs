use vstd::prelude::*;
use crate::error::StorageError;

verus! {

/// One slot as a value: whether it holds a record, and its bytes.
pub struct SlotView {
    pub used: bool,
    pub bytes: Seq<u8>,
}

/// `n` zero bytes.
pub open spec fn zeros(n: nat) -> Seq<u8> {
    Seq::new(n, |i: int| 0u8)
}

/// A flat byte region laid out as `capacity` slots of `1 + slot_size` bytes
/// each: an occupancy marker (0 for empty), then the slot's bytes. The
/// marker is a byte of its own because a record's first byte is its tag,
/// and tag 0 (a nonce) cannot also mean "no record"; so the region takes
/// `capacity * (slot_size + 1)` bytes.
pub struct SliceAllocator {
    pub capacity: usize,
    pub slot_size: usize,
    pub data: Vec<u8>,
}

proof fn lemma_slot_bounds(i: int, cap: int, stride: int)
    requires
        0 <= i < cap,
        stride > 0,
    ensures
        0 <= i * stride,
        i * stride + stride <= cap * stride,
{
    assert(0 <= i * stride && i * stride + stride <= cap * stride) by (nonlinear_arith)
        requires
            0 <= i < cap,
            stride > 0,
    ;
}

proof fn lemma_slots_apart(i: int, j: int, stride: int)
    requires
        0 <= i,
        0 <= j,
        i != j,
        stride > 0,
    ensures
        j * stride + stride <= i * stride || i * stride + stride <= j * stride,
{
    assert(j * stride + stride <= i * stride || i * stride + stride <= j * stride) by (nonlinear_arith)
        requires
            0 <= i,
            0 <= j,
            i != j,
            stride > 0,
    ;
}

impl SliceAllocator {
    pub open spec fn stride(self) -> int {
        self.slot_size + 1
    }

    pub open spec fn wf(self) -> bool {
        self.data.len() == self.capacity * self.stride()
    }

    pub open spec fn slot_at(self, i: int) -> SlotView {
        SlotView {
            used: self.data@[i * self.stride()] != 0,
            bytes: self.data@.subrange(i * self.stride() + 1, i * self.stride() + self.stride()),
        }
    }

    pub open spec fn view(self) -> Seq<SlotView> {
        Seq::new(self.capacity as nat, |i: int| self.slot_at(i))
    }

    /// Bytes taken by `capacity` slots of `slot_size` bytes.
    pub fn get_size(capacity: usize, slot_size: usize) -> (r: usize)
        requires
            slot_size < usize::MAX,
            capacity * (slot_size + 1) <= usize::MAX,
        ensures
            r == capacity * (slot_size + 1),
    {
        capacity * (slot_size + 1)
    }

    /// An allocator whose slots are all empty and zeroed.
    pub fn new(capacity: usize, slot_size: usize) -> (r: SliceAllocator)
        requires
            slot_size < usize::MAX,
            capacity * (slot_size + 1) <= usize::MAX,
        ensures
            r.wf(),
            r.capacity == capacity,
            r.slot_size == slot_size,
            forall|i: int| 0 <= i < capacity ==> #[trigger] r.view()[i] == (SlotView { used: false, bytes: zeros(slot_size as nat) }),
    {
        let n = Self::get_size(capacity, slot_size);
        let data: Vec<u8> = vec![0u8; n];
        let r = SliceAllocator { capacity, slot_size, data };
        assert forall|i: int| 0 <= i < capacity implies #[trigger] r.view()[i] == (SlotView { used: false, bytes: zeros(slot_size as nat) }) by {
            lemma_slot_bounds(i, capacity as int, r.stride());
            assert(r.slot_at(i).bytes =~= zeros(slot_size as nat));
        }
        r
    }

    /// An allocator over the front of a stored slot region; `None` when the
    /// region is too short for `capacity` slots of `slot_size` bytes.
    pub fn from_region(capacity: usize, slot_size: usize, region: &[u8]) -> (r: Option<SliceAllocator>)
        ensures
            match r {
                Some(a) => {
                    &&& capacity * (slot_size + 1) <= region@.len()
                    &&& a.wf()
                    &&& a.capacity == capacity
                    &&& a.slot_size == slot_size
                    &&& a.data@ == region@.subrange(0, capacity * (slot_size + 1))
                },
                None => capacity * (slot_size + 1) > region@.len(),
            },
    {
        if slot_size >= region.len() {
            if capacity == 0 {
                return Some(SliceAllocator { capacity, slot_size, data: Vec::new() });
            }
            assert(capacity * (slot_size + 1) >= slot_size + 1) by (nonlinear_arith)
                requires
                    capacity >= 1,
            ;
            return None;
        }
        let stride = slot_size + 1;
        let q = region.len() / stride;
        proof {
            vstd::arithmetic::div_mod::lemma_fundamental_div_mod(region@.len() as int, stride as int);
            vstd::arithmetic::div_mod::lemma_mod_pos_bound(region@.len() as int, stride as int);
        }
        if capacity > q {
            assert(capacity * stride > region@.len()) by (nonlinear_arith)
                requires
                    capacity >= q + 1,
                    stride > 0,
                    region@.len() < stride * q + stride,
            ;
            return None;
        }
        assert(capacity * stride <= region@.len()) by (nonlinear_arith)
            requires
                capacity <= q,
                stride > 0,
                stride * q <= region@.len(),
        ;
        let n = capacity * stride;
        let data = vstd::slice::slice_to_vec(vstd::slice::slice_subrange(region, 0, n));
        Some(SliceAllocator { capacity, slot_size, data })
    }

    /// The stored slot region.
    pub fn region(&self) -> (r: &[u8])
        ensures
            r@ == self.data@,
    {
        self.data.as_slice()
    }

    fn slot_base(&self, index: usize) -> (r: usize)
        requires
            self.wf(),
            index < self.capacity,
        ensures
            r == index * self.stride(),
            r + self.stride() <= self.data.len(),
    {
        proof {
            lemma_slot_bounds(index as int, self.capacity as int, self.stride());
            assert(index * self.stride() <= index * self.stride() + self.stride());
        }
        index * (self.slot_size + 1)
    }

    /// Whether slot `index` holds no record; true past the last slot too.
    pub fn is_empty(&self, index: usize) -> (r: bool)
        requires
            self.wf(),
        ensures
            r == (index >= self.capacity || !self.view()[index as int].used),
    {
        !self.has_item(index)
    }

    /// Whether slot `index` exists and holds a record.
    pub fn has_item(&self, index: usize) -> (r: bool)
        requires
            self.wf(),
        ensures
            r == (index < self.capacity && self.view()[index as int].used),
    {
        if index >= self.capacity {
            return false;
        }
        let base = self.slot_base(index);
        self.data[base] != 0
    }

    /// The bytes of slot `index`; fails with `IndexOutOfRange` past the last
    /// slot.
    pub fn read_item(&self, index: usize) -> (r: Result<Vec<u8>, StorageError>)
        requires
            self.wf(),
        ensures
            match r {
                Ok(b) => index < self.capacity && b@ == self.view()[index as int].bytes,
                Err(e) => index >= self.capacity && e == StorageError::IndexOutOfRange,
            },
    {
        if index >= self.capacity {
            return Err(StorageError::IndexOutOfRange);
        }
        let base = self.slot_base(index);
        let mut out: Vec<u8> = Vec::new();
        let mut k: usize = 0;
        while k < self.slot_size
            invariant
                self.wf(),
                base == index * self.stride(),
                base + self.stride() <= self.data.len(),
                k <= self.slot_size,
                out@ == self.data@.subrange(base + 1, base + 1 + k),
            decreases self.slot_size - k,
        {
            out.push(self.data[base + 1 + k]);
            k = k + 1;
            assert(out@ =~= self.data@.subrange(base + 1, base + 1 + k));
        }
        Ok(out)
    }

    /// Replaces the whole of slot `index` by `bytes` followed by zeros and
    /// marks it used; fails with `IndexOutOfRange` past the last slot and
    /// with `RecordTooLarge` when `bytes` is longer than a slot, changing
    /// nothing.
    pub fn write_item(&mut self, index: usize, bytes: &[u8]) -> (r: Result<(), StorageError>)
        requires
            old(self).wf(),
        ensures
            final(self).wf(),
            final(self).capacity == old(self).capacity,
            final(self).slot_size == old(self).slot_size,
            match r {
                Ok(()) => {
                    &&& index < old(self).capacity
                    &&& bytes@.len() <= old(self).slot_size
                    &&& final(self).view() == old(self).view().update(
                        index as int,
                        SlotView {
                            used: true,
                            bytes: bytes@ + zeros((old(self).slot_size - bytes@.len()) as nat),
                        },
                    )
                },
                Err(e) => {
                    &&& (index >= old(self).capacity ==> e == StorageError::IndexOutOfRange)
                    &&& (index < old(self).capacity ==> bytes@.len() > old(self).slot_size
                        && e == StorageError::RecordTooLarge)
                    &&& *final(self) == *old(self)
                },
            },
    {
        if index >= self.capacity {
            return Err(StorageError::IndexOutOfRange);
        }
        if bytes.len() > self.slot_size {
            return Err(StorageError::RecordTooLarge);
        }
        let base = self.slot_base(index);
        let ghost new_bytes = bytes@ + zeros((self.slot_size - bytes@.len()) as nat);
        self.write_slot(base, 1u8, bytes);
        proof {
            self.lemma_one_slot_changed(*old(self), index as int, SlotView { used: true, bytes: new_bytes });
        }
        Ok(())
    }

    /// Marks slot `index` empty and zeroes its bytes; fails with
    /// `IndexOutOfRange` past the last slot, changing nothing.
    pub fn clear_item(&mut self, index: usize) -> (r: Result<(), StorageError>)
        requires
            old(self).wf(),
        ensures
            final(self).wf(),
            final(self).capacity == old(self).capacity,
            final(self).slot_size == old(self).slot_size,
            match r {
                Ok(()) => {
                    &&& index < old(self).capacity
                    &&& final(self).view() == old(self).view().update(
                        index as int,
                        SlotView { used: false, bytes: zeros(old(self).slot_size as nat) },
                    )
                },
                Err(e) => {
                    &&& index >= old(self).capacity
                    &&& e == StorageError::IndexOutOfRange
                    &&& *final(self) == *old(self)
                },
            },
    {
        if index >= self.capacity {
            return Err(StorageError::IndexOutOfRange);
        }
        let base = self.slot_base(index);
        let empty: [u8; 0] = [];
        self.write_slot(base, 0u8, &empty);
        proof {
            assert(empty@ + zeros(self.slot_size as nat) =~= zeros(self.slot_size as nat));
            self.lemma_one_slot_changed(*old(self), index as int, SlotView { used: false, bytes: zeros(self.slot_size as nat) });
        }
        Ok(())
    }

    /// Writes the marker and `bytes` padded with zeros at `base`, touching
    /// nothing outside that slot.
    fn write_slot(&mut self, base: usize, marker: u8, bytes: &[u8])
        requires
            old(self).wf(),
            base + old(self).stride() <= old(self).data.len(),
            bytes@.len() <= old(self).slot_size,
        ensures
            final(self).capacity == old(self).capacity,
            final(self).slot_size == old(self).slot_size,
            final(self).data@.len() == old(self).data@.len(),
            final(self).data@[base as int] == marker,
            final(self).data@.subrange(base + 1, base + old(self).stride()) == bytes@ + zeros(
                (old(self).slot_size - bytes@.len()) as nat,
            ),
            forall|x: int|
                0 <= x < old(self).data@.len() && !(base <= x < base + old(self).stride())
                    ==> #[trigger] final(self).data@[x] == old(self).data@[x],
    {
        self.data[base] = marker;
        let mut k: usize = 0;
        while k < self.slot_size
            invariant
                self.capacity == old(self).capacity,
                self.slot_size == old(self).slot_size,
                self.data.len() == old(self).data.len(),
                base + self.stride() <= self.data.len(),
                bytes@.len() <= self.slot_size,
                k <= self.slot_size,
                self.data@[base as int] == marker,
                forall|m: int|
                    0 <= m < k ==> #[trigger] self.data@[base + 1 + m] == if m < bytes@.len() {
                        bytes@[m]
                    } else {
                        0u8
                    },
                forall|x: int|
                    0 <= x < old(self).data@.len() && !(base <= x < base + old(self).stride())
                        ==> #[trigger] self.data@[x] == old(self).data@[x],
            decreases self.slot_size - k,
        {
            let b = if k < bytes.len() {
                bytes[k]
            } else {
                0u8
            };
            self.data[base + 1 + k] = b;
            k = k + 1;
        }
        let ghost expect = bytes@ + zeros((self.slot_size - bytes@.len()) as nat);
        assert forall|m: int| 0 <= m < self.slot_size implies #[trigger] self.data@.subrange(
            base + 1,
            base + self.stride(),
        )[m] == expect[m] by {
            assert(self.data@[base + 1 + m] == if m < bytes@.len() {
                bytes@[m]
            } else {
                0u8
            });
        }
        assert(self.data@.subrange(base + 1, base + self.stride()) =~= expect);
    }

    proof fn lemma_one_slot_changed(self, old_a: SliceAllocator, index: int, s: SlotView)
        requires
            old_a.wf(),
            0 <= index < old_a.capacity,
            self.capacity == old_a.capacity,
            self.slot_size == old_a.slot_size,
            self.data@.len() == old_a.data@.len(),
            s == self.slot_at(index),
            forall|x: int|
                0 <= x < old_a.data@.len() && !(index * old_a.stride() <= x < index * old_a.stride()
                    + old_a.stride()) ==> #[trigger] self.data@[x] == old_a.data@[x],
        ensures
            self.wf(),
            self.view() == old_a.view().update(index, s),
    {
        let st = old_a.stride();
        assert forall|j: int| 0 <= j < self.capacity implies #[trigger] self.view()[j] == old_a.view().update(index, s)[j] by {
            if j != index {
                lemma_slots_apart(index, j, st);
                lemma_slot_bounds(j, self.capacity as int, st);
                assert(self.data@[j * st] == old_a.data@[j * st]);
                assert(self.slot_at(j).bytes =~= old_a.slot_at(j).bytes);
            }
        }
        assert(self.view() =~= old_a.view().update(index, s));
    }
}

} // verus!
