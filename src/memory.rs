use vstd::prelude::*;
use vstd::bytes::{
    spec_u16_to_le_bytes, spec_u32_to_le_bytes, spec_u16_from_le_bytes, spec_u32_from_le_bytes,
    u16_from_le_bytes, u32_from_le_bytes, lemma_auto_spec_u16_to_from_le_bytes,
    lemma_auto_spec_u32_to_from_le_bytes,
};
use vstd::slice::slice_subrange;
use crate::account::{
    Pubkey, VirtualAccount, AccountView, decodes_to, decodable, encode, valid,
    lemma_decode_ignores_padding,
};
use crate::allocator::{SliceAllocator, SlotView, zeros};
use crate::error::StorageError;

verus! {

/// Length of a container label.
pub const MAX_NAME_LEN: usize = 32;

/// Bytes in front of the header that identify the account kind.
pub const DISCRIMINATOR_LEN: usize = 8;

/// Bytes of the header fields.
pub const HEADER_LEN: usize = 78;

/// Layout generation of a hot container.
#[derive(Clone, Copy, Debug, PartialEq, Eq, Structural)]
pub enum MemoryVersion {
    Legacy,
    Current,
}

/// Header of a hot container.
#[derive(Clone, Copy, Debug)]
pub struct MemoryAccount {
    pub vm: Pubkey,
    pub name: [u8; 32],
    pub bump: u8,
    pub version: u8,
    pub account_size: u16,
    pub num_accounts: u32,
    pub packed_info: [u8; 6],
}

/// The version byte of the legacy layout.
pub const LEGACY_VERSION: u8 = 0;

/// The version byte of the current layout.
pub const CURRENT_VERSION: u8 = 1;

impl MemoryAccount {
    /// The header as it is stored after the discriminator.
    pub open spec fn header_bytes(self) -> Seq<u8> {
        self.vm@ + self.name@ + seq![self.bump, self.version] + spec_u16_to_le_bytes(
            self.account_size,
        ) + spec_u32_to_le_bytes(self.num_accounts) + self.packed_info@
    }

    /// Bytes before the slot region: the discriminator and the header.
    pub fn get_size() -> (r: usize)
        ensures
            r == DISCRIMINATOR_LEN + HEADER_LEN,
    {
        DISCRIMINATOR_LEN + HEADER_LEN
    }

    pub fn set_num_accounts(&mut self, num_accounts: u32)
        ensures
            *final(self) == (MemoryAccount { num_accounts, ..*old(self) }),
    {
        self.num_accounts = num_accounts;
    }

    pub fn set_account_size(&mut self, account_size: u16)
        ensures
            *final(self) == (MemoryAccount { account_size, ..*old(self) }),
    {
        self.account_size = account_size;
    }

    /// Bytes of a whole hot container with `num_accounts` slots of
    /// `account_size` bytes.
    pub fn get_size_with_data(num_accounts: usize, account_size: usize) -> (r: usize)
        requires
            account_size < usize::MAX,
            DISCRIMINATOR_LEN + HEADER_LEN + num_accounts * (account_size + 1) <= usize::MAX,
        ensures
            r == DISCRIMINATOR_LEN + HEADER_LEN + num_accounts * (account_size + 1),
    {
        Self::get_size() + SliceAllocator::get_size(num_accounts, account_size)
    }

    /// The header stored in `data` after its discriminator.
    pub fn unpack(data: &[u8]) -> (r: MemoryAccount)
        requires
            data@.len() >= DISCRIMINATOR_LEN + HEADER_LEN,
        ensures
            r.header_bytes() == data@.subrange(
                DISCRIMINATOR_LEN as int,
                DISCRIMINATOR_LEN + HEADER_LEN,
            ),
    {
        let o = DISCRIMINATOR_LEN;
        let mut vm = [0u8; 32];
        let mut name = [0u8; 32];
        let mut i: usize = 0;
        while i < 32
            invariant
                data@.len() >= DISCRIMINATOR_LEN + HEADER_LEN,
                o == DISCRIMINATOR_LEN,
                i <= 32,
                forall|j: int| 0 <= j < i ==> #[trigger] vm@[j] == data@[o + j],
                forall|j: int| 0 <= j < i ==> #[trigger] name@[j] == data@[o + 32 + j],
            decreases 32 - i,
        {
            vm[i] = data[o + i];
            name[i] = data[o + 32 + i];
            i = i + 1;
        }
        let mut packed_info = [0u8; 6];
        let mut k: usize = 0;
        while k < 6
            invariant
                data@.len() >= DISCRIMINATOR_LEN + HEADER_LEN,
                o == DISCRIMINATOR_LEN,
                k <= 6,
                forall|j: int| 0 <= j < k ==> #[trigger] packed_info@[j] == data@[o + 72 + j],
            decreases 6 - k,
        {
            packed_info[k] = data[o + 72 + k];
            k = k + 1;
        }
        let account_size = u16_from_le_bytes(slice_subrange(data, o + 66, o + 68));
        let num_accounts = u32_from_le_bytes(slice_subrange(data, o + 68, o + 72));
        let r = MemoryAccount {
            vm,
            name,
            bump: data[o + 64],
            version: data[o + 65],
            account_size,
            num_accounts,
            packed_info,
        };
        proof {
            lemma_auto_spec_u16_to_from_le_bytes();
            lemma_auto_spec_u32_to_from_le_bytes();
            let s2 = data@.subrange(o + 66, o + 68);
            let s4 = data@.subrange(o + 68, o + 72);
            assert(spec_u16_to_le_bytes(spec_u16_from_le_bytes(s2)) == s2);
            assert(spec_u32_to_le_bytes(spec_u32_from_le_bytes(s4)) == s4);
            assert(r.header_bytes() =~= data@.subrange(o as int, o + HEADER_LEN));
        }
        r
    }

    /// Slot count and slot size recorded in the header stored in `data`.
    pub fn get_capacity_and_size(data: &[u8]) -> (r: (usize, usize))
        requires
            data@.len() >= DISCRIMINATOR_LEN + HEADER_LEN,
        ensures
            exists|h: MemoryAccount|
                h.header_bytes() == data@.subrange(
                    DISCRIMINATOR_LEN as int,
                    DISCRIMINATOR_LEN + HEADER_LEN,
                ) && r == (h.num_accounts as usize, h.account_size as usize),
    {
        let info = Self::unpack(data);
        (info.num_accounts as usize, info.account_size as usize)
    }

    /// The slot region of a stored hot container: what follows the header.
    pub fn get_data(data: &[u8]) -> (r: &[u8])
        requires
            data@.len() >= DISCRIMINATOR_LEN + HEADER_LEN,
        ensures
            r@ == data@.subrange(DISCRIMINATOR_LEN + HEADER_LEN, data@.len() as int),
    {
        slice_subrange(data, Self::get_size(), data.len())
    }

    pub fn get_capacity(&self) -> (r: usize)
        ensures
            r == self.num_accounts,
    {
        self.num_accounts as usize
    }

    pub fn get_account_size(&self) -> (r: usize)
        ensures
            r == self.account_size,
    {
        self.account_size as usize
    }

    /// The layout generation: legacy for version byte 0, current otherwise.
    pub fn get_version(&self) -> (r: MemoryVersion)
        ensures
            r == (if self.version == LEGACY_VERSION {
                MemoryVersion::Legacy
            } else {
                MemoryVersion::Current
            }),
    {
        if self.version == LEGACY_VERSION {
            MemoryVersion::Legacy
        } else {
            MemoryVersion::Current
        }
    }
}

proof fn lemma_header_bytes_unique(a: MemoryAccount, b: MemoryAccount)
    requires
        a.header_bytes() == b.header_bytes(),
    ensures
        a.num_accounts == b.num_accounts,
        a.account_size == b.account_size,
{
    lemma_auto_spec_u16_to_from_le_bytes();
    lemma_auto_spec_u32_to_from_le_bytes();
    let x = a.header_bytes();
    let y = b.header_bytes();
    assert(x.subrange(66, 68) =~= spec_u16_to_le_bytes(a.account_size));
    assert(y.subrange(66, 68) =~= spec_u16_to_le_bytes(b.account_size));
    assert(x.subrange(68, 72) =~= spec_u32_to_le_bytes(a.num_accounts));
    assert(y.subrange(68, 72) =~= spec_u32_to_le_bytes(b.num_accounts));
    assert(spec_u16_from_le_bytes(spec_u16_to_le_bytes(a.account_size)) == a.account_size);
    assert(spec_u16_from_le_bytes(spec_u16_to_le_bytes(b.account_size)) == b.account_size);
    assert(spec_u32_from_le_bytes(spec_u32_to_le_bytes(a.num_accounts)) == a.num_accounts);
    assert(spec_u32_from_le_bytes(spec_u32_to_le_bytes(b.num_accounts)) == b.num_accounts);
}

/// After bytes holding record `a` are written into a slot, the slot is
/// used and the bytes read back from it hold `a` again.
pub proof fn lemma_write_then_read(
    before: SliceAllocator,
    after: SliceAllocator,
    index: int,
    bytes: Seq<u8>,
    a: AccountView,
)
    requires
        before.wf(),
        0 <= index < before.capacity,
        bytes.len() <= before.slot_size,
        after.view() == before.view().update(
            index,
            SlotView { used: true, bytes: bytes + zeros((before.slot_size - bytes.len()) as nat) },
        ),
        decodes_to(bytes, a),
    ensures
        after.view()[index].used,
        decodes_to(after.view()[index].bytes, a),
{
    lemma_decode_ignores_padding(bytes, (before.slot_size - bytes.len()) as nat, a);
}

/// The hot tier: a header and a region of fixed-size slots, each holding at
/// most one encoded record.
pub struct HotContainer {
    pub header: MemoryAccount,
    pub slots: SliceAllocator,
}

impl HotContainer {
    pub open spec fn wf(self) -> bool {
        &&& self.slots.wf()
        &&& self.slots.capacity == self.header.num_accounts
        &&& self.slots.slot_size == self.header.account_size
    }

    /// The slots as values.
    pub open spec fn view(self) -> Seq<SlotView> {
        self.slots.view()
    }

    pub open spec fn slot_size(self) -> nat {
        self.header.account_size as nat
    }

    /// A container of `num_accounts` empty slots of `account_size` bytes.
    pub fn new(vm: Pubkey, name: [u8; 32], bump: u8, num_accounts: u32, account_size: u16) -> (r: HotContainer)
        requires
            num_accounts * (account_size + 1) <= usize::MAX,
        ensures
            r.wf(),
            r.header.vm == vm,
            r.header.name == name,
            r.header.bump == bump,
            r.header.num_accounts == num_accounts,
            r.header.account_size == account_size,
            r.header.version == CURRENT_VERSION,
            r.header.packed_info@ == zeros(6),
            r.view().len() == num_accounts,
            forall|i: int|
                0 <= i < num_accounts ==> #[trigger] r.view()[i] == (SlotView {
                    used: false,
                    bytes: zeros(account_size as nat),
                }),
    {
        let header = MemoryAccount {
            vm,
            name,
            bump,
            version: CURRENT_VERSION,
            account_size,
            num_accounts,
            packed_info: [0u8; 6],
        };
        let slots = SliceAllocator::new(num_accounts as usize, account_size as usize);
        assert(header.packed_info@ =~= zeros(6));
        HotContainer { header, slots }
    }

    /// The hot container stored in `data`: its header after the
    /// discriminator, and its slots over the region that `get_data` gives.
    /// `None` when the bytes are too short for the header or for the slots
    /// it announces.
    pub fn from_account_data(data: &[u8]) -> (r: Option<HotContainer>)
        ensures
            match r {
                Some(h) => {
                    let region = data@.subrange(DISCRIMINATOR_LEN + HEADER_LEN, data@.len() as int);
                    &&& data@.len() >= DISCRIMINATOR_LEN + HEADER_LEN
                    &&& h.wf()
                    &&& h.header.header_bytes() == data@.subrange(
                        DISCRIMINATOR_LEN as int,
                        DISCRIMINATOR_LEN + HEADER_LEN,
                    )
                    &&& h.slots.data@ == region.subrange(
                        0,
                        h.header.num_accounts * (h.header.account_size + 1),
                    )
                },
                None => data@.len() < DISCRIMINATOR_LEN + HEADER_LEN || forall|m: MemoryAccount|
                    m.header_bytes() == data@.subrange(
                        DISCRIMINATOR_LEN as int,
                        DISCRIMINATOR_LEN + HEADER_LEN,
                    ) ==> #[trigger] (m.num_accounts * (m.account_size + 1)) > data@.len() - (
                    DISCRIMINATOR_LEN + HEADER_LEN),
            },
    {
        if data.len() < MemoryAccount::get_size() {
            return None;
        }
        let header = MemoryAccount::unpack(data);
        let region = MemoryAccount::get_data(data);
        match SliceAllocator::from_region(header.num_accounts as usize, header.account_size as usize, region) {
            Some(slots) => Some(HotContainer { header, slots }),
            None => {
                proof {
                    assert forall|m: MemoryAccount|
                        m.header_bytes() == data@.subrange(
                            DISCRIMINATOR_LEN as int,
                            DISCRIMINATOR_LEN + HEADER_LEN,
                        ) implies #[trigger] (m.num_accounts * (m.account_size + 1)) > data@.len() - (
                        DISCRIMINATOR_LEN + HEADER_LEN) by {
                        lemma_header_bytes_unique(m, header);
                    }
                }
                None
            },
        }
    }

    pub fn is_empty(&self, index: usize) -> (r: bool)
        requires
            self.wf(),
        ensures
            r == (index >= self.view().len() || !self.view()[index as int].used),
    {
        self.slots.is_empty(index)
    }

    pub fn has_item(&self, index: usize) -> (r: bool)
        requires
            self.wf(),
        ensures
            r == (index < self.view().len() && self.view()[index as int].used),
    {
        self.slots.has_item(index)
    }

    /// The raw bytes of slot `index`.
    pub fn read_item(&self, index: usize) -> (r: Result<Vec<u8>, StorageError>)
        requires
            self.wf(),
        ensures
            match r {
                Ok(b) => index < self.view().len() && b@ == self.view()[index as int].bytes,
                Err(e) => index >= self.view().len() && e == StorageError::IndexOutOfRange,
            },
    {
        self.slots.read_item(index)
    }

    /// The record in slot `index`: `IndexOutOfRange` past the last slot,
    /// `SlotEmpty` for an empty slot, `MalformedRecord` when its bytes hold
    /// no record.
    pub fn read_record(&self, index: usize) -> (r: Result<VirtualAccount, StorageError>)
        requires
            self.wf(),
        ensures
            match r {
                Ok(a) => {
                    &&& index < self.view().len()
                    &&& self.view()[index as int].used
                    &&& decodes_to(self.view()[index as int].bytes, a@)
                },
                Err(e) => {
                    &&& index >= self.view().len() ==> e == StorageError::IndexOutOfRange
                    &&& index < self.view().len() && !self.view()[index as int].used ==> e
                        == StorageError::SlotEmpty
                    &&& index < self.view().len() && self.view()[index as int].used ==> e
                        == StorageError::MalformedRecord && !decodable(
                        self.view()[index as int].bytes,
                    )
                },
            },
    {
        let bytes = self.slots.read_item(index)?;
        if !self.slots.has_item(index) {
            return Err(StorageError::SlotEmpty);
        }
        VirtualAccount::unpack(bytes.as_slice())
    }

    /// Writes the encoding of `record` into slot `index`:
    /// `IndexOutOfRange` past the last slot, `RecordTooLarge` when the
    /// encoding is longer than a slot; nothing changes on failure.
    pub fn write_record(&mut self, index: usize, record: &VirtualAccount) -> (r: Result<(), StorageError>)
        requires
            old(self).wf(),
            valid(record@),
        ensures
            final(self).wf(),
            final(self).header == old(self).header,
            match r {
                Ok(()) => {
                    &&& index < old(self).view().len()
                    &&& encode(record@).len() <= old(self).slot_size()
                    &&& final(self).view() == old(self).view().update(
                        index as int,
                        SlotView {
                            used: true,
                            bytes: encode(record@) + zeros(
                                (old(self).slot_size() - encode(record@).len()) as nat,
                            ),
                        },
                    )
                },
                Err(e) => {
                    &&& (index >= old(self).view().len() ==> e == StorageError::IndexOutOfRange)
                    &&& (index < old(self).view().len() ==> encode(record@).len()
                        > old(self).slot_size() && e == StorageError::RecordTooLarge)
                    &&& *final(self) == *old(self)
                },
            },
    {
        let bytes = record.pack();
        self.slots.write_item(index, bytes.as_slice())
    }

    /// Empties slot `index`; `IndexOutOfRange` past the last slot.
    pub fn clear_item(&mut self, index: usize) -> (r: Result<(), StorageError>)
        requires
            old(self).wf(),
        ensures
            final(self).wf(),
            final(self).header == old(self).header,
            match r {
                Ok(()) => {
                    &&& index < old(self).view().len()
                    &&& final(self).view() == old(self).view().update(
                        index as int,
                        SlotView { used: false, bytes: zeros(old(self).slot_size()) },
                    )
                },
                Err(e) => {
                    &&& index >= old(self).view().len()
                    &&& e == StorageError::IndexOutOfRange
                    &&& *final(self) == *old(self)
                },
            },
    {
        self.slots.clear_item(index)
    }
}

} // verus!
