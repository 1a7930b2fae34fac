use vstd::prelude::*;
use crate::account::{
    Pubkey, VirtualAccount, AccountView, decodes_to, decodable, encode, content_hash,
    lemma_decode_unique,
};
use crate::allocator::{SlotView, zeros};
use crate::error::StorageError;
use crate::hash::{Signature, concat_hash, hash_concat};
use crate::memory::HotContainer;
use crate::merkle::{MerkleTree, MerkleView, MAX_DEPTH, empty_tree, hashes, capacity_of};

verus! {

/// The cold tier: a header and one commitment tree whose leaves commit to
/// archived records.
pub struct ColdContainer {
    pub vm: Pubkey,
    pub name: [u8; 32],
    pub bump: u8,
    pub compressed_state: MerkleTree,
}

impl ColdContainer {
    pub open spec fn wf(self) -> bool {
        self.compressed_state@.wf()
    }

    pub open spec fn tree(self) -> MerkleView {
        self.compressed_state@
    }

    /// An empty cold container whose tree has `depth` levels and the digest
    /// of `seed` as its zero leaf.
    pub fn new(vm: Pubkey, name: [u8; 32], bump: u8, seed: &[u8], depth: usize) -> (r: ColdContainer)
        requires
            1 <= depth <= MAX_DEPTH,
        ensures
            r.wf(),
            r.vm == vm,
            r.name == name,
            r.bump == bump,
            r.tree() == empty_tree(crate::hash::sha256_of(seed@), depth as nat),
    {
        ColdContainer { vm, name, bump, compressed_state: MerkleTree::new(seed, depth) }
    }

    /// The current root of the tree.
    pub fn get_root(&self) -> (r: crate::hash::Hash)
        ensures
            r@ == self.tree().root,
    {
        self.compressed_state.get_root()
    }
}

/// The record that `bytes` hold, when they hold one.
pub open spec fn record_in(bytes: Seq<u8>) -> AccountView {
    choose|a: AccountView| decodes_to(bytes, a)
}

/// The leaf that commits to record `a` under `signature`: the digest of the
/// signature followed by the record's content hash.
pub open spec fn commitment(signature: Seq<u8>, a: AccountView) -> Seq<u8> {
    concat_hash(signature, content_hash(a))
}

/// Why compressing slot `index` fails, checked in this order, or `None`.
pub open spec fn compress_failure(
    hot: HotContainer,
    index: int,
    cold: ColdContainer,
    authorized: bool,
) -> Option<StorageError> {
    if index >= hot.view().len() {
        Some(StorageError::IndexOutOfRange)
    } else if !hot.view()[index].used {
        Some(StorageError::SlotEmpty)
    } else if !decodable(hot.view()[index].bytes) {
        Some(StorageError::MalformedRecord)
    } else if !authorized {
        Some(StorageError::AuthorizationFailed)
    } else if cold.tree().next_index >= cold.tree().capacity() {
        Some(StorageError::ArchiveFull)
    } else {
        None
    }
}

/// Why decompressing `packed` into slot `dest` fails, checked in this
/// order, or `None`.
pub open spec fn decompress_failure(
    cold: ColdContainer,
    proof: Seq<Seq<u8>>,
    signature: Seq<u8>,
    packed: Seq<u8>,
    hot: HotContainer,
    dest: int,
) -> Option<StorageError> {
    if !decodable(packed) {
        Some(StorageError::MalformedRecord)
    } else if !cold.tree().accepts(proof, commitment(signature, record_in(packed))) {
        Some(StorageError::ProofMismatch)
    } else if dest >= hot.view().len() {
        Some(StorageError::IndexOutOfRange)
    } else if hot.view()[dest].used {
        Some(StorageError::SlotOccupied)
    } else if encode(record_in(packed)).len() > hot.slot_size() {
        Some(StorageError::RecordTooLarge)
    } else {
        None
    }
}

proof fn lemma_record_in(bytes: Seq<u8>, a: AccountView)
    requires
        decodes_to(bytes, a),
    ensures
        record_in(bytes) == a,
{
    lemma_decode_unique(bytes, a, record_in(bytes));
}

/// Moves the record in slot `index` of `hot` to `cold`: its commitment
/// under `signature` is appended to the tree and the slot is emptied.
/// `authorized` tells whether `signature` is the record owner's signature of
/// the record's content hash. On failure nothing changes.
pub fn compress(
    hot: &mut HotContainer,
    index: usize,
    cold: &mut ColdContainer,
    signature: &Signature,
    authorized: bool,
) -> (r: Result<(), StorageError>)
    requires
        old(hot).wf(),
        old(cold).wf(),
    ensures
        final(hot).wf(),
        final(cold).wf(),
        match compress_failure(*old(hot), index as int, *old(cold), authorized) {
            Some(e) => r == Err::<(), StorageError>(e) && *final(hot) == *old(hot) && *final(cold)
                == *old(cold),
            None => {
                &&& r is Ok
                &&& final(cold).tree() == old(cold).tree().inserted(
                    commitment(signature@, record_in(old(hot).view()[index as int].bytes)),
                )
                &&& final(cold).vm == old(cold).vm
                &&& final(cold).name == old(cold).name
                &&& final(cold).bump == old(cold).bump
                &&& final(hot).header == old(hot).header
                &&& final(hot).view() == old(hot).view().update(
                    index as int,
                    SlotView { used: false, bytes: zeros(old(hot).slot_size()) },
                )
            },
        },
{
    let record = match hot.read_record(index) {
        Ok(a) => a,
        Err(e) => {
            return Err(e);
        },
    };
    let ghost bytes = hot.view()[index as int].bytes;
    proof {
        lemma_record_in(bytes, record@);
    }
    if !authorized {
        return Err(StorageError::AuthorizationFailed);
    }
    let depth = cold.compressed_state.get_depth();
    if cold.compressed_state.next_index >= capacity_of(depth) {
        return Err(StorageError::ArchiveFull);
    }
    let h = record.get_hash();
    let leaf = hash_concat(&signature.value, &h.value);
    match cold.compressed_state.try_insert(leaf) {
        Ok(_) => {},
        Err(_) => {
            return Err(StorageError::ArchiveFull);
        },
    }
    match hot.clear_item(index) {
        Ok(()) => {},
        Err(e) => {
            return Err(e);
        },
    }
    Ok(())
}

/// Brings an archived record back: `packed` is decoded, its commitment
/// under `signature` is proved by `proof` and removed from the tree, and the
/// record is written into the empty slot `dest` of `hot`. On failure
/// nothing changes.
pub fn decompress(
    cold: &mut ColdContainer,
    proof: &[crate::hash::Hash],
    signature: &Signature,
    packed: &[u8],
    hot: &mut HotContainer,
    dest: usize,
) -> (r: Result<(), StorageError>)
    requires
        old(hot).wf(),
        old(cold).wf(),
    ensures
        final(hot).wf(),
        final(cold).wf(),
        match decompress_failure(*old(cold), hashes(proof@), signature@, packed@, *old(hot), dest as int) {
            Some(e) => r == Err::<(), StorageError>(e) && *final(hot) == *old(hot) && *final(cold)
                == *old(cold),
            None => {
                &&& r is Ok
                &&& final(cold).tree() == old(cold).tree().removed(
                    hashes(proof@),
                    commitment(signature@, record_in(packed@)),
                )
                &&& final(cold).vm == old(cold).vm
                &&& final(cold).name == old(cold).name
                &&& final(cold).bump == old(cold).bump
                &&& final(hot).header == old(hot).header
                &&& final(hot).view() == old(hot).view().update(
                    dest as int,
                    SlotView {
                        used: true,
                        bytes: encode(record_in(packed@)) + zeros(
                            (old(hot).slot_size() - encode(record_in(packed@)).len()) as nat,
                        ),
                    },
                )
            },
        },
{
    let record = match VirtualAccount::unpack(packed) {
        Ok(a) => a,
        Err(e) => {
            return Err(e);
        },
    };
    proof {
        lemma_record_in(packed@, record@);
    }
    let h = record.get_hash();
    let leaf = hash_concat(&signature.value, &h.value);
    if !cold.compressed_state.contains(proof, leaf) {
        return Err(StorageError::ProofMismatch);
    }
    if dest >= hot.header.num_accounts as usize {
        return Err(StorageError::IndexOutOfRange);
    }
    if hot.has_item(dest) {
        return Err(StorageError::SlotOccupied);
    }
    let bytes = record.pack();
    if bytes.len() > hot.header.account_size as usize {
        return Err(StorageError::RecordTooLarge);
    }
    match cold.compressed_state.try_remove(proof, leaf) {
        Ok(()) => {},
        Err(e) => {
            return Err(e);
        },
    }
    match hot.write_record(dest, &record) {
        Ok(()) => {},
        Err(e) => {
            return Err(e);
        },
    }
    Ok(())
}

} // verus!
