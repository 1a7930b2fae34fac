use code_vm_core::account::{
    DualTokenAccount, Ratio, VirtualAccount, VirtualDurableNonce, VirtualRelayAccount,
    VirtualTimelockAccount, get_variant_size,
};
use code_vm_core::allocator::SliceAllocator;
use code_vm_core::error::StorageError;
use code_vm_core::hash::{hash_concat, hash_pair, Signature};
use code_vm_core::memory::{HotContainer, MemoryAccount, MemoryVersion};
use code_vm_core::merkle::{capacity_of, MerkleTree};
use code_vm_core::storage::{compress, decompress, ColdContainer};
use sha2::{Digest, Sha256};

const DEPTH: usize = 20;

fn h(b: u8) -> code_vm_core::hash::Hash {
    code_vm_core::hash::Hash { value: [b; 32] }
}

fn label(s: &str) -> [u8; 32] {
    let mut out = [0u8; 32];
    out[..s.len()].copy_from_slice(s.as_bytes());
    out
}

fn tree_seed(name: &[u8; 32], vm: &[u8; 32]) -> Vec<u8> {
    let mut seed = b"merkletree".to_vec();
    seed.extend_from_slice(name);
    seed.extend_from_slice(vm);
    seed
}

fn sha(data: &[u8]) -> [u8; 32] {
    Sha256::digest(data).into()
}

fn sorted_pair(a: &[u8; 32], b: &[u8; 32]) -> [u8; 32] {
    let mut buf = Vec::new();
    if a <= b {
        buf.extend_from_slice(a);
        buf.extend_from_slice(b);
    } else {
        buf.extend_from_slice(b);
        buf.extend_from_slice(a);
    }
    sha(&buf)
}

/// The root of the full tree over `leaves`, computed level by level.
fn full_root(seed: &[u8], depth: usize, leaves: &[[u8; 32]]) -> [u8; 32] {
    let mut zero = sha(seed);
    let mut layer: Vec<[u8; 32]> = leaves.to_vec();
    for _ in 0..depth {
        let mut next = Vec::new();
        let mut i = 0;
        while i < layer.len() {
            let right = if i + 1 < layer.len() { layer[i + 1] } else { zero };
            next.push(sorted_pair(&layer[i], &right));
            i += 2;
        }
        layer = next;
        zero = sorted_pair(&zero, &zero);
    }
    if layer.is_empty() { zero } else { layer[0] }
}

fn nonce(owner: u8) -> VirtualAccount {
    VirtualAccount::Nonce(VirtualDurableNonce { address: [owner; 32], value: h(9) })
}

fn timelock() -> VirtualAccount {
    VirtualAccount::Timelock(VirtualTimelockAccount {
        owner: [1; 32],
        instance: h(2),
        balance: 0x0102_0304_0506_0708,
        token_bump: 250,
        unlock_bump: 251,
        withdraw_bump: 252,
    })
}

fn relay() -> VirtualAccount {
    VirtualAccount::Relay(VirtualRelayAccount { target: [3; 32], destination: [4; 32] })
}

fn dual_token(instance_len: usize) -> DualTokenAccount {
    DualTokenAccount {
        instance: (0..instance_len as u8).collect(),
        owner: [5; 32],
        kin_balance: 1000,
        second_token_balance: 2000,
        ratio: Ratio::new(3, 7),
        lock_duration: 21,
        unlock_time: -1_700_000_000,
        instance_hash: h(6),
        bump: 1,
        token_bump: 2,
        unlock_bump: 3,
        withdraw_bump: 4,
    }
}

fn same_account(a: &VirtualAccount, b: &VirtualAccount) -> bool {
    a.pack() == b.pack() && a.tag() == b.tag()
}

#[test]
fn run_system_account_decompress() {
    let vm_address = [21u8; 32];
    let name = label("test");
    let seed = tree_seed(&name, &vm_address);
    let mut hot = HotContainer::new(vm_address, name, 255, 100, 180);
    let mut cold = ColdContainer::new(vm_address, name, 254, &seed, DEPTH);

    let account_index = 0;
    assert!(hot.write_record(account_index, &nonce(8)).is_ok());

    let data = hot.read_item(account_index).unwrap();
    let va = VirtualAccount::unpack(&data).unwrap();
    let va_hash = va.get_hash();

    let sig = Signature { value: [17u8; 64] };
    let sig_hash = hash_concat(&sig.value, &va_hash.value);

    assert!(compress(&mut hot, account_index, &mut cold, &sig, true).is_ok());
    assert!(hot.is_empty(account_index));

    let mut expected = MerkleTree::new(&seed, DEPTH);
    assert!(expected.try_insert(sig_hash).is_ok());
    assert_eq!(expected.get_root().value, cold.get_root().value);

    let packed_va = va.pack();
    let proof = expected.get_merkle_proof(&[sig_hash], 0);
    let account_index = 42;

    assert!(decompress(&mut cold, &proof, &sig, &packed_va, &mut hot, account_index).is_ok());

    assert!(expected.try_remove(&proof, sig_hash).is_ok());
    assert_eq!(expected.get_root().value, cold.get_root().value);

    assert!(hot.is_empty(0));
    assert!(hot.has_item(account_index));

    let data = hot.read_item(account_index).unwrap();
    let va = VirtualAccount::unpack(&data).unwrap();
    assert!(va.into_inner_nonce().is_some());
}

#[test]
fn sha256_of_known_input() {
    let d = code_vm_core::hash::Hash::new(b"abc");
    assert_eq!(
        d.value,
        [
            0xba, 0x78, 0x16, 0xbf, 0x8f, 0x01, 0xcf, 0xea, 0x41, 0x41, 0x40, 0xde, 0x5d, 0xae,
            0x22, 0x23, 0xb0, 0x03, 0x61, 0xa3, 0x96, 0x17, 0x7a, 0x9c, 0xb4, 0x10, 0xff, 0x61,
            0xf2, 0x00, 0x15, 0xad
        ]
    );
    assert_eq!(hash_concat(b"ab", b"c").value, d.value);
}

#[test]
fn pair_hash_ignores_order() {
    let a = h(1);
    let b = h(2);
    assert_eq!(hash_pair(&a, &b).value, hash_pair(&b, &a).value);
    assert_eq!(hash_pair(&a, &b).value, sorted_pair(&a.value, &b.value));
}

#[test]
fn round_trip_every_kind() {
    let records = vec![
        nonce(1),
        timelock(),
        VirtualAccount::DualToken(dual_token(0)),
        VirtualAccount::DualToken(dual_token(28)),
        relay(),
    ];
    for r in records {
        let bytes = r.pack();
        let back = VirtualAccount::unpack(&bytes).unwrap();
        assert!(same_account(&r, &back));
    }
}

#[test]
fn round_trip_keeps_dual_token_fields() {
    let d = dual_token(5);
    let back = VirtualAccount::unpack(&VirtualAccount::DualToken(d.clone()).pack())
        .unwrap()
        .into_inner_dual_token()
        .unwrap();
    assert_eq!(back.instance, d.instance);
    assert_eq!(back.unlock_time, -1_700_000_000);
    assert_eq!(back.ratio.kin_parts, 3);
    assert_eq!(back.ratio.token_parts, 7);
    assert_eq!(back.ratio.ratio_hash.value, d.ratio.ratio_hash.value);
    assert_eq!(back.withdraw_bump, 4);
}

#[test]
fn encoded_sizes() {
    assert_eq!(nonce(1).pack().len(), 65);
    assert_eq!(timelock().pack().len(), 76);
    assert_eq!(relay().pack().len(), 65);
    assert_eq!(VirtualAccount::DualToken(dual_token(3)).pack().len(), 174);
    assert_eq!(nonce(1).get_size(), 65);
    assert_eq!(get_variant_size(2), DualTokenAccount::LEN);
    assert_eq!(get_variant_size(4), 0);
    assert!(dual_token(28).to_bytes().len() <= DualTokenAccount::LEN);
}

#[test]
fn timelock_layout_is_little_endian() {
    let bytes = timelock().pack();
    assert_eq!(bytes[0], 1);
    assert_eq!(&bytes[65..73], &[8, 7, 6, 5, 4, 3, 2, 1]);
    assert_eq!(&bytes[73..76], &[250, 251, 252]);
}

#[test]
fn dual_token_layout_has_length_prefix() {
    let bytes = VirtualAccount::DualToken(dual_token(3)).pack();
    assert_eq!(bytes[0], 2);
    assert_eq!(&bytes[1..5], &[3, 0, 0, 0]);
    assert_eq!(&bytes[5..8], &[0, 1, 2]);
    assert_eq!(&bytes[8..40], &[5u8; 32]);
    assert!(bytes[149..].iter().all(|b| *b == 0));
}

#[test]
fn decode_rejects_malformed_input() {
    assert_eq!(VirtualAccount::unpack(&[]).unwrap_err(), StorageError::MalformedRecord);
    assert_eq!(VirtualAccount::unpack(&[4u8; 80]).unwrap_err(), StorageError::MalformedRecord);
    let mut short = nonce(1).pack();
    short.pop();
    assert_eq!(VirtualAccount::unpack(&short).unwrap_err(), StorageError::MalformedRecord);
    let mut long_blob = VirtualAccount::DualToken(dual_token(3)).pack();
    long_blob[1] = 29;
    assert_eq!(VirtualAccount::unpack(&long_blob).unwrap_err(), StorageError::MalformedRecord);
}

#[test]
fn decode_ignores_trailing_bytes() {
    let mut bytes = relay().pack();
    bytes.extend_from_slice(&[0u8; 10]);
    assert!(same_account(&VirtualAccount::unpack(&bytes).unwrap(), &relay()));
}

#[test]
fn narrowing_accessors() {
    assert!(nonce(1).is_nonce() && !nonce(1).is_relay());
    assert!(timelock().is_timelock() && !timelock().is_dual_token());
    assert!(relay().into_inner_relay().is_some());
    assert!(relay().into_inner_timelock().is_none());
    assert!(nonce(1).into_inner_dual_token().is_none());
    assert!(VirtualAccount::DualToken(dual_token(1)).is_dual_token());
}

#[test]
fn content_hash_rule() {
    let n = nonce(1);
    assert_eq!(n.get_hash().value, sha(&n.pack()));
    let d = dual_token(4);
    let instance = d.instance.clone();
    assert_eq!(VirtualAccount::DualToken(d).get_hash().value, sha(&instance));
}

#[test]
fn ratio_hash_and_verify() {
    let r = Ratio::new(3, 7);
    let mut bytes = 3u64.to_le_bytes().to_vec();
    bytes.extend_from_slice(&7u64.to_le_bytes());
    assert_eq!(r.ratio_hash.value, sha(&bytes));
    assert!(r.verify(6, 14));
    assert!(!r.verify(6, 15));
    let big = Ratio::new(u64::MAX, u64::MAX);
    assert!(big.verify(u64::MAX, u64::MAX));
}

#[test]
fn allocator_bounds_and_round_trip() {
    let mut a = SliceAllocator::new(4, 70);
    assert_eq!(SliceAllocator::get_size(4, 70), 284);
    assert_eq!(a.read_item(4).unwrap_err(), StorageError::IndexOutOfRange);
    assert_eq!(a.write_item(4, &[1]).unwrap_err(), StorageError::IndexOutOfRange);
    assert_eq!(a.clear_item(9).unwrap_err(), StorageError::IndexOutOfRange);
    assert_eq!(a.write_item(1, &[1u8; 71]).unwrap_err(), StorageError::RecordTooLarge);
    assert!(a.is_empty(1));
    let bytes = nonce(3).pack();
    a.write_item(1, &bytes).unwrap();
    assert!(!a.is_empty(1));
    assert!(a.has_item(1));
    let back = a.read_item(1).unwrap();
    assert_eq!(back.len(), 70);
    assert_eq!(&back[..65], &bytes[..]);
    assert!(back[65..].iter().all(|b| *b == 0));
    assert!(same_account(&VirtualAccount::unpack(&back).unwrap(), &nonce(3)));
    assert!(a.is_empty(0) && a.is_empty(2));
    a.clear_item(1).unwrap();
    assert!(a.is_empty(1));
    assert_eq!(a.read_item(1).unwrap(), vec![0u8; 70]);
    assert!(a.is_empty(100));
}

#[test]
fn hot_container_records() {
    let mut hot = HotContainer::new([1; 32], label("mem"), 7, 3, 80);
    assert_eq!(hot.read_record(0).unwrap_err(), StorageError::SlotEmpty);
    assert_eq!(hot.read_record(3).unwrap_err(), StorageError::IndexOutOfRange);
    hot.write_record(2, &timelock()).unwrap();
    assert!(same_account(&hot.read_record(2).unwrap(), &timelock()));
    assert_eq!(
        hot.write_record(0, &VirtualAccount::DualToken(dual_token(1))).unwrap_err(),
        StorageError::RecordTooLarge
    );
    hot.clear_item(2).unwrap();
    assert!(hot.is_empty(2));
}

#[test]
fn memory_header_parsing() {
    assert_eq!(MemoryAccount::get_size(), 86);
    assert_eq!(MemoryAccount::get_size_with_data(10, 100), 86 + 1010);
    let mut data = vec![0u8; 8];
    data.extend_from_slice(&[7u8; 32]);
    data.extend_from_slice(&label("bank"));
    data.push(250);
    data.push(0);
    data.extend_from_slice(&300u16.to_le_bytes());
    data.extend_from_slice(&1000u32.to_le_bytes());
    data.extend_from_slice(&[0u8; 6]);
    data.extend_from_slice(&[42u8; 5]);
    let mut header = MemoryAccount::unpack(&data);
    assert_eq!(header.vm, [7u8; 32]);
    assert_eq!(header.name, label("bank"));
    assert_eq!(header.bump, 250);
    assert_eq!(header.get_account_size(), 300);
    assert_eq!(header.get_capacity(), 1000);
    assert_eq!(header.get_version(), MemoryVersion::Legacy);
    assert_eq!(MemoryAccount::get_capacity_and_size(&data), (1000, 300));
    assert_eq!(MemoryAccount::get_data(&data), &[42u8; 5]);
    header.set_num_accounts(5);
    header.set_account_size(9);
    header.version = 1;
    assert_eq!(header.get_capacity(), 5);
    assert_eq!(header.get_account_size(), 9);
    assert_eq!(header.get_version(), MemoryVersion::Current);
}

#[test]
fn hot_container_from_account_data() {
    let mut data = vec![0u8; 8];
    data.extend_from_slice(&[7u8; 32]);
    data.extend_from_slice(&label("bank"));
    data.push(250);
    data.push(1);
    data.extend_from_slice(&70u16.to_le_bytes());
    data.extend_from_slice(&2u32.to_le_bytes());
    data.extend_from_slice(&[0u8; 6]);
    let mut region = vec![0u8; 142];
    region[71] = 1;
    region[72..137].copy_from_slice(&nonce(6).pack());
    data.extend_from_slice(&region);
    let hot = HotContainer::from_account_data(&data).unwrap();
    assert!(hot.is_empty(0));
    assert!(hot.has_item(1));
    assert!(same_account(&hot.read_record(1).unwrap(), &nonce(6)));
    assert_eq!(hot.slots.region(), &region[..]);
    assert!(HotContainer::from_account_data(&data[..200]).is_none());
    assert!(HotContainer::from_account_data(&data[..50]).is_none());
    let fresh = HotContainer::new([1; 32], label("x"), 0, 2, 4);
    assert_eq!(fresh.header.get_version(), MemoryVersion::Current);
    assert_eq!(fresh.slots.region(), &[0u8; 10]);
}

#[test]
fn deep_tree_capacity() {
    assert_eq!(capacity_of(63), 1u64 << 63);
    let mut tree = MerkleTree::new(b"deep", 63);
    assert_eq!(tree.try_insert(h(1)).unwrap(), 0);
    let proof = tree.get_merkle_proof(&[h(1)], 0);
    assert_eq!(proof.len(), 63);
    tree.try_remove(&proof, h(1)).unwrap();
    assert_eq!(tree.get_root().value, full_root(b"deep", 63, &[]));
}

#[test]
fn sequential_inserts_match_full_tree() {
    let seed = b"seed".to_vec();
    let mut tree = MerkleTree::new(&seed, 3);
    assert_eq!(tree.get_root().value, full_root(&seed, 3, &[]));
    let leaves: Vec<[u8; 32]> = (1..=5u8).map(|b| [b; 32]).collect();
    for (i, l) in leaves.iter().enumerate() {
        assert_eq!(tree.try_insert(code_vm_core::hash::Hash { value: *l }).unwrap(), i as u64);
        assert_eq!(tree.get_root().value, full_root(&seed, 3, &leaves[..=i]));
    }
}

#[test]
fn merkle_proof_siblings() {
    let seed = b"seed".to_vec();
    let tree = MerkleTree::new(&seed, 2);
    let leaves = [h(1), h(2), h(3)];
    let proof = tree.get_merkle_proof(&leaves, 2);
    assert_eq!(proof.len(), 2);
    assert_eq!(proof[0].value, sha(&seed));
    assert_eq!(proof[1].value, sorted_pair(&[1; 32], &[2; 32]));
}

#[test]
fn removal_law() {
    let seed = b"seed".to_vec();
    let mut tree = MerkleTree::new(&seed, 3);
    let leaves: Vec<code_vm_core::hash::Hash> = (1..=4u8).map(h).collect();
    for l in &leaves {
        tree.try_insert(*l).unwrap();
    }
    let proof = tree.get_merkle_proof(&leaves, 1);
    assert!(tree.contains(&proof, leaves[1]));
    tree.try_remove(&proof, leaves[1]).unwrap();
    let zero = sha(&seed);
    let expected = full_root(&seed, 3, &[[1; 32], zero, [3; 32], [4; 32]]);
    assert_eq!(tree.get_root().value, expected);
    assert_eq!(tree.next_index, 4);
    let before = tree.get_root().value;
    assert_eq!(tree.try_remove(&proof, leaves[1]).unwrap_err(), StorageError::ProofMismatch);
    assert_eq!(tree.get_root().value, before);
    assert_eq!(tree.try_remove(&proof[..2], leaves[1]).unwrap_err(), StorageError::ProofMismatch);
    let leaf = code_vm_core::hash::Hash { value: [5; 32] };
    assert_eq!(tree.try_insert(leaf).unwrap(), 4);
    let expected = full_root(&seed, 3, &[[1; 32], zero, [3; 32], [4; 32], [5; 32]]);
    assert_eq!(tree.get_root().value, expected);
}

#[test]
fn tree_full_after_capacity() {
    let mut tree = MerkleTree::new(b"s", 2);
    assert_eq!(capacity_of(2), 4);
    for i in 0..4u8 {
        tree.try_insert(h(i)).unwrap();
    }
    let root = tree.get_root().value;
    assert_eq!(tree.try_insert(h(9)).unwrap_err(), StorageError::TreeFull);
    assert_eq!(tree.get_root().value, root);
    assert_eq!(tree.next_index, 4);
}

#[test]
fn compress_without_authorization_changes_nothing() {
    let mut hot = HotContainer::new([1; 32], label("m"), 0, 2, 80);
    let mut cold = ColdContainer::new([1; 32], label("m"), 0, b"seed", 4);
    hot.write_record(0, &relay()).unwrap();
    let slot_before = hot.read_item(0).unwrap();
    let root_before = cold.get_root().value;
    let sig = Signature { value: [1u8; 64] };
    assert_eq!(
        compress(&mut hot, 0, &mut cold, &sig, false).unwrap_err(),
        StorageError::AuthorizationFailed
    );
    assert!(hot.has_item(0));
    assert_eq!(hot.read_item(0).unwrap(), slot_before);
    assert_eq!(cold.get_root().value, root_before);
    assert_eq!(cold.compressed_state.next_index, 0);
}

#[test]
fn compress_errors() {
    let mut hot = HotContainer::new([1; 32], label("m"), 0, 2, 80);
    let mut cold = ColdContainer::new([1; 32], label("m"), 0, b"seed", 1);
    let sig = Signature { value: [1u8; 64] };
    assert_eq!(compress(&mut hot, 5, &mut cold, &sig, true).unwrap_err(), StorageError::IndexOutOfRange);
    assert_eq!(compress(&mut hot, 0, &mut cold, &sig, true).unwrap_err(), StorageError::SlotEmpty);
    hot.slots.write_item(1, &[9u8; 3]).unwrap();
    assert_eq!(compress(&mut hot, 1, &mut cold, &sig, true).unwrap_err(), StorageError::MalformedRecord);
}

#[test]
fn archive_full_after_capacity() {
    let mut hot = HotContainer::new([1; 32], label("m"), 0, 3, 80);
    let mut cold = ColdContainer::new([1; 32], label("m"), 0, b"seed", 1);
    let sig = Signature { value: [2u8; 64] };
    for i in 0..3 {
        hot.write_record(i, &nonce(i as u8)).unwrap();
    }
    compress(&mut hot, 0, &mut cold, &sig, true).unwrap();
    compress(&mut hot, 1, &mut cold, &sig, true).unwrap();
    let root = cold.get_root().value;
    assert_eq!(compress(&mut hot, 2, &mut cold, &sig, true).unwrap_err(), StorageError::ArchiveFull);
    assert!(hot.has_item(2));
    assert_eq!(cold.get_root().value, root);
    assert_eq!(cold.compressed_state.next_index, 2);
}

#[test]
fn decompress_errors() {
    let seed = b"seed".to_vec();
    let mut hot = HotContainer::new([1; 32], label("m"), 0, 3, 70);
    let mut cold = ColdContainer::new([1; 32], label("m"), 0, &seed, 3);
    let sig = Signature { value: [3u8; 64] };
    let record = nonce(4);
    hot.write_record(0, &record).unwrap();
    compress(&mut hot, 0, &mut cold, &sig, true).unwrap();
    let leaf = hash_concat(&sig.value, &record.get_hash().value);
    let proof = cold.compressed_state.get_merkle_proof(&[leaf], 0);
    let packed = record.pack();
    let root = cold.get_root().value;

    assert_eq!(
        decompress(&mut cold, &proof, &sig, &[7u8], &mut hot, 1).unwrap_err(),
        StorageError::MalformedRecord
    );
    let other_sig = Signature { value: [4u8; 64] };
    assert_eq!(
        decompress(&mut cold, &proof, &other_sig, &packed, &mut hot, 1).unwrap_err(),
        StorageError::ProofMismatch
    );
    assert_eq!(
        decompress(&mut cold, &proof, &sig, &packed, &mut hot, 3).unwrap_err(),
        StorageError::IndexOutOfRange
    );
    hot.write_record(1, &relay()).unwrap();
    assert_eq!(
        decompress(&mut cold, &proof, &sig, &packed, &mut hot, 1).unwrap_err(),
        StorageError::SlotOccupied
    );
    assert_eq!(cold.get_root().value, root);

    let mut small = HotContainer::new([1; 32], label("s"), 0, 1, 40);
    assert_eq!(
        decompress(&mut cold, &proof, &sig, &packed, &mut small, 0).unwrap_err(),
        StorageError::RecordTooLarge
    );
    assert_eq!(cold.get_root().value, root);

    decompress(&mut cold, &proof, &sig, &packed, &mut hot, 2).unwrap();
    assert!(same_account(&hot.read_record(2).unwrap(), &record));
    assert_eq!(
        decompress(&mut cold, &proof, &sig, &packed, &mut hot, 0).unwrap_err(),
        StorageError::ProofMismatch
    );
}

#[test]
fn dual_token_pack_into_buffer() {
    let d = dual_token(2);
    let mut buf = [0xAAu8; 160];
    d.pack(&mut buf).unwrap();
    assert_eq!(&buf[..147], &d.to_bytes()[..]);
    assert!(buf[147..].iter().all(|b| *b == 0xAA));
    let back = DualTokenAccount::unpack(&buf[..147]).unwrap();
    assert_eq!(back.instance, vec![0, 1]);
    assert_eq!(DualTokenAccount::unpack(&buf).unwrap_err(), StorageError::MalformedRecord);
    let mut trailing = d.to_bytes();
    trailing.push(0);
    assert_eq!(DualTokenAccount::unpack(&trailing).unwrap_err(), StorageError::MalformedRecord);
    let long = dual_token(40);
    let mut big = [0u8; 185];
    long.pack(&mut big).unwrap();
    assert_eq!(DualTokenAccount::unpack(&big).unwrap().instance.len(), 40);
    let mut tiny = [0u8; 10];
    assert_eq!(d.pack(&mut tiny).unwrap_err(), StorageError::RecordTooLarge);
    assert_eq!(tiny, [0u8; 10]);
    assert_eq!(DualTokenAccount::unpack(&buf[..100]).unwrap_err(), StorageError::MalformedRecord);
}
