use code_vm_core::account::{VirtualDurableNonce, VirtualTimelockAccount};
use code_vm_core::voting::{
    apply_vote, calculate_max_poll_duration, calculate_winning_option, compact_poll_complete_message,
    compact_poll_init_message, compact_poll_init_message_with_expiry, compact_vote_message,
    create_compact_message, create_poll_metadata, generate_poll_id, is_poll_active,
    is_poll_lock_compatible, parse_exec_data, parse_mem_banks, parse_mem_indices, tally_poll,
    verify_vote_validity, verify_vote_validity_with_expiry, voting_opcode, PollCompleteOp,
    PollInitOp, VoteOp, VotingError, VotingOpcode,
};
use sha2::{Digest, Sha256};

fn sha(parts: &[&[u8]]) -> [u8; 32] {
    let mut hasher = Sha256::new();
    for p in parts {
        hasher.update(p);
    }
    hasher.finalize().into()
}

fn vta(owner: u8, balance: u64) -> VirtualTimelockAccount {
    VirtualTimelockAccount {
        owner: [owner; 32],
        instance: code_vm_core::hash::Hash { value: [0; 32] },
        balance,
        token_bump: 0,
        unlock_bump: 0,
        withdraw_bump: 0,
    }
}

fn vdn() -> VirtualDurableNonce {
    VirtualDurableNonce { address: [11; 32], value: code_vm_core::hash::Hash { value: [12; 32] } }
}

#[test]
fn vote_op_parsing() {
    let mut data = vec![1u8; 64];
    data.extend_from_slice(&500u64.to_le_bytes());
    data.extend_from_slice(&[9u8; 32]);
    let op = VoteOp::try_from_bytes(&data).unwrap().to_struct().unwrap();
    assert_eq!(op.signature, [1u8; 64]);
    assert_eq!(op.amount, 500);
    assert_eq!(op.poll_id, [9u8; 32]);
    assert_eq!(VoteOp::try_from_bytes(&data[..103]).unwrap_err(), VotingError::InvalidInstructionData);
}

#[test]
fn poll_init_op_parsing() {
    let mut data = vec![2u8; 64];
    data.push(4);
    data.extend_from_slice(&[8u8; 32]);
    let op = PollInitOp::try_from_bytes(&data).unwrap();
    assert_eq!(op.options_count, 4);
    assert_eq!(op.poll_id, [8u8; 32]);
    assert_eq!(op.expiry_timestamp, None);
    data.extend_from_slice(&(-5i64).to_le_bytes());
    let op = PollInitOp::try_from_bytes(&data).unwrap();
    assert_eq!(op.expiry_timestamp, Some(-5));
    assert_eq!(PollInitOp::try_from_bytes(&data[..96]).unwrap_err(), VotingError::InvalidInstructionData);
}

#[test]
fn poll_complete_op_parsing() {
    let mut data = vec![3u8; 64];
    data.extend_from_slice(&[7u8; 32]);
    let op = PollCompleteOp::try_from_bytes(&data).unwrap();
    assert_eq!(op.signature, [3u8; 64]);
    assert_eq!(op.poll_id, [7u8; 32]);
    assert!(PollCompleteOp::try_from_bytes(&data[..95]).is_err());
}

#[test]
fn memory_index_and_bank_parsing() {
    let data = [2u8, 1, 0, 0x34, 0x12, 99];
    let (indices, rest) = parse_mem_indices(&data).unwrap();
    assert_eq!(indices, vec![1, 0x1234]);
    assert_eq!(rest, &[99]);
    assert!(parse_mem_indices(&[0]).is_err());
    assert!(parse_mem_indices(&[3, 1, 0]).is_err());
    let (banks, rest) = parse_mem_banks(&[2, 5, 6, 7]).unwrap();
    assert_eq!(banks, vec![5, 6]);
    assert_eq!(rest, &[7]);
    assert!(parse_mem_banks(&[]).is_err());
    assert!(parse_mem_banks(&[3, 1]).is_err());
}

#[test]
fn instruction_decoding() {
    let data = [1u8, 1, 5, 0, 2, 0, 1, 42, 43];
    let ix = parse_exec_data(&data).unwrap();
    assert_eq!(ix.opcode, 1);
    assert_eq!(ix.mem_indicies, vec![5]);
    assert_eq!(ix.mem_banks, vec![0, 1]);
    assert_eq!(ix.data, vec![42, 43]);
    assert_eq!(parse_exec_data(&[]).unwrap_err(), VotingError::InvalidInstructionData);
    assert!(parse_exec_data(&[1, 1, 5, 0]).is_err());
    assert_eq!(voting_opcode(1).unwrap(), VotingOpcode::Vote);
    assert_eq!(voting_opcode(2).unwrap(), VotingOpcode::PollInit);
    assert_eq!(voting_opcode(3).unwrap(), VotingOpcode::PollComplete);
    assert_eq!(voting_opcode(4).unwrap_err(), VotingError::InvalidInstructionData);
}

#[test]
fn winning_option() {
    let options = vec![vta(1, 0), vta(2, 0), vta(3, 0)];
    assert_eq!(calculate_winning_option(&options, &[5, 7, 4, 9], &[0, 1, 0, 7]), 0);
    assert_eq!(calculate_winning_option(&options, &[5, 7, 3], &[0, 1, 2]), 1);
    assert_eq!(calculate_winning_option(&options, &[5, 5], &[2, 1]), 1);
    assert_eq!(calculate_winning_option(&options, &[], &[]), 0);
    assert_eq!(calculate_winning_option(&[], &[3], &[0]), 0);
}

#[test]
fn vote_validity() {
    let voter = vta(1, 100);
    let options = vec![vta(2, 0), vta(3, 0)];
    assert!(verify_vote_validity(&voter, 100, 1, &options));
    assert!(!verify_vote_validity(&voter, 101, 1, &options));
    assert!(!verify_vote_validity(&voter, 1, 2, &options));
    let now = 1_000_000;
    assert!(verify_vote_validity_with_expiry(&voter, 10, 0, &options, now + 86_399, 1, now));
    assert!(!verify_vote_validity_with_expiry(&voter, 10, 0, &options, now + 86_400, 1, now));
}

#[test]
fn poll_timing() {
    assert!(is_poll_lock_compatible(100, 1, 0));
    assert!(!is_poll_lock_compatible(86_400, 1, 0));
    assert!(is_poll_lock_compatible(i64::MAX - 1, 255, i64::MAX));
    assert_eq!(calculate_max_poll_duration(21), 21 * 86_400 - 3_600);
    assert_eq!(calculate_max_poll_duration(0), -3_600);
}

#[test]
fn poll_metadata() {
    let creator = vta(4, 0);
    let m = create_poll_metadata(&creator, 3, b"ext", 3_600, 1, 1_000).unwrap();
    assert_eq!(m.creator, [4; 32]);
    assert_eq!(m.options_count, 3);
    assert_eq!(m.creation_timestamp, 1_000);
    assert_eq!(m.expiry_timestamp, 4_600);
    assert_eq!(m.poll_id, sha(&[b"poll_id", &[4; 32], b"ext"]).to_vec());
    assert_eq!(generate_poll_id(&creator, b"ext"), m.poll_id);
    assert!(is_poll_active(&m, 4_599));
    assert!(!is_poll_active(&m, 4_600));
    assert_eq!(
        create_poll_metadata(&creator, 3, b"ext", 86_400, 1, 1_000).err(),
        Some(VotingError::PollOutlivesLock)
    );
}

#[test]
fn compact_messages() {
    let n = vdn();
    let a = [1u8; 32];
    let b = [2u8; 32];
    assert_eq!(
        create_compact_message(b"t", b"xy", &n).value,
        sha(&[b"t", b"xy", &[11; 32], &[12; 32]])
    );
    assert_eq!(
        compact_vote_message(&a, &b, 7, b"pid", &n).value,
        sha(&[b"direct_vote", &a, &b, &7u64.to_le_bytes(), b"pid", &[11; 32], &[12; 32]])
    );
    assert_eq!(
        compact_poll_init_message(&a, b"pid", 3, &n).value,
        sha(&[b"poll_init", &a, b"pid", &[3], &[11; 32], &[12; 32]])
    );
    assert_eq!(
        compact_poll_init_message_with_expiry(&a, b"pid", 3, -2, &n).value,
        sha(&[b"poll_init_with_expiry", &a, b"pid", &[3], &(-2i64).to_le_bytes(), &[11; 32], &[12; 32]])
    );
    assert_eq!(
        compact_poll_complete_message(&a, &b, b"pid", &n).value,
        sha(&[b"poll_complete", &a, &b, b"pid", &[11; 32], &[12; 32]])
    );
}

#[test]
fn vote_transfer() {
    assert_eq!(apply_vote(100, 5, 40).unwrap(), (60, 45));
    assert_eq!(apply_vote(10, 5, 40).unwrap_err(), VotingError::InsufficientFunds);
    assert_eq!(apply_vote(100, u64::MAX, 1).unwrap_err(), VotingError::ArithmeticOverflow);
}

#[test]
fn poll_tally() {
    assert_eq!(tally_poll(10, &[3, 10, 0]).unwrap(), 23);
    assert_eq!(tally_poll(10, &[]).unwrap(), 10);
    assert_eq!(tally_poll(10, &[3, 11, 2]).unwrap_err(), VotingError::NotTheWinner);
    assert_eq!(tally_poll(u64::MAX, &[1, 99]).unwrap_err(), VotingError::ArithmeticOverflow);
}
