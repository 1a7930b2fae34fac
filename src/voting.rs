use vstd::prelude::*;
use vstd::bytes::{
    spec_u16_to_le_bytes, spec_u16_from_le_bytes, spec_u64_to_le_bytes, u16_from_le_bytes,
    lemma_auto_spec_u16_to_from_le_bytes,
};
use vstd::slice::slice_subrange;
use vstd::string::StringSliceAdditionalSpecFns;
use crate::account::{
    Pubkey, VirtualDurableNonce, VirtualTimelockAccount, i64_bits, bits_to_i64, read_key,
    read_u64, push_u64,
};
use crate::hash::sha256_of;

verus! {

/// Ways a voting instruction is refused.
#[derive(Clone, Copy, Debug, PartialEq, Eq, Structural)]
pub enum VotingError {
    /// The instruction bytes are too short or inconsistent.
    InvalidInstructionData,
    /// The poll would outlive the lock of the voting accounts.
    PollOutlivesLock,
    /// The voter's balance is below the amount of the vote.
    InsufficientFunds,
    /// A balance or a total would not fit in 64 bits.
    ArithmeticOverflow,
    /// An option has more votes than the one named the winner.
    NotTheWinner,
}

/// Seconds in a day.
pub const SECONDS_PER_DAY: i64 = 86400;

/// Margin kept between the longest poll and the end of the lock.
pub const POLL_SAFETY_MARGIN: i64 = 3600;

/// The 64 bytes of `src` from `off`.
fn read_signature(src: &[u8], off: usize) -> (r: [u8; 64])
    requires
        off + 64 <= src.len(),
    ensures
        r@ == src@.subrange(off as int, off + 64),
{
    let mut r = [0u8; 64];
    let mut i: usize = 0;
    while i < 64
        invariant
            off + 64 <= src.len(),
            i <= 64,
            forall|j: int| 0 <= j < i ==> #[trigger] r@[j] == src@[off + j],
        decreases 64 - i,
    {
        r[i] = src[off + i];
        i = i + 1;
    }
    assert(r@ =~= src@.subrange(off as int, off + 64));
    r
}

/// A vote: a signature, the amount moved, and the poll.
#[derive(Debug)]
pub struct VoteOp {
    pub signature: [u8; 64],
    pub amount: u64,
    pub poll_id: [u8; 32],
}

/// Bytes of a vote instruction.
pub const VOTE_OP_LEN: usize = 104;

impl VoteOp {
    /// The vote at the front of `data`: signature, amount (little endian),
    /// poll id.
    pub fn try_from_bytes(data: &[u8]) -> (r: Result<VoteOp, VotingError>)
        ensures
            match r {
                Ok(op) => {
                    &&& data@.len() >= VOTE_OP_LEN
                    &&& op.signature@ == data@.subrange(0, 64)
                    &&& spec_u64_to_le_bytes(op.amount) == data@.subrange(64, 72)
                    &&& op.poll_id@ == data@.subrange(72, 104)
                },
                Err(e) => data@.len() < VOTE_OP_LEN && e == VotingError::InvalidInstructionData,
            },
    {
        if data.len() < VOTE_OP_LEN {
            return Err(VotingError::InvalidInstructionData);
        }
        let signature = read_signature(data, 0);
        let amount = read_u64(data, 64);
        let poll_id = read_key(data, 72);
        Ok(VoteOp { signature, amount, poll_id })
    }

    pub fn to_struct(self) -> (r: Result<VoteOp, VotingError>)
        ensures
            r matches Ok(op) && op == self,
    {
        Ok(self)
    }
}

/// The start of a poll: a signature, the number of options, the poll, and
/// perhaps when it expires.
#[derive(Debug)]
pub struct PollInitOp {
    pub signature: [u8; 64],
    pub options_count: u8,
    pub poll_id: [u8; 32],
    pub expiry_timestamp: Option<i64>,
}

/// Bytes of a poll start without its expiry.
pub const POLL_INIT_OP_LEN: usize = 97;

impl PollInitOp {
    /// The poll start at the front of `data`; the expiry (little endian)
    /// is read when eight more bytes follow.
    pub fn try_from_bytes(data: &[u8]) -> (r: Result<PollInitOp, VotingError>)
        ensures
            match r {
                Ok(op) => {
                    &&& data@.len() >= POLL_INIT_OP_LEN
                    &&& op.signature@ == data@.subrange(0, 64)
                    &&& op.options_count == data@[64]
                    &&& op.poll_id@ == data@.subrange(65, 97)
                    &&& (op.expiry_timestamp is Some <==> data@.len() >= POLL_INIT_OP_LEN + 8)
                    &&& (op.expiry_timestamp matches Some(t) ==> spec_u64_to_le_bytes(i64_bits(t))
                        == data@.subrange(97, 105))
                },
                Err(e) => data@.len() < POLL_INIT_OP_LEN && e == VotingError::InvalidInstructionData,
            },
    {
        if data.len() < POLL_INIT_OP_LEN {
            return Err(VotingError::InvalidInstructionData);
        }
        let signature = read_signature(data, 0);
        let options_count = data[64];
        let poll_id = read_key(data, 65);
        let expiry_timestamp = if data.len() >= POLL_INIT_OP_LEN + 8 {
            Some(bits_to_i64(read_u64(data, 97)))
        } else {
            None
        };
        Ok(PollInitOp { signature, options_count, poll_id, expiry_timestamp })
    }
}

/// The end of a poll: a signature and the poll.
#[derive(Debug)]
pub struct PollCompleteOp {
    pub signature: [u8; 64],
    pub poll_id: [u8; 32],
}

/// Bytes of a poll completion.
pub const POLL_COMPLETE_OP_LEN: usize = 96;

impl PollCompleteOp {
    pub fn try_from_bytes(data: &[u8]) -> (r: Result<PollCompleteOp, VotingError>)
        ensures
            match r {
                Ok(op) => {
                    &&& data@.len() >= POLL_COMPLETE_OP_LEN
                    &&& op.signature@ == data@.subrange(0, 64)
                    &&& op.poll_id@ == data@.subrange(64, 96)
                },
                Err(e) => data@.len() < POLL_COMPLETE_OP_LEN && e
                    == VotingError::InvalidInstructionData,
            },
    {
        if data.len() < POLL_COMPLETE_OP_LEN {
            return Err(VotingError::InvalidInstructionData);
        }
        let signature = read_signature(data, 0);
        let poll_id = read_key(data, 64);
        Ok(PollCompleteOp { signature, poll_id })
    }
}

/// Memory indices at the front of `data`: a count byte, then that many
/// little-endian `u16`s; also returns what follows them. Fails when fewer
/// than two bytes are given or the indices are cut short.
pub fn parse_mem_indices(data: &[u8]) -> (r: Result<(Vec<u16>, &[u8]), VotingError>)
    ensures
        match r {
            Ok((indices, rest)) => {
                &&& data@.len() >= 2
                &&& data@.len() >= 1 + 2 * data@[0]
                &&& indices@.len() == data@[0]
                &&& forall|i: int|
                    0 <= i < indices@.len() ==> spec_u16_to_le_bytes(#[trigger] indices@[i])
                        == data@.subrange(1 + 2 * i, 3 + 2 * i)
                &&& rest@ == data@.subrange(1 + 2 * data@[0], data@.len() as int)
            },
            Err(e) => {
                &&& (data@.len() < 2 || data@.len() < 1 + 2 * data@[0])
                &&& e == VotingError::InvalidInstructionData
            },
        },
{
    if data.len() < 2 {
        return Err(VotingError::InvalidInstructionData);
    }
    let count = data[0] as usize;
    let required_len = 1 + count * 2;
    if data.len() < required_len {
        return Err(VotingError::InvalidInstructionData);
    }
    let mut indices: Vec<u16> = Vec::new();
    let mut i: usize = 0;
    while i < count
        invariant
            count == data@[0],
            required_len == 1 + 2 * count,
            required_len <= data@.len(),
            i <= count,
            indices@.len() == i,
            forall|k: int|
                0 <= k < i ==> spec_u16_to_le_bytes(#[trigger] indices@[k]) == data@.subrange(
                    1 + 2 * k,
                    3 + 2 * k,
                ),
        decreases count - i,
    {
        let start = 1 + i * 2;
        let index = u16_from_le_bytes(slice_subrange(data, start, start + 2));
        proof {
            lemma_auto_spec_u16_to_from_le_bytes();
            let s = data@.subrange(start as int, start + 2);
            assert(spec_u16_to_le_bytes(spec_u16_from_le_bytes(s)) == s);
        }
        indices.push(index);
        i = i + 1;
    }
    Ok((indices, slice_subrange(data, required_len, data.len())))
}

/// Memory banks at the front of `data`: a count byte, then that many bank
/// bytes; also returns what follows them.
pub fn parse_mem_banks(data: &[u8]) -> (r: Result<(Vec<u8>, &[u8]), VotingError>)
    ensures
        match r {
            Ok((banks, rest)) => {
                &&& data@.len() >= 1 + data@[0]
                &&& banks@ == data@.subrange(1, 1 + data@[0])
                &&& rest@ == data@.subrange(1 + data@[0], data@.len() as int)
            },
            Err(e) => {
                &&& (data@.len() == 0 || data@.len() < 1 + data@[0])
                &&& e == VotingError::InvalidInstructionData
            },
        },
{
    if data.len() == 0 {
        return Err(VotingError::InvalidInstructionData);
    }
    let count = data[0] as usize;
    let required_len = 1 + count;
    if data.len() < required_len {
        return Err(VotingError::InvalidInstructionData);
    }
    let mut banks: Vec<u8> = Vec::new();
    let mut i: usize = 0;
    while i < count
        invariant
            count == data@[0],
            required_len == 1 + count,
            required_len <= data@.len(),
            i <= count,
            banks@ == data@.subrange(1, 1 + i),
        decreases count - i,
    {
        banks.push(data[1 + i]);
        i = i + 1;
        assert(banks@ =~= data@.subrange(1, 1 + i));
    }
    Ok((banks, slice_subrange(data, required_len, data.len())))
}

/// Votes cast for option `k` among the first `n` votes.
pub open spec fn option_total(vote_amounts: Seq<u64>, vote_options: Seq<usize>, k: int, n: nat) -> int
    decreases n,
{
    if n == 0 {
        0
    } else {
        option_total(vote_amounts, vote_options, k, (n - 1) as nat) + if vote_options[n - 1] == k {
            vote_amounts[n - 1] as int
        } else {
            0
        }
    }
}

/// All votes cast for option `k`.
pub open spec fn votes_for(vote_amounts: Seq<u64>, vote_options: Seq<usize>, k: int) -> int {
    option_total(vote_amounts, vote_options, k, vote_options.len())
}

proof fn lemma_option_total_grows(vote_amounts: Seq<u64>, vote_options: Seq<usize>, k: int, i: nat, n: nat)
    requires
        i <= n,
    ensures
        0 <= option_total(vote_amounts, vote_options, k, i) <= option_total(
            vote_amounts,
            vote_options,
            k,
            n,
        ),
    decreases n,
{
    if n > 0 {
        if i < n {
            lemma_option_total_grows(vote_amounts, vote_options, k, i, (n - 1) as nat);
        } else {
            lemma_option_total_grows(vote_amounts, vote_options, k, 0, (n - 1) as nat);
        }
    }
}

/// The option with the most votes, the first of them on a tie; 0 when no
/// option has any. A vote for an index past the options counts for none.
pub fn calculate_winning_option(
    options: &[VirtualTimelockAccount],
    vote_amounts: &[u64],
    vote_options: &[usize],
) -> (r: usize)
    requires
        vote_amounts@.len() >= vote_options@.len(),
        forall|k: int|
            0 <= k < options@.len() ==> option_total(
                vote_amounts@,
                vote_options@,
                k,
                vote_options@.len(),
            ) <= u64::MAX,
    ensures
        if forall|k: int|
            0 <= k < options@.len() ==> #[trigger] votes_for(vote_amounts@, vote_options@, k) == 0 {
            r == 0
        } else {
            &&& r < options@.len()
            &&& forall|k: int|
                0 <= k < options@.len() ==> #[trigger] votes_for(vote_amounts@, vote_options@, k)
                    <= votes_for(vote_amounts@, vote_options@, r as int)
            &&& forall|k: int|
                0 <= k < r ==> #[trigger] votes_for(vote_amounts@, vote_options@, k) < votes_for(
                    vote_amounts@,
                    vote_options@,
                    r as int,
                )
        },
{
    let ghost n = vote_options@.len();
    let mut option_totals: Vec<u64> = Vec::new();
    let mut k: usize = 0;
    while k < options.len()
        invariant
            k <= options@.len(),
            option_totals@.len() == k,
            forall|m: int| 0 <= m < k ==> #[trigger] option_totals@[m] == 0,
        decreases options.len() - k,
    {
        option_totals.push(0);
        k = k + 1;
    }
    let mut i: usize = 0;
    while i < vote_options.len()
        invariant
            vote_amounts@.len() >= vote_options@.len(),
            n == vote_options@.len(),
            i <= n,
            option_totals@.len() == options@.len(),
            forall|m: int|
                0 <= m < options@.len() ==> option_total(vote_amounts@, vote_options@, m, n)
                    <= u64::MAX,
            forall|m: int|
                0 <= m < options@.len() ==> #[trigger] option_totals@[m] == option_total(
                    vote_amounts@,
                    vote_options@,
                    m,
                    i as nat,
                ),
        decreases n - i,
    {
        let option_idx = vote_options[i];
        if option_idx < options.len() {
            proof {
                lemma_option_total_grows(vote_amounts@, vote_options@, option_idx as int, (i + 1) as nat, n);
            }
            option_totals[option_idx] = option_totals[option_idx] + vote_amounts[i];
        }
        i = i + 1;
    }
    let mut max_votes: u64 = 0;
    let mut winning_idx: usize = 0;
    let mut j: usize = 0;
    while j < option_totals.len()
        invariant
            option_totals@.len() == options@.len(),
            j <= options@.len(),
            forall|m: int|
                0 <= m < options@.len() ==> #[trigger] option_totals@[m] == option_total(
                    vote_amounts@,
                    vote_options@,
                    m,
                    n,
                ),
            n == vote_options@.len(),
            forall|m: int| 0 <= m < j ==> option_totals@[m] <= max_votes,
            max_votes == 0 ==> winning_idx == 0,
            max_votes > 0 ==> winning_idx < j && option_totals@[winning_idx as int] == max_votes
                && forall|m: int| 0 <= m < winning_idx ==> option_totals@[m] < max_votes,
        decreases options.len() - j,
    {
        let total = option_totals[j];
        if total > max_votes {
            max_votes = total;
            winning_idx = j;
        }
        j = j + 1;
    }
    proof {
        assert forall|m: int| 0 <= m < options@.len() implies #[trigger] votes_for(vote_amounts@, vote_options@, m)
            == option_totals@[m] by {}
        if !(forall|k: int|
            0 <= k < options@.len() ==> #[trigger] votes_for(vote_amounts@, vote_options@, k) == 0) {
            let k0 = choose|k: int|
                0 <= k < options@.len() && #[trigger] votes_for(vote_amounts@, vote_options@, k) != 0;
            lemma_option_total_grows(vote_amounts@, vote_options@, k0, 0, n);
            assert(option_totals@[k0] > 0);
            assert(max_votes > 0);
            assert(votes_for(vote_amounts@, vote_options@, winning_idx as int) == max_votes);
            assert forall|k: int| 0 <= k < options@.len() implies #[trigger] votes_for(vote_amounts@, vote_options@, k)
                <= votes_for(vote_amounts@, vote_options@, winning_idx as int) by {
                assert(option_totals@[k] <= max_votes);
            }
            assert forall|k: int| 0 <= k < winning_idx implies #[trigger] votes_for(vote_amounts@, vote_options@, k)
                < votes_for(vote_amounts@, vote_options@, winning_idx as int) by {
                assert(option_totals@[k] < max_votes);
            }
        }
    }
    winning_idx
}

/// A vote is valid when the voter can pay it and the option exists.
pub fn verify_vote_validity(
    voter_vta: &VirtualTimelockAccount,
    amount: u64,
    option_idx: usize,
    options: &[VirtualTimelockAccount],
) -> (r: bool)
    ensures
        r == (voter_vta.balance >= amount && option_idx < options@.len()),
{
    if voter_vta.balance < amount {
        return false;
    }
    if option_idx >= options.len() {
        return false;
    }
    true
}

/// Whether a poll expiring at `poll_expiry_timestamp` ends before a lock of
/// `lock_duration` days taken at `current_timestamp` would.
pub fn is_poll_lock_compatible(poll_expiry_timestamp: i64, lock_duration: u8, current_timestamp: i64) -> (r: bool)
    ensures
        r == (poll_expiry_timestamp < current_timestamp + lock_duration * SECONDS_PER_DAY),
{
    let lock_duration_seconds = (lock_duration as i128) * 86400i128;
    let lock_expiry_timestamp = (current_timestamp as i128) + lock_duration_seconds;
    (poll_expiry_timestamp as i128) < lock_expiry_timestamp
}

/// A valid vote on a poll that ends before the voter's lock would.
pub fn verify_vote_validity_with_expiry(
    voter_vta: &VirtualTimelockAccount,
    amount: u64,
    option_idx: usize,
    options: &[VirtualTimelockAccount],
    poll_expiry_timestamp: i64,
    lock_duration: u8,
    current_timestamp: i64,
) -> (r: bool)
    ensures
        r == (voter_vta.balance >= amount && option_idx < options@.len() && poll_expiry_timestamp
            < current_timestamp + lock_duration * SECONDS_PER_DAY),
{
    if !verify_vote_validity(voter_vta, amount, option_idx, options) {
        return false;
    }
    is_poll_lock_compatible(poll_expiry_timestamp, lock_duration, current_timestamp)
}

/// The longest poll that still ends an hour before a lock of
/// `lock_duration` days.
pub fn calculate_max_poll_duration(lock_duration: u8) -> (r: i64)
    ensures
        r == lock_duration * SECONDS_PER_DAY - POLL_SAFETY_MARGIN,
{
    (lock_duration as i64) * 86400i64 - 3600i64
}

/// What is known of a poll.
#[derive(Debug)]
pub struct PollMetadata {
    pub creator: Pubkey,
    pub options_count: u8,
    pub creation_timestamp: i64,
    pub expiry_timestamp: i64,
    pub poll_id: Vec<u8>,
}

/// Whether the poll has not yet expired at `current_timestamp`.
pub fn is_poll_active(poll_metadata: &PollMetadata, current_timestamp: i64) -> (r: bool)
    ensures
        r == (current_timestamp < poll_metadata.expiry_timestamp),
{
    current_timestamp < poll_metadata.expiry_timestamp
}

/// The id of a poll: the digest of `"poll_id"`, the creator's owner key and
/// `external_data`.
pub fn generate_poll_id(creator_vta: &VirtualTimelockAccount, external_data: &[u8]) -> (r: Vec<u8>)
    ensures
        r@ == sha256_of("poll_id".spec_bytes() + creator_vta.owner@ + external_data@),
{
    let mut message: Vec<u8> = Vec::new();
    message.extend_from_slice("poll_id".as_bytes());
    message.extend_from_slice(&creator_vta.owner);
    message.extend_from_slice(external_data);
    assert(message@ =~= "poll_id".spec_bytes() + creator_vta.owner@ + external_data@);
    let h = crate::hash::Hash::new(message.as_slice());
    let mut out: Vec<u8> = Vec::new();
    out.extend_from_slice(&h.value);
    out
}

/// A poll created at `current_timestamp` that runs `poll_duration_seconds`;
/// fails with `PollOutlivesLock` unless it ends before a lock of
/// `lock_duration` days taken now would.
pub fn create_poll_metadata(
    creator_vta: &VirtualTimelockAccount,
    options_count: u8,
    external_data: &[u8],
    poll_duration_seconds: i64,
    lock_duration: u8,
    current_timestamp: i64,
) -> (r: Result<PollMetadata, VotingError>)
    requires
        i64::MIN <= current_timestamp + poll_duration_seconds <= i64::MAX,
    ensures
        match r {
            Ok(m) => {
                &&& current_timestamp + poll_duration_seconds < current_timestamp + lock_duration
                    * SECONDS_PER_DAY
                &&& m.creator == creator_vta.owner
                &&& m.options_count == options_count
                &&& m.creation_timestamp == current_timestamp
                &&& m.expiry_timestamp == current_timestamp + poll_duration_seconds
                &&& m.poll_id@ == sha256_of(
                    "poll_id".spec_bytes() + creator_vta.owner@ + external_data@,
                )
            },
            Err(e) => {
                &&& current_timestamp + poll_duration_seconds >= current_timestamp + lock_duration
                    * SECONDS_PER_DAY
                &&& e == VotingError::PollOutlivesLock
            },
        },
{
    let expiry_timestamp = current_timestamp + poll_duration_seconds;
    if !is_poll_lock_compatible(expiry_timestamp, lock_duration, current_timestamp) {
        return Err(VotingError::PollOutlivesLock);
    }
    let poll_id = generate_poll_id(creator_vta, external_data);
    Ok(PollMetadata {
        creator: creator_vta.owner,
        options_count,
        creation_timestamp: current_timestamp,
        expiry_timestamp,
        poll_id,
    })
}

/// The message that a durable nonce makes single-use: the digest of the
/// message type, the components, and the nonce's address and value.
pub fn create_compact_message(message_type: &[u8], components: &[u8], vdn: &VirtualDurableNonce) -> (r: crate::hash::Hash)
    ensures
        r@ == sha256_of(message_type@ + components@ + vdn.address@ + vdn.value@),
{
    let mut message: Vec<u8> = Vec::new();
    message.extend_from_slice(message_type);
    message.extend_from_slice(components);
    message.extend_from_slice(&vdn.address);
    message.extend_from_slice(&vdn.value.value);
    assert(message@ =~= message_type@ + components@ + vdn.address@ + vdn.value@);
    crate::hash::Hash::new(message.as_slice())
}

/// The message of a direct vote.
pub fn compact_vote_message(
    voter_token_address: &Pubkey,
    option_token_address: &Pubkey,
    amount: u64,
    poll_id: &[u8],
    vdn: &VirtualDurableNonce,
) -> (r: crate::hash::Hash)
    ensures
        r@ == sha256_of(
            "direct_vote".spec_bytes() + (voter_token_address@ + option_token_address@
                + spec_u64_to_le_bytes(amount) + poll_id@) + vdn.address@ + vdn.value@,
        ),
{
    let mut components: Vec<u8> = Vec::new();
    components.extend_from_slice(voter_token_address);
    components.extend_from_slice(option_token_address);
    push_u64(&mut components, amount);
    components.extend_from_slice(poll_id);
    assert(components@ =~= voter_token_address@ + option_token_address@ + spec_u64_to_le_bytes(
        amount,
    ) + poll_id@);
    create_compact_message("direct_vote".as_bytes(), components.as_slice(), vdn)
}

/// The message of a poll start.
pub fn compact_poll_init_message(
    creator_timelock_address: &Pubkey,
    poll_id: &[u8],
    options_count: u8,
    vdn: &VirtualDurableNonce,
) -> (r: crate::hash::Hash)
    ensures
        r@ == sha256_of(
            "poll_init".spec_bytes() + (creator_timelock_address@ + poll_id@ + seq![options_count])
                + vdn.address@ + vdn.value@,
        ),
{
    let mut components: Vec<u8> = Vec::new();
    components.extend_from_slice(creator_timelock_address);
    components.extend_from_slice(poll_id);
    components.push(options_count);
    assert(components@ =~= creator_timelock_address@ + poll_id@ + seq![options_count]);
    create_compact_message("poll_init".as_bytes(), components.as_slice(), vdn)
}

/// The message of a poll start with its expiry.
pub fn compact_poll_init_message_with_expiry(
    creator_timelock_address: &Pubkey,
    poll_id: &[u8],
    options_count: u8,
    expiry_timestamp: i64,
    vdn: &VirtualDurableNonce,
) -> (r: crate::hash::Hash)
    ensures
        r@ == sha256_of(
            "poll_init_with_expiry".spec_bytes() + (creator_timelock_address@ + poll_id@ + seq![
                options_count,
            ] + spec_u64_to_le_bytes(i64_bits(expiry_timestamp))) + vdn.address@ + vdn.value@,
        ),
{
    let mut components: Vec<u8> = Vec::new();
    components.extend_from_slice(creator_timelock_address);
    components.extend_from_slice(poll_id);
    components.push(options_count);
    push_u64(&mut components, crate::account::i64_to_bits(expiry_timestamp));
    assert(components@ =~= creator_timelock_address@ + poll_id@ + seq![options_count]
        + spec_u64_to_le_bytes(i64_bits(expiry_timestamp)));
    create_compact_message("poll_init_with_expiry".as_bytes(), components.as_slice(), vdn)
}

/// The message of a poll completion.
pub fn compact_poll_complete_message(
    creator_timelock_address: &Pubkey,
    winning_timelock_address: &Pubkey,
    poll_id: &[u8],
    vdn: &VirtualDurableNonce,
) -> (r: crate::hash::Hash)
    ensures
        r@ == sha256_of(
            "poll_complete".spec_bytes() + (creator_timelock_address@ + winning_timelock_address@
                + poll_id@) + vdn.address@ + vdn.value@,
        ),
{
    let mut components: Vec<u8> = Vec::new();
    components.extend_from_slice(creator_timelock_address);
    components.extend_from_slice(winning_timelock_address);
    components.extend_from_slice(poll_id);
    assert(components@ =~= creator_timelock_address@ + winning_timelock_address@ + poll_id@);
    create_compact_message("poll_complete".as_bytes(), components.as_slice(), vdn)
}

/// Balances after a vote of `amount` moves from the voter to the option:
/// `InsufficientFunds` when the voter holds less, `ArithmeticOverflow` when
/// the option's balance would not fit.
pub fn apply_vote(voter_balance: u64, option_balance: u64, amount: u64) -> (r: Result<(u64, u64), VotingError>)
    ensures
        match r {
            Ok((v, o)) => {
                &&& voter_balance >= amount
                &&& option_balance + amount <= u64::MAX
                &&& v == voter_balance - amount
                &&& o == option_balance + amount
            },
            Err(e) => if voter_balance < amount {
                e == VotingError::InsufficientFunds
            } else {
                option_balance + amount > u64::MAX && e == VotingError::ArithmeticOverflow
            },
        },
{
    if voter_balance < amount {
        return Err(VotingError::InsufficientFunds);
    }
    let voter_after = voter_balance - amount;
    let option_after = match option_balance.checked_add(amount) {
        Some(b) => b,
        None => {
            return Err(VotingError::ArithmeticOverflow);
        },
    };
    Ok((voter_after, option_after))
}

/// The outcome of closing a poll whose named winner holds `winner` after
/// the other options `others` are added one by one: the total of all votes,
/// `ArithmeticOverflow` when the running total first exceeds 64 bits, or
/// `NotTheWinner` when an option first holds more than the winner.
pub open spec fn tally_outcome(winner: u64, others: Seq<u64>) -> Result<int, VotingError>
    decreases others.len(),
{
    if others.len() == 0 {
        Ok(winner as int)
    } else {
        match tally_outcome(winner, others.drop_last()) {
            Err(e) => Err(e),
            Ok(t) => if t + others.last() > u64::MAX {
                Err(VotingError::ArithmeticOverflow)
            } else if others.last() > winner {
                Err(VotingError::NotTheWinner)
            } else {
                Ok(t + others.last())
            },
        }
    }
}

/// Checks that no other option holds more votes than `winner` and sums all
/// votes.
pub fn tally_poll(winner: u64, others: &[u64]) -> (r: Result<u64, VotingError>)
    ensures
        match tally_outcome(winner, others@) {
            Ok(t) => r matches Ok(total) && total == t,
            Err(e) => r == Err::<u64, VotingError>(e),
        },
{
    let mut total: u64 = winner;
    let mut i: usize = 0;
    while i < others.len()
        invariant
            i <= others@.len(),
            tally_outcome(winner, others@.subrange(0, i as int)) == Ok::<int, VotingError>(total as int),
        decreases others.len() - i,
    {
        let b = others[i];
        assert(others@.subrange(0, i + 1).drop_last() =~= others@.subrange(0, i as int));
        total = match total.checked_add(b) {
            Some(t) => t,
            None => {
                proof {
                    lemma_tally_stops(winner, others@, (i + 1) as nat);
                }
                return Err(VotingError::ArithmeticOverflow);
            },
        };
        if b > winner {
            proof {
                lemma_tally_stops(winner, others@, (i + 1) as nat);
            }
            return Err(VotingError::NotTheWinner);
        }
        i = i + 1;
    }
    assert(others@.subrange(0, others@.len() as int) =~= others@);
    Ok(total)
}

/// Once a prefix of the options ends in an error, every longer prefix ends
/// in the same error.
proof fn lemma_tally_stops(winner: u64, others: Seq<u64>, k: nat)
    requires
        k <= others.len(),
        tally_outcome(winner, others.subrange(0, k as int)) is Err,
    ensures
        tally_outcome(winner, others) == tally_outcome(winner, others.subrange(0, k as int)),
    decreases others.len() - k,
{
    if k < others.len() {
        let next = others.subrange(0, k + 1 as int);
        assert(next.drop_last() =~= others.subrange(0, k as int));
        lemma_tally_stops(winner, others, k + 1);
    } else {
        assert(others.subrange(0, k as int) =~= others);
    }
}

/// A voting instruction as decoded from its bytes.
#[derive(Debug)]
pub struct ExecIxData {
    pub opcode: u8,
    pub data: Vec<u8>,
    pub mem_indicies: Vec<u16>,
    pub mem_banks: Vec<u8>,
}

/// Where the memory banks start in a voting instruction.
pub open spec fn banks_start(data: Seq<u8>) -> int {
    2 + 2 * data[1]
}

/// The bytes hold an opcode, memory indices and memory banks.
pub open spec fn exec_data_ok(data: Seq<u8>) -> bool {
    &&& data.len() >= 3
    &&& data.len() >= banks_start(data)
    &&& data.len() > banks_start(data)
    &&& data.len() >= banks_start(data) + 1 + data[banks_start(data)]
}

/// Decodes a voting instruction: an opcode byte, the memory indices, the
/// memory banks, and the operation's own bytes.
pub fn parse_exec_data(data: &[u8]) -> (r: Result<ExecIxData, VotingError>)
    ensures
        match r {
            Ok(ix) => {
                let b = banks_start(data@);
                let n = data@[b] as int;
                &&& exec_data_ok(data@)
                &&& ix.opcode == data@[0]
                &&& ix.mem_indicies@.len() == data@[1]
                &&& forall|i: int|
                    0 <= i < ix.mem_indicies@.len() ==> spec_u16_to_le_bytes(
                        #[trigger] ix.mem_indicies@[i],
                    ) == data@.subrange(2 + 2 * i, 4 + 2 * i)
                &&& ix.mem_banks@ == data@.subrange(b + 1, b + 1 + n)
                &&& ix.data@ == data@.subrange(b + 1 + n, data@.len() as int)
            },
            Err(e) => !exec_data_ok(data@) && e == VotingError::InvalidInstructionData,
        },
{
    if data.len() == 0 {
        return Err(VotingError::InvalidInstructionData);
    }
    let opcode = data[0];
    let instruction_data = slice_subrange(data, 1, data.len());
    let (mem_indicies, rest) = match parse_mem_indices(instruction_data) {
        Ok(p) => p,
        Err(e) => {
            return Err(e);
        },
    };
    let (mem_banks, rest2) = match parse_mem_banks(rest) {
        Ok(p) => p,
        Err(e) => {
            return Err(e);
        },
    };
    let ghost banks_at = banks_start(data@);
    proof {
        assert(rest@ =~= data@.subrange(banks_at, data@.len() as int));
        assert(mem_banks@ =~= data@.subrange(banks_at + 1, banks_at + 1 + data@[banks_at]));
        assert(rest2@ =~= data@.subrange(banks_at + 1 + data@[banks_at], data@.len() as int));
        assert forall|i: int| 0 <= i < mem_indicies@.len() implies spec_u16_to_le_bytes(
            #[trigger] mem_indicies@[i],
        ) == data@.subrange(2 + 2 * i, 4 + 2 * i) by {
            assert(instruction_data@.subrange(1 + 2 * i, 3 + 2 * i) =~= data@.subrange(2 + 2 * i, 4 + 2 * i));
        }
    }
    Ok(ExecIxData { opcode, data: vstd::slice::slice_to_vec(rest2), mem_indicies, mem_banks })
}

/// The voting operations.
#[derive(Clone, Copy, Debug, PartialEq, Eq, Structural)]
pub enum VotingOpcode {
    Vote,
    PollInit,
    PollComplete,
}

/// The operation an opcode names: 1 a vote, 2 a poll start, 3 a poll
/// completion; any other is `InvalidInstructionData`.
pub fn voting_opcode(opcode: u8) -> (r: Result<VotingOpcode, VotingError>)
    ensures
        r == (if opcode == 1 {
            Ok::<VotingOpcode, VotingError>(VotingOpcode::Vote)
        } else if opcode == 2 {
            Ok(VotingOpcode::PollInit)
        } else if opcode == 3 {
            Ok(VotingOpcode::PollComplete)
        } else {
            Err(VotingError::InvalidInstructionData)
        }),
{
    match opcode {
        1 => Ok(VotingOpcode::Vote),
        2 => Ok(VotingOpcode::PollInit),
        3 => Ok(VotingOpcode::PollComplete),
        _ => Err(VotingError::InvalidInstructionData),
    }
}

} // verus!
