use vstd::prelude::*;
use vstd::bytes::{
    spec_u64_to_le_bytes, spec_u64_from_le_bytes, spec_u32_to_le_bytes, spec_u32_from_le_bytes,
    u64_to_le_bytes, u64_from_le_bytes, u32_to_le_bytes, u32_from_le_bytes,
    lemma_auto_spec_u64_to_from_le_bytes, lemma_auto_spec_u32_to_from_le_bytes,
};
use vstd::slice::slice_subrange;
use crate::error::StorageError;
use crate::hash::sha256_of;

verus! {

/// A 32-byte public key.
pub type Pubkey = [u8; 32];

/// A durable nonce: a single-use value that guards against replay.
#[derive(Clone, Copy, Debug)]
pub struct VirtualDurableNonce {
    pub address: Pubkey,
    pub value: crate::hash::Hash,
}

/// A token account locked for a time, held virtually.
#[derive(Clone, Copy, Debug)]
pub struct VirtualTimelockAccount {
    pub owner: Pubkey,
    pub instance: crate::hash::Hash,
    pub balance: u64,
    pub token_bump: u8,
    pub unlock_bump: u8,
    pub withdraw_bump: u8,
}

/// A relay from a target account to a destination.
#[derive(Clone, Copy, Debug)]
pub struct VirtualRelayAccount {
    pub target: Pubkey,
    pub destination: Pubkey,
}

/// The exchange ratio of a dual-token account.
#[derive(Clone, Copy, Debug)]
pub struct Ratio {
    pub kin_parts: u64,
    pub token_parts: u64,
    pub ratio_hash: crate::hash::Hash,
}

/// A deposit into a dual-token account.
#[derive(Clone, Copy, Debug)]
pub struct DualDepositIx {
    pub account_index: u16,
    pub kin_amount: u64,
    pub token_amount: u64,
    pub lock_duration: u8,
    pub bump: u8,
    pub kin_bump: u8,
    pub token_bump: u8,
    pub unlock_bump: u8,
    pub withdraw_bump: u8,
}

/// A token vault and its derivation bump.
#[derive(Clone, Copy, Debug)]
pub struct TokenPool {
    pub vault: Pubkey,
    pub vault_bump: u8,
}

/// A ring of `N` items of `M` bytes.
#[derive(Clone, Copy, Debug)]
pub struct CircularBuffer<const N: usize, const M: usize> {
    pub items: [[u8; M]; N],
    pub offset: u8,
    pub num_items: u8,
    pub padding: [u8; 6],
}

/// An account that holds two token balances at a fixed ratio.
#[derive(Clone, Debug)]
pub struct DualTokenAccount {
    pub instance: Vec<u8>,
    pub owner: Pubkey,
    pub kin_balance: u64,
    pub second_token_balance: u64,
    pub ratio: Ratio,
    pub lock_duration: u8,
    pub unlock_time: i64,
    pub instance_hash: crate::hash::Hash,
    pub bump: u8,
    pub token_bump: u8,
    pub unlock_bump: u8,
    pub withdraw_bump: u8,
}

/// A dual-token account with its instance blob as a sequence.
pub struct DualTokenView {
    pub instance: Seq<u8>,
    pub owner: Pubkey,
    pub kin_balance: u64,
    pub second_token_balance: u64,
    pub ratio: Ratio,
    pub lock_duration: u8,
    pub unlock_time: i64,
    pub instance_hash: crate::hash::Hash,
    pub bump: u8,
    pub token_bump: u8,
    pub unlock_bump: u8,
    pub withdraw_bump: u8,
}

impl View for DualTokenAccount {
    type V = DualTokenView;

    open spec fn view(&self) -> DualTokenView {
        DualTokenView {
            instance: self.instance@,
            owner: self.owner,
            kin_balance: self.kin_balance,
            second_token_balance: self.second_token_balance,
            ratio: self.ratio,
            lock_duration: self.lock_duration,
            unlock_time: self.unlock_time,
            instance_hash: self.instance_hash,
            bump: self.bump,
            token_bump: self.token_bump,
            unlock_bump: self.unlock_bump,
            withdraw_bump: self.withdraw_bump,
        }
    }
}

/// A virtual account record: one of four kinds, each with its own payload.
#[derive(Clone, Debug)]
pub enum VirtualAccount {
    Nonce(VirtualDurableNonce),
    Timelock(VirtualTimelockAccount),
    DualToken(DualTokenAccount),
    Relay(VirtualRelayAccount),
}

/// A record as a value.
pub enum AccountView {
    Nonce(VirtualDurableNonce),
    Timelock(VirtualTimelockAccount),
    DualToken(DualTokenView),
    Relay(VirtualRelayAccount),
}

impl View for VirtualAccount {
    type V = AccountView;

    open spec fn view(&self) -> AccountView {
        match self {
            VirtualAccount::Nonce(n) => AccountView::Nonce(*n),
            VirtualAccount::Timelock(t) => AccountView::Timelock(*t),
            VirtualAccount::DualToken(d) => AccountView::DualToken(d@),
            VirtualAccount::Relay(r) => AccountView::Relay(*r),
        }
    }
}

/// Tag byte of each kind of record.
pub const TAG_NONCE: u8 = 0;
pub const TAG_TIMELOCK: u8 = 1;
pub const TAG_DUAL_TOKEN: u8 = 2;
pub const TAG_RELAY: u8 = 3;

impl VirtualDurableNonce {
    /// Payload length.
    pub const LEN: usize = 64;

    pub open spec fn spec_bytes(self) -> Seq<u8> {
        self.address@ + self.value@
    }
}

impl VirtualTimelockAccount {
    /// Payload length.
    pub const LEN: usize = 75;

    pub open spec fn spec_bytes(self) -> Seq<u8> {
        self.owner@ + self.instance@ + spec_u64_to_le_bytes(self.balance) + seq![
            self.token_bump,
            self.unlock_bump,
            self.withdraw_bump,
        ]
    }
}

impl VirtualRelayAccount {
    /// Payload length.
    pub const LEN: usize = 64;

    pub open spec fn spec_bytes(self) -> Seq<u8> {
        self.target@ + self.destination@
    }
}

/// Bytes of a dual-token payload that follow the instance blob.
pub const DUAL_TOKEN_TAIL_LEN: usize = 141;

/// The longest instance blob whose payload fits in `DualTokenAccount::LEN`.
pub const MAX_INSTANCE_LEN: usize = 28;

impl DualTokenView {
    pub open spec fn tail_bytes(self) -> Seq<u8> {
        self.owner@ + spec_u64_to_le_bytes(self.kin_balance) + spec_u64_to_le_bytes(
            self.second_token_balance,
        ) + spec_u64_to_le_bytes(self.ratio.kin_parts) + spec_u64_to_le_bytes(self.ratio.token_parts)
            + self.ratio.ratio_hash@ + seq![self.lock_duration] + spec_u64_to_le_bytes(
            i64_bits(self.unlock_time),
        ) + self.instance_hash@ + seq![self.bump, self.token_bump, self.unlock_bump, self.withdraw_bump]
    }

    /// The instance blob with its length in front (four bytes, little
    /// endian), then the fixed fields.
    pub open spec fn spec_bytes(self) -> Seq<u8> {
        spec_u32_to_le_bytes(self.instance.len() as u32) + self.instance + self.tail_bytes()
    }
}

impl DualTokenAccount {
    /// Room that a dual-token payload is given in a record.
    pub const LEN: usize = 173;
}

/// The two's complement bits of a signed 64-bit integer.
pub open spec fn i64_bits(x: i64) -> u64 {
    if x >= 0 {
        x as u64
    } else {
        (x as int + 0x1_0000_0000_0000_0000) as u64
    }
}

/// The signed 64-bit integer with the given two's complement bits.
pub open spec fn bits_i64(u: u64) -> i64 {
    if u < 0x8000_0000_0000_0000 {
        u as i64
    } else {
        (u as int - 0x1_0000_0000_0000_0000) as i64
    }
}

/// Payload length of the kind with tag `tag`.
pub open spec fn payload_len(tag: u8) -> nat {
    if tag == TAG_NONCE {
        64
    } else if tag == TAG_TIMELOCK {
        75
    } else if tag == TAG_DUAL_TOKEN {
        173
    } else if tag == TAG_RELAY {
        64
    } else {
        0
    }
}

pub open spec fn tag_of(a: AccountView) -> u8 {
    match a {
        AccountView::Nonce(_) => TAG_NONCE,
        AccountView::Timelock(_) => TAG_TIMELOCK,
        AccountView::DualToken(_) => TAG_DUAL_TOKEN,
        AccountView::Relay(_) => TAG_RELAY,
    }
}

pub open spec fn payload(a: AccountView) -> Seq<u8> {
    match a {
        AccountView::Nonce(n) => n.spec_bytes(),
        AccountView::Timelock(t) => t.spec_bytes(),
        AccountView::DualToken(d) => d.spec_bytes(),
        AccountView::Relay(r) => r.spec_bytes(),
    }
}

/// A record whose payload fits the room of its kind.
pub open spec fn valid(a: AccountView) -> bool {
    match a {
        AccountView::DualToken(d) => d.instance.len() <= MAX_INSTANCE_LEN,
        _ => true,
    }
}

/// The encoding of a record: its tag, its payload, and zeros up to the
/// room of its kind.
pub open spec fn encode(a: AccountView) -> Seq<u8> {
    seq![tag_of(a)] + payload(a) + Seq::new(
        (payload_len(tag_of(a)) - payload(a).len()) as nat,
        |i: int| 0u8,
    )
}

/// The bytes hold a record: a known tag, room enough for its kind, and for
/// a dual-token record a blob length that fits that room.
pub open spec fn decodable(bytes: Seq<u8>) -> bool {
    &&& bytes.len() >= 1
    &&& bytes[0] <= TAG_RELAY
    &&& bytes.len() - 1 >= payload_len(bytes[0])
    &&& bytes[0] == TAG_DUAL_TOKEN ==> spec_u32_from_le_bytes(bytes.subrange(1, 5))
        <= MAX_INSTANCE_LEN
}

/// `a` is the record that `bytes` hold: its tag and payload lead the bytes.
pub open spec fn decodes_to(bytes: Seq<u8>, a: AccountView) -> bool {
    &&& decodable(bytes)
    &&& valid(a)
    &&& bytes[0] == tag_of(a)
    &&& 1 + payload(a).len() <= bytes.len()
    &&& bytes.subrange(1, 1 + payload(a).len() as int) == payload(a)
}

/// The content hash: of the whole encoding, except for a dual-token record,
/// whose hash is that of its instance blob alone.
pub open spec fn content_hash(a: AccountView) -> Seq<u8> {
    match a {
        AccountView::DualToken(d) => sha256_of(d.instance),
        _ => sha256_of(encode(a)),
    }
}

proof fn lemma_u64_bytes_injective(x: u64, y: u64)
    requires
        spec_u64_to_le_bytes(x) == spec_u64_to_le_bytes(y),
    ensures
        x == y,
{
    lemma_auto_spec_u64_to_from_le_bytes();
    assert(spec_u64_from_le_bytes(spec_u64_to_le_bytes(x)) == x);
    assert(spec_u64_from_le_bytes(spec_u64_to_le_bytes(y)) == y);
}

proof fn lemma_key_injective(x: [u8; 32], y: [u8; 32])
    requires
        x@ == y@,
    ensures
        x == y,
{
    assert(x =~= y);
}

/// The payload of a valid record fits the room of its kind, exactly for
/// all kinds but the dual-token one.
proof fn lemma_payload_len(a: AccountView)
    requires
        valid(a),
    ensures
        payload(a).len() <= payload_len(tag_of(a)),
        tag_of(a) != TAG_DUAL_TOKEN ==> payload(a).len() == payload_len(tag_of(a)),
        encode(a).len() == 1 + payload_len(tag_of(a)),
{
    lemma_auto_spec_u64_to_from_le_bytes();
    lemma_auto_spec_u32_to_from_le_bytes();
    match a {
        AccountView::DualToken(d) => {
            assert(spec_u32_to_le_bytes(d.instance.len() as u32).len() == 4);
            assert(d.tail_bytes().len() == DUAL_TOKEN_TAIL_LEN);
        },
        AccountView::Timelock(t) => {
            assert(spec_u64_to_le_bytes(t.balance).len() == 8);
        },
        _ => {},
    }
}

proof fn lemma_tail_injective(d: DualTokenView, e: DualTokenView)
    requires
        d.tail_bytes() == e.tail_bytes(),
    ensures
        d.owner == e.owner,
        d.kin_balance == e.kin_balance,
        d.second_token_balance == e.second_token_balance,
        d.ratio == e.ratio,
        d.lock_duration == e.lock_duration,
        d.unlock_time == e.unlock_time,
        d.instance_hash == e.instance_hash,
        d.bump == e.bump,
        d.token_bump == e.token_bump,
        d.unlock_bump == e.unlock_bump,
        d.withdraw_bump == e.withdraw_bump,
{
    lemma_auto_spec_u64_to_from_le_bytes();
    let t = d.tail_bytes();
    let u = e.tail_bytes();
    assert(t.subrange(0, 32) =~= d.owner@);
    assert(u.subrange(0, 32) =~= e.owner@);
    lemma_key_injective(d.owner, e.owner);
    assert(t.subrange(32, 40) =~= spec_u64_to_le_bytes(d.kin_balance));
    assert(u.subrange(32, 40) =~= spec_u64_to_le_bytes(e.kin_balance));
    lemma_u64_bytes_injective(d.kin_balance, e.kin_balance);
    assert(t.subrange(40, 48) =~= spec_u64_to_le_bytes(d.second_token_balance));
    assert(u.subrange(40, 48) =~= spec_u64_to_le_bytes(e.second_token_balance));
    lemma_u64_bytes_injective(d.second_token_balance, e.second_token_balance);
    assert(t.subrange(48, 56) =~= spec_u64_to_le_bytes(d.ratio.kin_parts));
    assert(u.subrange(48, 56) =~= spec_u64_to_le_bytes(e.ratio.kin_parts));
    lemma_u64_bytes_injective(d.ratio.kin_parts, e.ratio.kin_parts);
    assert(t.subrange(56, 64) =~= spec_u64_to_le_bytes(d.ratio.token_parts));
    assert(u.subrange(56, 64) =~= spec_u64_to_le_bytes(e.ratio.token_parts));
    lemma_u64_bytes_injective(d.ratio.token_parts, e.ratio.token_parts);
    assert(t.subrange(64, 96) =~= d.ratio.ratio_hash@);
    assert(u.subrange(64, 96) =~= e.ratio.ratio_hash@);
    lemma_key_injective(d.ratio.ratio_hash.value, e.ratio.ratio_hash.value);
    assert(t[96] == d.lock_duration && u[96] == e.lock_duration);
    assert(t.subrange(97, 105) =~= spec_u64_to_le_bytes(i64_bits(d.unlock_time)));
    assert(u.subrange(97, 105) =~= spec_u64_to_le_bytes(i64_bits(e.unlock_time)));
    lemma_u64_bytes_injective(i64_bits(d.unlock_time), i64_bits(e.unlock_time));
    assert(t.subrange(105, 137) =~= d.instance_hash@);
    assert(u.subrange(105, 137) =~= e.instance_hash@);
    lemma_key_injective(d.instance_hash.value, e.instance_hash.value);
    assert(t[137] == d.bump && u[137] == e.bump);
    assert(t[138] == d.token_bump && u[138] == e.token_bump);
    assert(t[139] == d.unlock_bump && u[139] == e.unlock_bump);
    assert(t[140] == d.withdraw_bump && u[140] == e.withdraw_bump);
}

/// At most one record is held by any bytes.
pub proof fn lemma_decode_unique(bytes: Seq<u8>, a: AccountView, b: AccountView)
    requires
        decodes_to(bytes, a),
        decodes_to(bytes, b),
    ensures
        a == b,
{
    lemma_auto_spec_u64_to_from_le_bytes();
    lemma_auto_spec_u32_to_from_le_bytes();
    lemma_payload_len(a);
    lemma_payload_len(b);
    let pa = payload(a);
    let pb = payload(b);
    match a {
        AccountView::Nonce(x) => {
            let y = b->Nonce_0;
            assert(pa =~= pb);
            assert(pa.subrange(0, 32) =~= x.address@);
            assert(pb.subrange(0, 32) =~= y.address@);
            assert(pa.subrange(32, 64) =~= x.value@);
            assert(pb.subrange(32, 64) =~= y.value@);
            lemma_key_injective(x.address, y.address);
            lemma_key_injective(x.value.value, y.value.value);
        },
        AccountView::Timelock(x) => {
            let y = b->Timelock_0;
            assert(pa =~= pb);
            assert(pa.subrange(0, 32) =~= x.owner@);
            assert(pb.subrange(0, 32) =~= y.owner@);
            assert(pa.subrange(32, 64) =~= x.instance@);
            assert(pb.subrange(32, 64) =~= y.instance@);
            assert(pa.subrange(64, 72) =~= spec_u64_to_le_bytes(x.balance));
            assert(pb.subrange(64, 72) =~= spec_u64_to_le_bytes(y.balance));
            lemma_key_injective(x.owner, y.owner);
            lemma_key_injective(x.instance.value, y.instance.value);
            lemma_u64_bytes_injective(x.balance, y.balance);
            assert(pa[72] == x.token_bump && pb[72] == y.token_bump);
            assert(pa[73] == x.unlock_bump && pb[73] == y.unlock_bump);
            assert(pa[74] == x.withdraw_bump && pb[74] == y.withdraw_bump);
        },
        AccountView::Relay(x) => {
            let y = b->Relay_0;
            assert(pa =~= pb);
            assert(pa.subrange(0, 32) =~= x.target@);
            assert(pb.subrange(0, 32) =~= y.target@);
            assert(pa.subrange(32, 64) =~= x.destination@);
            assert(pb.subrange(32, 64) =~= y.destination@);
            lemma_key_injective(x.target, y.target);
            lemma_key_injective(x.destination, y.destination);
        },
        AccountView::DualToken(x) => {
            let y = b->DualToken_0;
            let lx = spec_u32_to_le_bytes(x.instance.len() as u32);
            let ly = spec_u32_to_le_bytes(y.instance.len() as u32);
            assert(pa.subrange(0, 4) =~= lx);
            assert(pb.subrange(0, 4) =~= ly);
            assert(bytes.subrange(1, 5) =~= pa.subrange(0, 4));
            assert(bytes.subrange(1, 5) =~= pb.subrange(0, 4));
            assert(spec_u32_from_le_bytes(lx) == x.instance.len() as u32);
            assert(spec_u32_from_le_bytes(ly) == y.instance.len() as u32);
            assert(x.instance.len() == y.instance.len());
            assert(pa =~= pb);
            let n = x.instance.len() as int;
            assert(pa.subrange(4, 4 + n) =~= x.instance);
            assert(pb.subrange(4, 4 + n) =~= y.instance);
            assert(pa.subrange(4 + n, pa.len() as int) =~= x.tail_bytes());
            assert(pb.subrange(4 + n, pb.len() as int) =~= y.tail_bytes());
            lemma_tail_injective(x, y);
        },
    }
}

/// Decoding the encoding of a valid record gives that record back, and no
/// other.
pub proof fn lemma_round_trip(a: AccountView, b: AccountView)
    requires
        valid(a),
    ensures
        decodes_to(encode(a), a),
        decodes_to(encode(a), b) ==> b == a,
{
    lemma_auto_spec_u32_to_from_le_bytes();
    lemma_payload_len(a);
    let e = encode(a);
    assert(e.subrange(1, 1 + payload(a).len() as int) =~= payload(a));
    if let AccountView::DualToken(d) = a {
        let l = spec_u32_to_le_bytes(d.instance.len() as u32);
        assert(e.subrange(1, 5) =~= l);
    }
    if decodes_to(e, b) {
        lemma_decode_unique(e, a, b);
    }
}

/// Zeros after the bytes of a record do not change the record they hold.
pub proof fn lemma_decode_ignores_padding(bytes: Seq<u8>, n: nat, a: AccountView)
    requires
        decodes_to(bytes, a),
    ensures
        decodes_to(bytes + Seq::new(n, |i: int| 0u8), a),
{
    let b2 = bytes + Seq::new(n, |i: int| 0u8);
    assert(b2.subrange(1, 1 + payload(a).len() as int) =~= bytes.subrange(1, 1 + payload(a).len() as int));
    assert(b2.subrange(1, 5) =~= bytes.subrange(1, 5));
}

/// The encoding of a valid record has one byte for the tag and the room of
/// its kind; a dual-token payload takes no more than that room.
pub proof fn lemma_encoded_size(a: AccountView)
    requires
        valid(a),
    ensures
        encode(a).len() == 1 + payload_len(tag_of(a)),
        tag_of(a) == TAG_DUAL_TOKEN ==> payload(a).len() <= DualTokenAccount::LEN,
{
    lemma_payload_len(a);
}

pub(crate) fn i64_to_bits(x: i64) -> (r: u64)
    ensures
        r == i64_bits(x),
        bits_i64(r) == x,
{
    if x >= 0 {
        x as u64
    } else {
        ((x as i128) + 0x1_0000_0000_0000_0000i128) as u64
    }
}

pub(crate) fn bits_to_i64(u: u64) -> (r: i64)
    ensures
        r == bits_i64(u),
        i64_bits(r) == u,
{
    if u < 0x8000_0000_0000_0000 {
        u as i64
    } else {
        ((u as i128) - 0x1_0000_0000_0000_0000i128) as i64
    }
}

/// The 32 bytes of `src` from `off`.
pub(crate) fn read_key(src: &[u8], off: usize) -> (r: [u8; 32])
    requires
        off + 32 <= src.len(),
    ensures
        r@ == src@.subrange(off as int, off + 32),
{
    let mut r = [0u8; 32];
    let mut i: usize = 0;
    while i < 32
        invariant
            off + 32 <= src.len(),
            i <= 32,
            forall|j: int| 0 <= j < i ==> #[trigger] r@[j] == src@[off + j],
        decreases 32 - i,
    {
        r[i] = src[off + i];
        i = i + 1;
    }
    assert(r@ =~= src@.subrange(off as int, off + 32));
    r
}

/// The little-endian `u64` in the 8 bytes of `src` from `off`.
pub(crate) fn read_u64(src: &[u8], off: usize) -> (r: u64)
    requires
        off + 8 <= src.len(),
    ensures
        spec_u64_to_le_bytes(r) == src@.subrange(off as int, off + 8),
{
    let b = slice_subrange(src, off, off + 8);
    let r = u64_from_le_bytes(b);
    proof {
        lemma_auto_spec_u64_to_from_le_bytes();
        assert(spec_u64_to_le_bytes(spec_u64_from_le_bytes(b@)) == b@);
    }
    r
}

pub(crate) fn push_u64(out: &mut Vec<u8>, x: u64)
    ensures
        final(out)@ == old(out)@ + spec_u64_to_le_bytes(x),
{
    let mut b = u64_to_le_bytes(x);
    out.append(&mut b);
}

impl VirtualDurableNonce {
    /// The payload bytes.
    pub fn to_bytes(&self) -> (r: Vec<u8>)
        ensures
            r@ == self.spec_bytes(),
    {
        let mut out: Vec<u8> = Vec::new();
        out.extend_from_slice(&self.address);
        out.extend_from_slice(&self.value.value);
        assert(out@ =~= self.spec_bytes());
        out
    }

    /// The nonce whose payload leads `src`.
    pub fn from_bytes(src: &[u8]) -> (r: VirtualDurableNonce)
        requires
            src@.len() >= 64,
        ensures
            r.spec_bytes() == src@.subrange(0, 64),
    {
        let r = VirtualDurableNonce {
            address: read_key(src, 0),
            value: crate::hash::Hash { value: read_key(src, 32) },
        };
        assert(r.spec_bytes() =~= src@.subrange(0, 64));
        r
    }
}

impl VirtualTimelockAccount {
    /// The payload bytes.
    pub fn to_bytes(&self) -> (r: Vec<u8>)
        ensures
            r@ == self.spec_bytes(),
    {
        let mut out: Vec<u8> = Vec::new();
        out.extend_from_slice(&self.owner);
        out.extend_from_slice(&self.instance.value);
        push_u64(&mut out, self.balance);
        out.push(self.token_bump);
        out.push(self.unlock_bump);
        out.push(self.withdraw_bump);
        assert(out@ =~= self.spec_bytes());
        out
    }

    /// The timelock account whose payload leads `src`.
    pub fn from_bytes(src: &[u8]) -> (r: VirtualTimelockAccount)
        requires
            src@.len() >= 75,
        ensures
            r.spec_bytes() == src@.subrange(0, 75),
    {
        let r = VirtualTimelockAccount {
            owner: read_key(src, 0),
            instance: crate::hash::Hash { value: read_key(src, 32) },
            balance: read_u64(src, 64),
            token_bump: src[72],
            unlock_bump: src[73],
            withdraw_bump: src[74],
        };
        assert(r.spec_bytes() =~= src@.subrange(0, 75));
        r
    }
}

impl VirtualRelayAccount {
    /// The payload bytes.
    pub fn to_bytes(&self) -> (r: Vec<u8>)
        ensures
            r@ == self.spec_bytes(),
    {
        let mut out: Vec<u8> = Vec::new();
        out.extend_from_slice(&self.target);
        out.extend_from_slice(&self.destination);
        assert(out@ =~= self.spec_bytes());
        out
    }

    /// The relay whose payload leads `src`.
    pub fn from_bytes(src: &[u8]) -> (r: VirtualRelayAccount)
        requires
            src@.len() >= 64,
        ensures
            r.spec_bytes() == src@.subrange(0, 64),
    {
        let r = VirtualRelayAccount { target: read_key(src, 0), destination: read_key(src, 32) };
        assert(r.spec_bytes() =~= src@.subrange(0, 64));
        r
    }
}

impl Ratio {
    /// A ratio of `kin_parts` to `token_parts`, with the digest of both
    /// counts (little endian, in that order).
    pub fn new(kin_parts: u64, token_parts: u64) -> (r: Ratio)
        ensures
            r.kin_parts == kin_parts,
            r.token_parts == token_parts,
            r.ratio_hash@ == sha256_of(
                spec_u64_to_le_bytes(kin_parts) + spec_u64_to_le_bytes(token_parts),
            ),
    {
        let mut bytes: Vec<u8> = Vec::new();
        push_u64(&mut bytes, kin_parts);
        push_u64(&mut bytes, token_parts);
        assert(bytes@ =~= spec_u64_to_le_bytes(kin_parts) + spec_u64_to_le_bytes(token_parts));
        let ratio_hash = crate::hash::Hash::new(bytes.as_slice());
        Ratio { kin_parts, token_parts, ratio_hash }
    }

    /// Whether the two amounts stand in this ratio.
    pub fn verify(&self, kin_amount: u64, token_amount: u64) -> (r: bool)
        ensures
            r == (kin_amount as int * self.token_parts as int == token_amount as int
                * self.kin_parts as int),
    {
        let a = kin_amount as u128;
        let b = self.token_parts as u128;
        let c = token_amount as u128;
        let d = self.kin_parts as u128;
        assert(a * b <= u128::MAX && c * d <= u128::MAX) by (nonlinear_arith)
            requires
                a <= u64::MAX,
                b <= u64::MAX,
                c <= u64::MAX,
                d <= u64::MAX,
        ;
        a * b == c * d
    }
}

/// `src` is exactly one dual-token payload: its length is that of the blob
/// that its first four bytes announce, with the fixed fields after it.
pub open spec fn dual_token_decodable(src: Seq<u8>) -> bool {
    &&& src.len() >= 4
    &&& src.len() == 4 + spec_u32_from_le_bytes(src.subrange(0, 4)) + DUAL_TOKEN_TAIL_LEN
}

impl DualTokenAccount {
    /// The payload bytes.
    pub fn to_bytes(&self) -> (r: Vec<u8>)
        requires
            self.instance@.len() <= u32::MAX,
        ensures
            r@ == self@.spec_bytes(),
    {
        let mut out = u32_to_le_bytes(self.instance.len() as u32);
        out.extend_from_slice(self.instance.as_slice());
        out.extend_from_slice(&self.owner);
        push_u64(&mut out, self.kin_balance);
        push_u64(&mut out, self.second_token_balance);
        push_u64(&mut out, self.ratio.kin_parts);
        push_u64(&mut out, self.ratio.token_parts);
        out.extend_from_slice(&self.ratio.ratio_hash.value);
        out.push(self.lock_duration);
        push_u64(&mut out, i64_to_bits(self.unlock_time));
        out.extend_from_slice(&self.instance_hash.value);
        out.push(self.bump);
        out.push(self.token_bump);
        out.push(self.unlock_bump);
        out.push(self.withdraw_bump);
        assert(out@ =~= self@.spec_bytes());
        out
    }

    /// Writes the payload at the front of `dst`; fails with
    /// `RecordTooLarge`, writing nothing, when `dst` is too short for it.
    pub fn pack(&self, dst: &mut [u8]) -> (r: Result<(), StorageError>)
        requires
            self.instance@.len() <= u32::MAX,
        ensures
            final(dst)@.len() == old(dst)@.len(),
            match r {
                Ok(()) => {
                    &&& self@.spec_bytes().len() <= old(dst)@.len()
                    &&& final(dst)@ == self@.spec_bytes() + old(dst)@.subrange(
                        self@.spec_bytes().len() as int,
                        old(dst)@.len() as int,
                    )
                },
                Err(e) => {
                    &&& self@.spec_bytes().len() > old(dst)@.len()
                    &&& e == StorageError::RecordTooLarge
                    &&& final(dst)@ == old(dst)@
                },
            },
    {
        let bytes = self.to_bytes();
        if bytes.len() > dst.len() {
            return Err(StorageError::RecordTooLarge);
        }
        let mut i: usize = 0;
        while i < bytes.len()
            invariant
                bytes@ == self@.spec_bytes(),
                bytes@.len() <= dst@.len(),
                dst@.len() == old(dst)@.len(),
                i <= bytes@.len(),
                forall|j: int| 0 <= j < i ==> #[trigger] dst@[j] == bytes@[j],
                forall|j: int| bytes@.len() <= j < dst@.len() ==> #[trigger] dst@[j] == old(dst)@[j],
            decreases bytes.len() - i,
        {
            dst[i] = bytes[i];
            i = i + 1;
        }
        assert(dst@ =~= self@.spec_bytes() + old(dst)@.subrange(
            self@.spec_bytes().len() as int,
            old(dst)@.len() as int,
        ));
        Ok(())
    }

    /// The dual-token account whose payload is exactly `src`; fails with
    /// `MalformedRecord` when the bytes end before the payload does or go on
    /// after it.
    pub fn unpack(src: &[u8]) -> (r: Result<DualTokenAccount, StorageError>)
        ensures
            match r {
                Ok(d) => dual_token_decodable(src@) && d@.spec_bytes() == src@,
                Err(e) => !dual_token_decodable(src@) && e == StorageError::MalformedRecord,
            },
    {
        if src.len() < 4 + DUAL_TOKEN_TAIL_LEN {
            return Err(StorageError::MalformedRecord);
        }
        let n = u32_from_le_bytes(slice_subrange(src, 0, 4)) as usize;
        if src.len() - 4 - DUAL_TOKEN_TAIL_LEN != n {
            return Err(StorageError::MalformedRecord);
        }
        let instance = vstd::slice::slice_to_vec(slice_subrange(src, 4, 4 + n));
        let o = 4 + n;
        let d = DualTokenAccount {
            instance,
            owner: read_key(src, o),
            kin_balance: read_u64(src, o + 32),
            second_token_balance: read_u64(src, o + 40),
            ratio: Ratio {
                kin_parts: read_u64(src, o + 48),
                token_parts: read_u64(src, o + 56),
                ratio_hash: crate::hash::Hash { value: read_key(src, o + 64) },
            },
            lock_duration: src[o + 96],
            unlock_time: bits_to_i64(read_u64(src, o + 97)),
            instance_hash: crate::hash::Hash { value: read_key(src, o + 105) },
            bump: src[o + 137],
            token_bump: src[o + 138],
            unlock_bump: src[o + 139],
            withdraw_bump: src[o + 140],
        };
        proof {
            lemma_auto_spec_u32_to_from_le_bytes();
            lemma_auto_spec_u64_to_from_le_bytes();
            assert(spec_u32_to_le_bytes(n as u32) =~= src@.subrange(0, 4));
            assert(d@.tail_bytes() =~= src@.subrange(o as int, o + DUAL_TOKEN_TAIL_LEN));
            assert(d@.spec_bytes() =~= src@);
        }
        Ok(d)
    }
}

impl VirtualAccount {
    /// The tag byte of this kind of record.
    pub fn tag(&self) -> (r: u8)
        ensures
            r == tag_of(self@),
    {
        match self {
            VirtualAccount::Nonce(_) => TAG_NONCE,
            VirtualAccount::Timelock(_) => TAG_TIMELOCK,
            VirtualAccount::DualToken(_) => TAG_DUAL_TOKEN,
            VirtualAccount::Relay(_) => TAG_RELAY,
        }
    }

    /// The length of the encoding: one tag byte and the room of the kind.
    pub fn get_size(&self) -> (r: usize)
        ensures
            r == 1 + payload_len(tag_of(self@)),
    {
        1 + get_variant_size(self.tag())
    }

    pub fn is_timelock(&self) -> (r: bool)
        ensures
            r == self@ is Timelock,
    {
        matches!(self, VirtualAccount::Timelock(_))
    }

    pub fn is_relay(&self) -> (r: bool)
        ensures
            r == self@ is Relay,
    {
        matches!(self, VirtualAccount::Relay(_))
    }

    pub fn is_nonce(&self) -> (r: bool)
        ensures
            r == self@ is Nonce,
    {
        matches!(self, VirtualAccount::Nonce(_))
    }

    pub fn is_dual_token(&self) -> (r: bool)
        ensures
            r == self@ is DualToken,
    {
        matches!(self, VirtualAccount::DualToken(_))
    }

    /// The content hash of the record.
    pub fn get_hash(&self) -> (r: crate::hash::Hash)
        ensures
            r@ == content_hash(self@),
    {
        match self {
            VirtualAccount::DualToken(inner) => crate::hash::Hash::new(inner.instance.as_slice()),
            _ => {
                let bytes = self.pack();
                crate::hash::Hash::new(bytes.as_slice())
            },
        }
    }

    /// The encoding of the record.
    pub fn pack(&self) -> (r: Vec<u8>)
        requires
            valid(self@),
        ensures
            r@ == encode(self@),
    {
        let mut out: Vec<u8> = Vec::new();
        out.push(self.tag());
        let mut payload_bytes = match self {
            VirtualAccount::Nonce(a) => a.to_bytes(),
            VirtualAccount::Timelock(a) => a.to_bytes(),
            VirtualAccount::DualToken(a) => a.to_bytes(),
            VirtualAccount::Relay(a) => a.to_bytes(),
        };
        out.append(&mut payload_bytes);
        let size = self.get_size();
        proof {
            lemma_payload_len(self@);
        }
        let ghost head = out@;
        while out.len() < size
            invariant
                head == seq![tag_of(self@)] + payload(self@),
                size == 1 + payload_len(tag_of(self@)),
                head.len() <= out@.len() <= size,
                out@.subrange(0, head.len() as int) == head,
                forall|j: int| head.len() <= j < out@.len() ==> #[trigger] out@[j] == 0u8,
            decreases size - out.len(),
        {
            out.push(0u8);
            assert(out@.subrange(0, head.len() as int) =~= head);
        }
        assert(out@ =~= encode(self@));
        out
    }

    /// The record that `input` holds; fails with `MalformedRecord` when the
    /// input is empty, its tag unknown, or its payload cut short (for a
    /// dual-token record, when its blob runs past the room of the kind).
    /// Bytes after the payload are ignored.
    pub fn unpack(input: &[u8]) -> (r: Result<VirtualAccount, StorageError>)
        ensures
            match r {
                Ok(a) => decodes_to(input@, a@),
                Err(e) => !decodable(input@) && e == StorageError::MalformedRecord,
            },
    {
        if input.len() < 1 {
            return Err(StorageError::MalformedRecord);
        }
        let variant = input[0];
        if variant > TAG_RELAY {
            return Err(StorageError::MalformedRecord);
        }
        let size = get_variant_size(variant);
        if input.len() - 1 < size {
            return Err(StorageError::MalformedRecord);
        }
        let data = slice_subrange(input, 1, input.len());
        assert(forall|j: int| 0 <= j < data@.len() ==> data@[j] == input@[j + 1]);
        if variant == TAG_NONCE {
            let a = VirtualDurableNonce::from_bytes(data);
            assert(input@.subrange(1, 65) =~= data@.subrange(0, 64));
            Ok(VirtualAccount::Nonce(a))
        } else if variant == TAG_TIMELOCK {
            let a = VirtualTimelockAccount::from_bytes(data);
            assert(input@.subrange(1, 76) =~= data@.subrange(0, 75));
            Ok(VirtualAccount::Timelock(a))
        } else if variant == TAG_RELAY {
            let a = VirtualRelayAccount::from_bytes(data);
            assert(input@.subrange(1, 65) =~= data@.subrange(0, 64));
            Ok(VirtualAccount::Relay(a))
        } else {
            assert(data@.subrange(0, 4) =~= input@.subrange(1, 5));
            let n = u32_from_le_bytes(slice_subrange(data, 0, 4)) as usize;
            if n > MAX_INSTANCE_LEN {
                return Err(StorageError::MalformedRecord);
            }
            let payload_bytes = slice_subrange(data, 0, 4 + n + DUAL_TOKEN_TAIL_LEN);
            assert(payload_bytes@.subrange(0, 4) =~= data@.subrange(0, 4));
            match DualTokenAccount::unpack(payload_bytes) {
                Ok(d) => {
                    let ghost k = d@.spec_bytes().len() as int;
                    assert(input@.subrange(1, 1 + k) =~= data@.subrange(0, k));
                    proof {
                        lemma_auto_spec_u32_to_from_le_bytes();
                        let l = spec_u32_to_le_bytes(d@.instance.len() as u32);
                        assert(d@.spec_bytes().subrange(0, 4) =~= l);
                    }
                    Ok(VirtualAccount::DualToken(d))
                },
                Err(e) => Err(e),
            }
        }
    }

    pub fn into_inner_nonce(self) -> (r: Option<VirtualDurableNonce>)
        ensures
            r == (match self@ {
                AccountView::Nonce(n) => Some(n),
                _ => None,
            }),
    {
        match self {
            VirtualAccount::Nonce(inner) => Some(inner),
            _ => None,
        }
    }

    pub fn into_inner_timelock(self) -> (r: Option<VirtualTimelockAccount>)
        ensures
            r == (match self@ {
                AccountView::Timelock(t) => Some(t),
                _ => None,
            }),
    {
        match self {
            VirtualAccount::Timelock(inner) => Some(inner),
            _ => None,
        }
    }

    pub fn into_inner_relay(self) -> (r: Option<VirtualRelayAccount>)
        ensures
            r == (match self@ {
                AccountView::Relay(x) => Some(x),
                _ => None,
            }),
    {
        match self {
            VirtualAccount::Relay(inner) => Some(inner),
            _ => None,
        }
    }

    pub fn into_inner_dual_token(self) -> (r: Option<DualTokenAccount>)
        ensures
            self@ is DualToken <==> r is Some,
            r matches Some(d) ==> self@ == AccountView::DualToken(d@),
    {
        match self {
            VirtualAccount::DualToken(inner) => Some(inner),
            _ => None,
        }
    }
}

/// The payload room of the kind with tag `variant`; 0 for an unknown tag.
pub fn get_variant_size(variant: u8) -> (r: usize)
    ensures
        r == payload_len(variant),
{
    if variant == TAG_NONCE {
        VirtualDurableNonce::LEN
    } else if variant == TAG_TIMELOCK {
        VirtualTimelockAccount::LEN
    } else if variant == TAG_DUAL_TOKEN {
        DualTokenAccount::LEN
    } else if variant == TAG_RELAY {
        VirtualRelayAccount::LEN
    } else {
        0
    }
}

} // verus!
