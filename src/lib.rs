//! Storage core of an account-execution machine: a binary codec for virtual
//! account records, a fixed-capacity slot allocator backing the hot tier, an
//! incremental Merkle tree backing the cold tier, and the signed
//! compression protocol that moves records between the two.

pub mod error;
pub mod hash;
pub mod account;
pub mod allocator;
pub mod memory;
pub mod merkle;
pub mod storage;
pub mod voting;
