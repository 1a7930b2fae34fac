use vstd::prelude::*;

verus! {

/// Every way an operation of the storage core can fail.
#[derive(Clone, Copy, Debug, PartialEq, Eq, Structural)]
pub enum StorageError {
    /// Bad tag byte or truncated payload.
    MalformedRecord,
    /// A slot index at or beyond the container's capacity.
    IndexOutOfRange,
    /// The slot holds no record.
    SlotEmpty,
    /// The destination slot already holds a record.
    SlotOccupied,
    /// The encoded record does not fit in one slot.
    RecordTooLarge,
    /// The commitment tree has no free leaf position left.
    TreeFull,
    /// The cold container's tree is full, so nothing more can be archived.
    ArchiveFull,
    /// A membership proof does not lead to the current root.
    ProofMismatch,
    /// The owner signature does not authorize the record.
    AuthorizationFailed,
}

} // verus!
