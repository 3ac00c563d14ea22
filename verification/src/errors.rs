use vstd::prelude::*;

verus! {

/// Failure taxonomy of the storage engine.
///
/// The verified core only ever produces `CorruptRecord` (a decode was asked
/// for more bytes than are available) and `ShortRead` (a value read past the
/// end of the log). `InternalInconsistency` is the engine's word for an index
/// entry that no longer matches the log; the engine's invariant makes it
/// unreachable, and that is proved. `LockHeld` and `Io` belong to the
/// unverified shell that owns the real file and its exclusive lock: they are
/// declared here so that the whole taxonomy has one home, and the shell may
/// carry an I/O failure's own payload beside `Io`.
#[derive(Clone, Copy, Debug, PartialEq, Eq, Structural)]
pub enum Error {
    /// Another holder already owns the exclusive file lock.
    LockHeld,
    /// An underlying filesystem failure.
    Io,
    /// A record declared more payload bytes than the buffer holds.
    CorruptRecord,
    /// A value read reached past the end of the log.
    ShortRead,
    /// The index pointed at a log range that does not hold a value.
    InternalInconsistency,
}

} // verus!
