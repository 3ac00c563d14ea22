//! An append-only, log-structured key/value storage engine.
//!
//! Every write appends one record to a growing log of bytes; an in-memory
//! ordered index maps each live key to the offset and length of its most
//! recent value, and reads copy bytes straight out of the log. The log is
//! modelled as an in-memory byte buffer so that every rule of the engine is
//! stated and checked here; an unverified shell owns the real file, hands the
//! stored bytes to [`bitcask::MiniBitcask::open`] on startup and persists the
//! appended suffix after each successful write.
//!
//! The crate also contains a small multi-version concurrency layer over a
//! versioned in-memory store, in [`mvcc`].

pub mod codec;
pub mod errors;
pub mod keydir;
pub mod log;
pub mod bitcask;
pub mod mvcc;
