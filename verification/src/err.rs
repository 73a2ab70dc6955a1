//! The store's error kinds. Size violations are rejected before any slot is
//! touched; a corrupt record surfaces from decoding; a full table is normally
//! recovered by growth and surfaces only when growth itself is impossible;
//! I/O failures are raised by a file-backed front end, never by the in-memory
//! table itself.

use vstd::prelude::*;

verus! {

/// Why a store operation failed.
#[derive(Clone, Copy, Debug, PartialEq, Eq, Structural)]
pub enum StoreError {
    /// Seek, read or write against the backing storage failed.
    IoFailure,
    /// The key exceeds the fixed key width.
    KeyTooLong,
    /// The value exceeds what one overflow chain can hold.
    ValueTooLarge,
    /// The probe sequence was exhausted and the table cannot grow further.
    TableFull,
    /// A decoded tag byte is not one of the recognized values.
    CorruptRecord,
}

} // verus!
