//! Error types of the RF stack.

use vstd::prelude::*;

verus! {

/// Errors specific to firmware-over-the-air transfers.
#[derive(Debug, Clone, Copy, PartialEq, Eq, Structural)]
pub enum FotaError {
    /// Chunk index is out of range.
    ChunkOutOfRange,
    /// Image CRC mismatch after the full transfer.
    ChecksumMismatch,
    /// Session not initialised.
    NotStarted,
}

/// Errors returned by the RF stack (frames, transport, MAC, FOTA).
#[derive(Debug, Clone, Copy, PartialEq, Eq, Structural)]
pub enum CommsError {
    /// Nothing to receive right now.
    NothingReceived,
    /// Buffer is too small for the frame.
    BufferTooSmall,
    /// MAC layer error (frame encoding or decoding failure).
    MacError,
    /// Hardware error reported by the radio driver.
    Hardware,
    /// FOTA-specific error.
    Fota(FotaError),
    /// A fixed-size table has no free slot left.
    TableFull,
}

/// Human-readable description of `e`.
pub open spec fn error_text(e: CommsError) -> Seq<char> {
    match e {
        CommsError::NothingReceived => "nothing received"@,
        CommsError::BufferTooSmall => "buffer too small"@,
        CommsError::MacError => "MAC layer error"@,
        CommsError::Hardware => "hardware error"@,
        CommsError::Fota(_) => "FOTA error"@,
        CommsError::TableFull => "table full"@,
    }
}

impl CommsError {
    /// Human-readable description of the error.
    pub fn describe(&self) -> (s: &'static str)
        ensures
            s@ == error_text(*self),
    {
        match self {
            CommsError::NothingReceived => "nothing received",
            CommsError::BufferTooSmall => "buffer too small",
            CommsError::MacError => "MAC layer error",
            CommsError::Hardware => "hardware error",
            CommsError::Fota(_) => "FOTA error",
            CommsError::TableFull => "table full",
        }
    }
}

} // verus!
