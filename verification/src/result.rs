//! The errors of this library.

use vstd::prelude::*;

verus! {

/// Why a run did not produce a tape image.
#[derive(Debug, PartialEq, Eq)]
pub enum Error {
    /// Creating the image, reading an input or writing failed; the message
    /// is that of the operation that failed.
    Io(String),
    /// Too few arguments: no tape, no command, or nothing to put on the tape.
    InvalidArgsCount,
    /// The tape's name does not end in `.tap`.
    InvalidTapeFilename,
    /// An input is not `PATH` or `PATH:BLOCKSIZE` with a positive block
    /// size, or the default block size handed in is not a positive integer.
    InvalidInputSpec,
    /// Listing and extracting are not supported yet.
    NotImplemented,
}

impl Error {
    /// The error for a failed read, write or create, from the message that
    /// the operation gave.
    pub fn io(message: String) -> (e: Error)
        ensures
            e == Error::Io(message),
    {
        Error::Io(message)
    }
}

} // verus!
