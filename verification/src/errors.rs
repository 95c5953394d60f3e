use vstd::prelude::*;

verus! {

/// The target process could not be attached: it does not exist, access to it
/// was denied, or its memory map could not be captured. Fatal at attach time.
#[derive(Clone, Copy, PartialEq, Eq, Structural, Debug)]
pub enum ProcessAttachError {
    /// No process with the given identifier exists.
    NotFound,
    /// The process exists but access to it was denied.
    AccessDenied,
    /// The memory map could not be captured for another reason.
    Other,
}

/// A single read or write of the target process's memory failed: the address
/// is unmapped, the region's protection changed, or the process exited.
/// Transient during scans (the offending address is skipped); surfaced to the
/// caller on a direct read or write.
#[derive(Clone, Copy, PartialEq, Eq, Structural, Debug)]
pub enum MemoryAccessError {
    /// The bytes at the address could not be read.
    UnreadableAddress,
    /// The bytes at the address could not be written.
    UnwritableAddress,
}

/// An observation's text could not be interpreted as a value of the numeric
/// kind being tracked. The observation is dropped; no command is queued.
#[derive(Clone, Copy, PartialEq, Eq, Structural, Debug)]
pub enum ValueParseError {
    /// The text is empty.
    Empty,
    /// The text holds a character that is not a decimal digit.
    InvalidDigit,
    /// The text is a number, but too large for the tracked value kind.
    Overflow,
}

} // verus!
