//! Typed failures of the codec and of the collector, per operation.
use vstd::prelude::*;

verus! {

/// A structural fault in archive bytes. Always fatal to the decode or
/// encode that met it; never retried.
#[derive(Debug, Clone, Copy, PartialEq, Eq)]
pub enum FormatError {
    /// The leading four bytes are not the format's magic number.
    BadMagic,
    /// A table flag byte was neither an entry marker nor the end sentinel;
    /// carries the byte and the buffer offset where it was read.
    BadFlag { flag: u8, offset: usize },
    /// A read ran past the end of the buffer.
    UnexpectedEof,
    /// An entry name does not fit the one-byte length prefix once encoded.
    NameTooLong,
}

/// A fault in what the caller handed in. Fatal to the requested operation
/// only.
#[derive(Debug, Clone, Copy, PartialEq, Eq)]
pub enum InputError {
    /// Two files normalize to the same virtual name.
    DuplicateName,
    /// A file is larger than the 32-bit size ceiling.
    FileTooLarge,
    /// The directory to pack contains no files at all.
    EmptyInput,
    /// A navigation target names no directory of the archive.
    NotFound,
}

} // verus!
