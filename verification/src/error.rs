//! The ways in which reading or planning can stop.
use vstd::prelude::*;

use crate::text::{decimal, push_decimal};

verus! {

/// Why a reader or a planner could not go on.
#[derive(Clone, Copy, Debug, PartialEq, Eq, Structural)]
pub enum Error {
    /// The data ends before the value that was to be read.
    UnexpectedEof,
    /// The byte order mark is not that of a little-endian file.
    NotLittleEndian,
    /// The version word is not that of BigTIFF.
    NotBigTiff { magic: u16 },
    /// The header announces offsets that are not eight bytes wide.
    InvalidOffsetSize,
    /// The byte range that has to be supplied before reading can go on.
    NeedBytes { offset: u64, len: u64 },
    /// An IFD announces more entries than any file can hold.
    TooManyEntries,
    /// The value of an entry is larger than any file.
    ValueTooLarge,
    /// A block of image data ends beyond the last addressable byte.
    BlockOutOfRange,
    /// The output would grow beyond the last addressable byte.
    OutputTooLarge,
}

/// What the user is told.
pub open spec fn message_text(e: Error) -> Seq<char> {
    match e {
        Error::UnexpectedEof => "failed to fill whole buffer"@,
        Error::NotLittleEndian => "Only little-endian BigTIFF supported"@,
        Error::NotBigTiff { magic } => "Not a BigTIFF file (magic="@ + decimal(magic as nat)
            + ", expected 43)"@,
        Error::InvalidOffsetSize => "Invalid BigTIFF offset size"@,
        Error::NeedBytes { offset, len } => "Needs "@ + decimal(len as nat) + " bytes at "@
            + decimal(offset as nat),
        Error::TooManyEntries => "IFD with more entries than a file can hold"@,
        Error::ValueTooLarge => "Value larger than a file can be"@,
        Error::BlockOutOfRange => "Image data beyond the last addressable byte"@,
        Error::OutputTooLarge => "Output larger than a file can be"@,
    }
}

impl Error {
    /// What the user is told.
    pub fn message(&self) -> (r: String)
        ensures
            r@ == message_text(*self),
    {
        match *self {
            Error::UnexpectedEof => "failed to fill whole buffer".to_owned(),
            Error::NotLittleEndian => "Only little-endian BigTIFF supported".to_owned(),
            Error::NotBigTiff { magic } => {
                let mut text: String = "Not a BigTIFF file (magic=".to_owned();
                push_decimal(&mut text, magic as u64);
                text.append(", expected 43)");
                text
            },
            Error::InvalidOffsetSize => "Invalid BigTIFF offset size".to_owned(),
            Error::NeedBytes { offset, len } => {
                let mut text: String = "Needs ".to_owned();
                push_decimal(&mut text, len);
                text.append(" bytes at ");
                push_decimal(&mut text, offset);
                text
            },
            Error::TooManyEntries => "IFD with more entries than a file can hold".to_owned(),
            Error::ValueTooLarge => "Value larger than a file can be".to_owned(),
            Error::BlockOutOfRange => "Image data beyond the last addressable byte".to_owned(),
            Error::OutputTooLarge => "Output larger than a file can be".to_owned(),
        }
    }
}

/// A file that is no BigTIFF is reported with its version word.
pub proof fn law_message_names_magic(magic: u16)
    ensures
        message_text(Error::NotBigTiff { magic }) == "Not a BigTIFF file (magic="@ + decimal(
            magic as nat,
        ) + ", expected 43)"@,
{
}

} // verus!
