//! The three variants of the format and the field widths that each one fixes.

use vstd::prelude::*;
use crate::error::Error;

verus! {

/// The variant of the format, as the fourth byte of a header names it.
#[allow(non_camel_case_types)]
#[derive(Clone, Copy, Debug, PartialEq, Eq, Structural)]
pub enum FormatVersion {
    /// Version byte 1: 32-bit offsets and counts.
    V1_32BIT,
    /// Version byte 2: 64-bit offsets, 32-bit counts.
    V2_64BIT,
    /// Version byte 5: 64-bit offsets and counts.
    V5_64BIT_COUNTS,
}

impl FormatVersion {
    /// The variant that a version byte names, if it names one.
    pub open spec fn spec_from_byte(byte: u8) -> Result<FormatVersion, Error> {
        if byte == 1 {
            Ok(FormatVersion::V1_32BIT)
        } else if byte == 2 {
            Ok(FormatVersion::V2_64BIT)
        } else if byte == 5 {
            Ok(FormatVersion::V5_64BIT_COUNTS)
        } else {
            Err(Error::UnsupportedVersion)
        }
    }

    /// The byte that names this variant.
    pub open spec fn spec_byte(self) -> u8 {
        match self {
            FormatVersion::V1_32BIT => 1,
            FormatVersion::V2_64BIT => 2,
            FormatVersion::V5_64BIT_COUNTS => 5,
        }
    }

    /// The width in bits of the offset at which a variable's data begins.
    pub open spec fn spec_offset_width(self) -> u8 {
        match self {
            FormatVersion::V1_32BIT => 32,
            FormatVersion::V2_64BIT => 64,
            FormatVersion::V5_64BIT_COUNTS => 64,
        }
    }

    /// Whether the record count, the entry counts of the lists and the element
    /// counts of attributes take eight bytes instead of four.
    pub open spec fn spec_wide_counts(self) -> bool {
        self == FormatVersion::V5_64BIT_COUNTS
    }

    /// Maps a version byte to its variant.
    pub fn from_byte(byte: u8) -> (r: Result<FormatVersion, Error>)
        ensures
            r == FormatVersion::spec_from_byte(byte),
            r is Ok <==> byte == 1 || byte == 2 || byte == 5,
            r is Ok ==> r->Ok_0.spec_byte() == byte,
    {
        match byte {
            1 => Ok(FormatVersion::V1_32BIT),
            2 => Ok(FormatVersion::V2_64BIT),
            5 => Ok(FormatVersion::V5_64BIT_COUNTS),
            _ => Err(Error::UnsupportedVersion),
        }
    }

    /// Returns the byte that names this variant.
    pub fn byte(self) -> (b: u8)
        ensures
            b == self.spec_byte(),
            FormatVersion::spec_from_byte(b) == Ok::<FormatVersion, Error>(self),
    {
        match self {
            FormatVersion::V1_32BIT => 1,
            FormatVersion::V2_64BIT => 2,
            FormatVersion::V5_64BIT_COUNTS => 5,
        }
    }

    /// Returns the width in bits of a data offset: 32 or 64.
    pub fn offset_width(self) -> (w: u8)
        ensures
            w == self.spec_offset_width(),
            w == 32 || w == 64,
    {
        match self {
            FormatVersion::V1_32BIT => 32,
            _ => 64,
        }
    }

    /// Returns whether counts take eight bytes.
    pub fn wide_counts(self) -> (wide: bool)
        ensures
            wide == self.spec_wide_counts(),
    {
        match self {
            FormatVersion::V5_64BIT_COUNTS => true,
            _ => false,
        }
    }
}

} // verus!
