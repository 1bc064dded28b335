//! The ways in which decoding a header or resolving a layout query can fail.

use vstd::prelude::*;

verus! {

/// Why an operation failed.
#[derive(Clone, Copy, Debug, PartialEq, Eq, Structural)]
pub enum Error {
    /// The first three bytes are not the literal `CDF`.
    NotACdfFile,
    /// The version byte is none of 1, 2 and 5.
    UnsupportedVersion,
    /// Fewer bytes are left than a field needs.
    TruncatedInput,
    /// A list starts with a tag that is neither zero nor the tag of its section.
    MalformedSectionHeader,
    /// A wire type code outside 1 to 6.
    UnknownTypeCode,
    /// A variable names a dimension that the dimension list does not hold.
    UnknownDimensionId,
    /// A second dimension of length zero.
    MultipleUnlimitedDimensions,
    /// A variable uses the record dimension anywhere but in first place.
    InvalidRecordDimensionPlacement,
    /// A name is not valid UTF-8.
    InvalidUtf8,
    /// A layout query addresses an element outside the variable.
    IndexOutOfBounds,
}

/// The step of header decoding, in the order in which the steps are taken.
#[derive(Clone, Copy, Debug, PartialEq, Eq, Structural)]
pub enum State {
    ExpectMagic,
    ExpectVersion,
    ExpectNumrecs,
    ExpectDimList,
    ExpectGlobalAttrList,
    ExpectVarList,
    Done,
}

/// A failure inside a list: the cause, and the index of the entry that was being
/// decoded, or `None` where the list's own tag or count failed.
#[derive(Clone, Copy, Debug, PartialEq, Eq, Structural)]
pub struct ListError {
    pub kind: Error,
    pub entry: Option<u64>,
}

/// A failed header decode: the cause, the step that failed and, inside a list,
/// the index of the entry that failed.
#[derive(Clone, Copy, Debug, PartialEq, Eq, Structural)]
pub struct DecodeError {
    pub kind: Error,
    pub state: State,
    pub entry: Option<u64>,
}

} // verus!
