//! The fixed numbers of the format: section tags and the table of scalar kinds.

use std::collections::HashMap;
use vstd::prelude::*;
use crate::dtype::Dtype;
use crate::error::Error;

verus! {

/// The tag of a list that is absent.
pub const TAG_ABSENT: u32 = 0;

/// The tag that opens the list of dimensions.
pub const TAG_DIMENSION: u32 = 10;

/// The tag that opens the list of variables.
pub const TAG_VARIABLE: u32 = 11;

/// The tag that opens a list of attributes.
pub const TAG_ATTRIBUTE: u32 = 12;

/// The table of scalar kinds as a map from code to kind and element width.
pub open spec fn spec_typemap() -> Map<u8, (Dtype, u8)> {
    Map::new(
        |code: u8| 1 <= code <= 6,
        |code: u8| (Dtype::spec_from_code(code as int)->0, Dtype::spec_from_code(code as int)->0.spec_width()),
    )
}

/// The kind and element width that a code stands for.
pub open spec fn spec_element_size(code: int) -> Result<(Dtype, u8), Error> {
    match Dtype::spec_from_code(code) {
        Some(dtype) => Ok((dtype, dtype.spec_width())),
        None => Err(Error::UnknownTypeCode),
    }
}

/// Builds the table of scalar kinds: each code from 1 to 6 with its kind and
/// the width of one element in bytes.
pub fn typemap() -> (table: HashMap<u8, (Dtype, u8)>)
    ensures
        table@ == spec_typemap(),
{
    let mut table: HashMap<u8, (Dtype, u8)> = HashMap::new();
    table.insert(1, (Dtype::Byte, 1));
    table.insert(2, (Dtype::Char, 1));
    table.insert(3, (Dtype::Short, 2));
    table.insert(4, (Dtype::Int, 4));
    table.insert(5, (Dtype::Float, 4));
    table.insert(6, (Dtype::Double, 8));
    assert(table@ =~= spec_typemap());
    table
}

/// Looks up the kind and element width of a wire type code.
pub fn element_size(code: u8) -> (r: Result<(Dtype, u8), Error>)
    ensures
        r == spec_element_size(code as int),
        r is Ok <==> 1 <= code <= 6,
        r is Ok ==> spec_typemap().contains_key(code as u8) && spec_typemap()[code as u8] == r->Ok_0,
{
    match code {
        1 => Ok((Dtype::Byte, 1)),
        2 => Ok((Dtype::Char, 1)),
        3 => Ok((Dtype::Short, 2)),
        4 => Ok((Dtype::Int, 4)),
        5 => Ok((Dtype::Float, 4)),
        6 => Ok((Dtype::Double, 8)),
        _ => Err(Error::UnknownTypeCode),
    }
}

} // verus!
