//! The byte layout of a header, as mathematical functions from bytes to values.
//!
//! Each function takes all the bytes and the index at which a field starts, and
//! gives the field's value with the index just past it, or the failure that a
//! decoder reports there.

use vstd::prelude::*;
use crate::attributes::{AttributeValueView, AttributeView};
use crate::constants::{spec_element_size, TAG_ABSENT, TAG_ATTRIBUTE, TAG_DIMENSION, TAG_VARIABLE};
use crate::dataset::DatasetView;
use crate::dimension::DimensionView;
use crate::error::{DecodeError, Error, ListError, State};
use crate::helpers::spec_padding_for;
use crate::text::spec_text;
use crate::variable::VariableView;
use crate::version::FormatVersion;

verus! {

/// The unsigned value of the first four bytes of `s`, most significant first.
pub open spec fn spec_u32_be(s: Seq<u8>) -> int
    recommends
        s.len() >= 4,
{
    s[0] as int * 0x100_0000 + s[1] as int * 0x1_0000 + s[2] as int * 0x100 + s[3] as int
}

/// The unsigned value of the first eight bytes of `s`, most significant first.
pub open spec fn spec_u64_be(s: Seq<u8>) -> int
    recommends
        s.len() >= 8,
{
    spec_u32_be(s) * 0x1_0000_0000 + spec_u32_be(s.skip(4))
}

/// The first four bytes of `s` as a two's-complement value.
pub open spec fn spec_i32_be(s: Seq<u8>) -> int
    recommends
        s.len() >= 4,
{
    if spec_u32_be(s) >= 0x8000_0000 {
        spec_u32_be(s) - 0x1_0000_0000
    } else {
        spec_u32_be(s)
    }
}

/// The first eight bytes of `s` as a two's-complement value.
pub open spec fn spec_i64_be(s: Seq<u8>) -> int
    recommends
        s.len() >= 8,
{
    if spec_u64_be(s) >= 0x8000_0000_0000_0000 {
        spec_u64_be(s) - 0x1_0000_0000_0000_0000
    } else {
        spec_u64_be(s)
    }
}

/// The mathematical values of a sequence of items.
pub open spec fn views<T: View>(items: Seq<T>) -> Seq<T::V> {
    Seq::new(items.len(), |i: int| items[i]@)
}

/// Whether what a decoder returned, and where it stopped, is what the layout
/// prescribes: the same value and end on success, the same failure otherwise.
pub open spec fn agrees<T: View>(r: Result<T, Error>, end: int, expected: Result<(T::V, int), Error>) -> bool {
    match expected {
        Ok((value, stop)) => r is Ok && r->Ok_0@ == value && end == stop,
        Err(e) => r == Err::<T, Error>(e),
    }
}

/// The `n` bytes that start at `pos`.
pub open spec fn take_bytes(data: Seq<u8>, pos: int, n: int) -> Result<(Seq<u8>, int), Error> {
    if 0 <= pos && 0 <= n && pos + n <= data.len() {
        Ok((data.subrange(pos, pos + n), pos + n))
    } else {
        Err(Error::TruncatedInput)
    }
}

/// The byte at `pos`.
pub open spec fn take_u8(data: Seq<u8>, pos: int) -> Result<(u8, int), Error> {
    match take_bytes(data, pos, 1) {
        Ok((field, end)) => Ok((field[0], end)),
        Err(e) => Err(e),
    }
}

/// The unsigned 32-bit integer at `pos`.
pub open spec fn take_u32(data: Seq<u8>, pos: int) -> Result<(u32, int), Error> {
    match take_bytes(data, pos, 4) {
        Ok((field, end)) => Ok((spec_u32_be(field) as u32, end)),
        Err(e) => Err(e),
    }
}

/// The unsigned 64-bit integer at `pos`.
pub open spec fn take_u64(data: Seq<u8>, pos: int) -> Result<(u64, int), Error> {
    match take_bytes(data, pos, 8) {
        Ok((field, end)) => Ok((spec_u64_be(field) as u64, end)),
        Err(e) => Err(e),
    }
}

/// The signed 32-bit integer at `pos`.
pub open spec fn take_i32(data: Seq<u8>, pos: int) -> Result<(i32, int), Error> {
    match take_bytes(data, pos, 4) {
        Ok((field, end)) => Ok((spec_i32_be(field) as i32, end)),
        Err(e) => Err(e),
    }
}

/// The signed 64-bit integer at `pos`.
pub open spec fn take_i64(data: Seq<u8>, pos: int) -> Result<(i64, int), Error> {
    match take_bytes(data, pos, 8) {
        Ok((field, end)) => Ok((spec_i64_be(field) as i64, end)),
        Err(e) => Err(e),
    }
}

/// The text of `n` bytes that starts at `pos`.
pub open spec fn take_text(data: Seq<u8>, pos: int, n: int) -> Result<(Seq<char>, int), Error> {
    match take_bytes(data, pos, n) {
        Err(e) => Err(e),
        Ok((raw, end)) => match spec_text(raw) {
            Err(e) => Err(e),
            Ok(text) => Ok((text, end)),
        },
    }
}

/// The index just past the padding that follows a field of `n` bytes ending at
/// `pos`. What the padding bytes hold does not matter.
pub open spec fn skip_padding(data: Seq<u8>, pos: int, n: int) -> Result<int, Error> {
    match take_bytes(data, pos, spec_padding_for(n)) {
        Err(e) => Err(e),
        Ok((_, end)) => Ok(end),
    }
}

/// A name: its length in bytes, its text, and padding.
#[verifier::opaque]
pub open spec fn take_name(data: Seq<u8>, pos: int) -> Result<(Seq<char>, int), Error> {
    match take_u32(data, pos) {
        Err(e) => Err(e),
        Ok((len, after_len)) => match take_text(data, after_len, len as int) {
            Err(e) => Err(e),
            Ok((name, after_text)) => match skip_padding(data, after_text, len as int) {
                Err(e) => Err(e),
                Ok(end) => Ok((name, end)),
            },
        },
    }
}

/// A count: eight bytes where the version has wide counts, four otherwise.
pub open spec fn take_count(data: Seq<u8>, pos: int, version: FormatVersion) -> Result<(u64, int), Error> {
    if version.spec_wide_counts() {
        take_u64(data, pos)
    } else {
        match take_u32(data, pos) {
            Err(e) => Err(e),
            Ok((n, end)) => Ok((n as u64, end)),
        }
    }
}

/// The count that stands for "the number of records is not known": all bits set.
pub open spec fn streaming_mark(version: FormatVersion) -> u64 {
    if version.spec_wide_counts() {
        0xffff_ffff_ffff_ffff
    } else {
        0xffff_ffff
    }
}

/// The number of records, or `None` where the header leaves it open.
#[verifier::opaque]
pub open spec fn take_numrecs(data: Seq<u8>, pos: int, version: FormatVersion) -> Result<(Option<u64>, int), Error> {
    match take_count(data, pos, version) {
        Err(e) => Err(e),
        Ok((n, end)) => Ok((if n == streaming_mark(version) { None } else { Some(n) }, end)),
    }
}

/// The head of a list: a tag, which is zero or `tag`, and the number of entries.
#[verifier::opaque]
pub open spec fn take_list_header(data: Seq<u8>, pos: int, tag: u32, version: FormatVersion) -> Result<(u64, int), Error> {
    match take_u32(data, pos) {
        Err(e) => Err(e),
        Ok((found, after_tag)) => if found != TAG_ABSENT && found != tag {
            Err(Error::MalformedSectionHeader)
        } else {
            take_count(data, after_tag, version)
        },
    }
}

/// A failure at entry `index` of a list.
pub open spec fn at_entry(kind: Error, index: int) -> ListError {
    ListError { kind, entry: Some(index as u64) }
}

/// A failure in the head of a list.
pub open spec fn at_head(kind: Error) -> ListError {
    ListError { kind, entry: None }
}

/// `first` followed by what `rest` gives, or the failure of `rest`.
pub open spec fn after<T, E>(first: Seq<T>, rest: Result<(Seq<T>, int), E>) -> Result<(Seq<T>, int), E> {
    match rest {
        Ok((items, end)) => Ok((first + items, end)),
        Err(e) => Err(e),
    }
}

/// One dimension: a name and a length.
#[verifier::opaque]
pub open spec fn take_dimension(data: Seq<u8>, pos: int) -> Result<(DimensionView, int), Error> {
    match take_name(data, pos) {
        Err(e) => Err(e),
        Ok((name, after_name)) => match take_u32(data, after_name) {
            Err(e) => Err(e),
            Ok((length, end)) => Ok((DimensionView::make(name, length as u64), end)),
        },
    }
}

/// The dimensions from entry `index` up to entry `count`. `seen_unlimited` says
/// whether an earlier entry has length zero; a second such entry fails.
pub open spec fn take_dimensions(
    data: Seq<u8>,
    pos: int,
    index: int,
    count: int,
    seen_unlimited: bool,
) -> Result<(Seq<DimensionView>, int), ListError>
    decreases count - index,
{
    if index >= count {
        Ok((Seq::empty(), pos))
    } else {
        match take_dimension(data, pos) {
            Err(e) => Err(at_entry(e, index)),
            Ok((dimension, next)) => if dimension.is_unlimited && seen_unlimited {
                Err(at_entry(Error::MultipleUnlimitedDimensions, index))
            } else {
                after(
                    seq![dimension],
                    take_dimensions(data, next, index + 1, count, seen_unlimited || dimension.is_unlimited),
                )
            },
        }
    }
}

/// The list of dimensions.
#[verifier::opaque]
pub open spec fn take_dimension_list(data: Seq<u8>, pos: int, version: FormatVersion) -> Result<(Seq<DimensionView>, int), ListError> {
    match take_list_header(data, pos, TAG_DIMENSION, version) {
        Err(e) => Err(at_head(e)),
        Ok((count, start)) => take_dimensions(data, start, 0, count as int, false),
    }
}

/// One attribute: a name, a type code, an element count, the elements and
/// padding.
#[verifier::opaque]
pub open spec fn take_attribute(data: Seq<u8>, pos: int, version: FormatVersion) -> Result<(AttributeView, int), Error> {
    match take_name(data, pos) {
        Err(e) => Err(e),
        Ok((name, after_name)) => match take_u32(data, after_name) {
            Err(e) => Err(e),
            Ok((code, after_code)) => match take_count(data, after_code, version) {
                Err(e) => Err(e),
                Ok((count, after_count)) => match spec_element_size(code as int) {
                    Err(e) => Err(e),
                    Ok((dtype, width)) => match take_bytes(data, after_count, count * width) {
                        Err(e) => Err(e),
                        Ok((raw, after_raw)) => match skip_padding(data, after_raw, count * width) {
                            Err(e) => Err(e),
                            Ok(end) => Ok(
                                (AttributeView { name, value: AttributeValueView { dtype, raw, count } }, end),
                            ),
                        },
                    },
                },
            },
        },
    }
}

/// The attributes from entry `index` up to entry `count`.
pub open spec fn take_attributes(
    data: Seq<u8>,
    pos: int,
    index: int,
    count: int,
    version: FormatVersion,
) -> Result<(Seq<AttributeView>, int), ListError>
    decreases count - index,
{
    if index >= count {
        Ok((Seq::empty(), pos))
    } else {
        match take_attribute(data, pos, version) {
            Err(e) => Err(at_entry(e, index)),
            Ok((attribute, next)) => after(
                seq![attribute],
                take_attributes(data, next, index + 1, count, version),
            ),
        }
    }
}

/// A list of attributes, of a dataset or of a variable.
#[verifier::opaque]
pub open spec fn take_attribute_list(data: Seq<u8>, pos: int, version: FormatVersion) -> Result<(Seq<AttributeView>, int), ListError> {
    match take_list_header(data, pos, TAG_ATTRIBUTE, version) {
        Err(e) => Err(at_head(e)),
        Ok((count, start)) => take_attributes(data, start, 0, count as int, version),
    }
}

/// Whether a variable may name dimension `id` in place `place`: the dimension
/// exists, and the record dimension stands in first place only.
pub open spec fn check_dimension_ref(dimensions: Seq<DimensionView>, place: int, id: u32) -> Result<(), Error> {
    if id >= dimensions.len() {
        Err(Error::UnknownDimensionId)
    } else if place > 0 && dimensions[id as int].is_unlimited {
        Err(Error::InvalidRecordDimensionPlacement)
    } else {
        Ok(())
    }
}

/// The dimension ids of a variable from place `place` up to place `rank`.
pub open spec fn take_dimension_ids(
    data: Seq<u8>,
    pos: int,
    place: int,
    rank: int,
    dimensions: Seq<DimensionView>,
) -> Result<(Seq<u32>, int), Error>
    decreases rank - place,
{
    if place >= rank {
        Ok((Seq::empty(), pos))
    } else {
        match take_u32(data, pos) {
            Err(e) => Err(e),
            Ok((id, next)) => match check_dimension_ref(dimensions, place, id) {
                Err(e) => Err(e),
                Ok(_) => after(seq![id], take_dimension_ids(data, next, place + 1, rank, dimensions)),
            },
        }
    }
}

/// The offset at which a variable's data begins: four bytes where the version
/// has 32-bit offsets, eight otherwise.
pub open spec fn take_offset(data: Seq<u8>, pos: int, version: FormatVersion) -> Result<(u64, int), Error> {
    if version.spec_offset_width() == 32 {
        match take_u32(data, pos) {
            Err(e) => Err(e),
            Ok((n, end)) => Ok((n as u64, end)),
        }
    } else {
        take_u64(data, pos)
    }
}

/// One variable: a name, its dimension ids, its attributes, a type code, a
/// declared size and the offset of its data.
#[verifier::opaque]
pub open spec fn take_variable(
    data: Seq<u8>,
    pos: int,
    dimensions: Seq<DimensionView>,
    version: FormatVersion,
) -> Result<(VariableView, int), Error> {
    match take_name(data, pos) {
        Err(e) => Err(e),
        Ok((name, after_name)) => match take_u32(data, after_name) {
            Err(e) => Err(e),
            Ok((rank, after_rank)) => match take_dimension_ids(data, after_rank, 0, rank as int, dimensions) {
                Err(e) => Err(e),
                Ok((ids, after_ids)) => match take_attribute_list(data, after_ids, version) {
                    Err(e) => Err(e.kind),
                    Ok((attributes, after_attributes)) => match take_u32(data, after_attributes) {
                        Err(e) => Err(e),
                        Ok((code, after_code)) => match spec_element_size(code as int) {
                            Err(e) => Err(e),
                            Ok((dtype, _)) => match take_u32(data, after_code) {
                                Err(e) => Err(e),
                                Ok((size, after_size)) => match take_offset(data, after_size, version) {
                                    Err(e) => Err(e),
                                    Ok((begin, end)) => Ok(
                                        (
                                            VariableView {
                                                name,
                                                dimensions: ids,
                                                attributes,
                                                dtype,
                                                size: size as i64,
                                                begin,
                                            },
                                            end,
                                        ),
                                    ),
                                },
                            },
                        },
                    },
                },
            },
        },
    }
}

/// The variables from entry `index` up to entry `count`.
pub open spec fn take_variables(
    data: Seq<u8>,
    pos: int,
    index: int,
    count: int,
    dimensions: Seq<DimensionView>,
    version: FormatVersion,
) -> Result<(Seq<VariableView>, int), ListError>
    decreases count - index,
{
    if index >= count {
        Ok((Seq::empty(), pos))
    } else {
        match take_variable(data, pos, dimensions, version) {
            Err(e) => Err(at_entry(e, index)),
            Ok((variable, next)) => after(
                seq![variable],
                take_variables(data, next, index + 1, count, dimensions, version),
            ),
        }
    }
}

/// The list of variables.
#[verifier::opaque]
pub open spec fn take_variable_list(
    data: Seq<u8>,
    pos: int,
    dimensions: Seq<DimensionView>,
    version: FormatVersion,
) -> Result<(Seq<VariableView>, int), ListError> {
    match take_list_header(data, pos, TAG_VARIABLE, version) {
        Err(e) => Err(at_head(e)),
        Ok((count, start)) => take_variables(data, start, 0, count as int, dimensions, version),
    }
}

/// The three bytes that open every header.
pub open spec fn magic() -> Seq<u8> {
    seq![0x43u8, 0x44u8, 0x46u8]
}

/// A failure of a step that is no list.
pub open spec fn in_state(kind: Error, state: State) -> DecodeError {
    DecodeError { kind, state, entry: None }
}

/// A failure inside the list that a step decodes.
pub open spec fn in_list(e: ListError, state: State) -> DecodeError {
    DecodeError { kind: e.kind, state, entry: e.entry }
}

/// A whole header: magic, version, record count, dimensions, attributes and
/// variables, in this order. The result carries no source name.
pub open spec fn take_header(data: Seq<u8>, pos: int) -> Result<(DatasetView, int), DecodeError> {
    match take_bytes(data, pos, 3) {
        Err(e) => Err(in_state(e, State::ExpectMagic)),
        Ok((found, after_magic)) => if found != magic() {
            Err(in_state(Error::NotACdfFile, State::ExpectMagic))
        } else {
            match take_u8(data, after_magic) {
                Err(e) => Err(in_state(e, State::ExpectVersion)),
                Ok((byte, after_version)) => match FormatVersion::spec_from_byte(byte) {
                    Err(e) => Err(in_state(e, State::ExpectVersion)),
                    Ok(version) => match take_numrecs(data, after_version, version) {
                        Err(e) => Err(in_state(e, State::ExpectNumrecs)),
                        Ok((numrecs, after_numrecs)) => match take_dimension_list(data, after_numrecs, version) {
                            Err(e) => Err(in_list(e, State::ExpectDimList)),
                            Ok((dimensions, after_dimensions)) => match take_attribute_list(
                                data,
                                after_dimensions,
                                version,
                            ) {
                                Err(e) => Err(in_list(e, State::ExpectGlobalAttrList)),
                                Ok((attributes, after_attributes)) => match take_variable_list(
                                    data,
                                    after_attributes,
                                    dimensions,
                                    version,
                                ) {
                                    Err(e) => Err(in_list(e, State::ExpectVarList)),
                                    Ok((variables, end)) => Ok(
                                        (
                                            DatasetView {
                                                source: None,
                                                version,
                                                numrecs,
                                                dimensions,
                                                attributes,
                                                variables,
                                            },
                                            end,
                                        ),
                                    ),
                                },
                            },
                        },
                    },
                },
            }
        },
    }
}

/// Whether a list decoder returned what the layout prescribes and stopped
/// where it prescribes.
pub open spec fn agrees_list<T: View>(
    r: Result<Vec<T>, ListError>,
    end: int,
    expected: Result<(Seq<T::V>, int), ListError>,
) -> bool {
    match expected {
        Ok((items, stop)) => r is Ok && views(r->Ok_0@) == items && end == stop,
        Err(e) => r == Err::<Vec<T>, ListError>(e),
    }
}

/// Putting an item at the end of the first part is the same as putting it at
/// the start of the rest.
pub proof fn lemma_after_push<T, E>(first: Seq<T>, item: T, rest: Result<(Seq<T>, int), E>)
    ensures
        after(first, after(seq![item], rest)) == after(first.push(item), rest),
{
    match rest {
        Ok((items, end)) => {
            assert(first + (seq![item] + items) =~= first.push(item) + items);
        },
        Err(_) => {},
    }
}

/// The values of a sequence with one more item.
pub proof fn lemma_views_push<T: View>(items: Seq<T>, item: T)
    ensures
        views(items.push(item)) == views(items).push(item@),
{
    assert(views(items.push(item)) =~= views(items).push(item@));
}

} // verus!
