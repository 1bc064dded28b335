//! A header that is cut short never decodes to something else: every field
//! that ends before the cut reads as before, and the first field that the cut
//! falls into fails for want of bytes.

use vstd::prelude::*;
use crate::constants::{spec_element_size, TAG_ATTRIBUTE, TAG_DIMENSION, TAG_VARIABLE};
use crate::dimension::DimensionView;
use crate::error::{Error, ListError};
use crate::grammar::{
    take_attribute, take_attribute_list, take_attributes, take_bytes, take_count, take_dimension,
    take_dimension_ids, take_dimension_list, take_dimensions, take_header, take_list_header,
    take_name, take_numrecs, take_offset, take_u32, take_u64, take_u8, take_variable,
    take_variable_list, take_variables,
};
use crate::helpers::spec_padding_for;
use crate::version::FormatVersion;

verus! {

/// What reading a field of the first `cut` bytes gives, where reading it of
/// all the bytes gives `whole`: the same if the field ends at or before the
/// cut, a failure for want of bytes otherwise.
pub open spec fn cut_short<T>(whole: Result<(T, int), Error>, part: Result<(T, int), Error>, cut: int) -> bool {
    match whole {
        Ok((_, end)) => if end <= cut {
            part == whole
        } else {
            part == Err::<(T, int), Error>(Error::TruncatedInput)
        },
        Err(_) => true,
    }
}

/// The same for a list, whose failure also names an entry.
pub open spec fn list_cut_short<T>(
    whole: Result<(T, int), ListError>,
    part: Result<(T, int), ListError>,
    cut: int,
) -> bool {
    match whole {
        Ok((_, end)) => if end <= cut {
            part == whole
        } else {
            part is Err && part->Err_0.kind == Error::TruncatedInput
        },
        Err(_) => true,
    }
}

/// A run of bytes that is cut short.
pub proof fn lemma_bytes_cut(data: Seq<u8>, pos: int, n: int, cut: int)
    requires
        take_bytes(data, pos, n) is Ok,
        pos <= cut <= data.len(),
    ensures
        cut_short(take_bytes(data, pos, n), take_bytes(data.take(cut), pos, n), cut),
        pos <= take_bytes(data, pos, n)->Ok_0.1 <= data.len(),
{
    if pos + n <= cut {
        assert(data.take(cut).subrange(pos, pos + n) =~= data.subrange(pos, pos + n));
    }
}

/// A byte that is cut off.
pub proof fn lemma_u8_cut(data: Seq<u8>, pos: int, cut: int)
    requires
        take_u8(data, pos) is Ok,
        pos <= cut <= data.len(),
    ensures
        cut_short(take_u8(data, pos), take_u8(data.take(cut), pos), cut),
        pos <= take_u8(data, pos)->Ok_0.1 <= data.len(),
{
    lemma_bytes_cut(data, pos, 1, cut);
}

/// A 32-bit integer that is cut short.
pub proof fn lemma_u32_cut(data: Seq<u8>, pos: int, cut: int)
    requires
        take_u32(data, pos) is Ok,
        pos <= cut <= data.len(),
    ensures
        cut_short(take_u32(data, pos), take_u32(data.take(cut), pos), cut),
        pos <= take_u32(data, pos)->Ok_0.1 <= data.len(),
{
    lemma_bytes_cut(data, pos, 4, cut);
}

/// A 64-bit integer that is cut short.
pub proof fn lemma_u64_cut(data: Seq<u8>, pos: int, cut: int)
    requires
        take_u64(data, pos) is Ok,
        pos <= cut <= data.len(),
    ensures
        cut_short(take_u64(data, pos), take_u64(data.take(cut), pos), cut),
        pos <= take_u64(data, pos)->Ok_0.1 <= data.len(),
{
    lemma_bytes_cut(data, pos, 8, cut);
}

/// A count that is cut short.
pub proof fn lemma_count_cut(data: Seq<u8>, pos: int, version: FormatVersion, cut: int)
    requires
        take_count(data, pos, version) is Ok,
        pos <= cut <= data.len(),
    ensures
        cut_short(take_count(data, pos, version), take_count(data.take(cut), pos, version), cut),
        pos <= take_count(data, pos, version)->Ok_0.1 <= data.len(),
{
    if version.spec_wide_counts() {
        lemma_u64_cut(data, pos, cut);
    } else {
        lemma_u32_cut(data, pos, cut);
    }
}

/// A record count that is cut short.
pub proof fn lemma_numrecs_cut(data: Seq<u8>, pos: int, version: FormatVersion, cut: int)
    requires
        take_numrecs(data, pos, version) is Ok,
        pos <= cut <= data.len(),
    ensures
        cut_short(take_numrecs(data, pos, version), take_numrecs(data.take(cut), pos, version), cut),
        pos <= take_numrecs(data, pos, version)->Ok_0.1 <= data.len(),
{
    reveal(take_numrecs);
    lemma_count_cut(data, pos, version, cut);
}

/// An offset that is cut short.
pub proof fn lemma_offset_cut(data: Seq<u8>, pos: int, version: FormatVersion, cut: int)
    requires
        take_offset(data, pos, version) is Ok,
        pos <= cut <= data.len(),
    ensures
        cut_short(take_offset(data, pos, version), take_offset(data.take(cut), pos, version), cut),
        pos <= take_offset(data, pos, version)->Ok_0.1 <= data.len(),
{
    if version.spec_offset_width() == 32 {
        lemma_u32_cut(data, pos, cut);
    } else {
        lemma_u64_cut(data, pos, cut);
    }
}

/// The head of a list that is cut short.
pub proof fn lemma_list_header_cut(data: Seq<u8>, pos: int, tag: u32, version: FormatVersion, cut: int)
    requires
        take_list_header(data, pos, tag, version) is Ok,
        pos <= cut <= data.len(),
    ensures
        cut_short(
            take_list_header(data, pos, tag, version),
            take_list_header(data.take(cut), pos, tag, version),
            cut,
        ),
        pos <= take_list_header(data, pos, tag, version)->Ok_0.1 <= data.len(),
{
    reveal(take_list_header);
    lemma_u32_cut(data, pos, cut);
    if pos + 4 <= cut {
        lemma_count_cut(data, pos + 4, version, cut);
    } else {
        let after_tag = pos + 4;
        assert(take_count(data, after_tag, version) is Ok);
        assert(take_count(data, after_tag, version)->Ok_0.1 > after_tag);
    }
}

/// A name that is cut short: in its length, in its text or in its padding.
pub proof fn lemma_name_cut(data: Seq<u8>, pos: int, cut: int)
    requires
        take_name(data, pos) is Ok,
        pos <= cut <= data.len(),
    ensures
        cut_short(take_name(data, pos), take_name(data.take(cut), pos), cut),
        pos <= take_name(data, pos)->Ok_0.1 <= data.len(),
{
    reveal(take_name);
    lemma_u32_cut(data, pos, cut);
    let (len, after_len) = take_u32(data, pos)->Ok_0;
    let after_text = after_len + len;
    if after_len <= cut {
        lemma_bytes_cut(data, after_len, len as int, cut);
        if after_text <= cut {
            lemma_bytes_cut(data, after_text, spec_padding_for(len as int), cut);
        }
    }
}

/// A dimension that is cut short.
pub proof fn lemma_dimension_cut(data: Seq<u8>, pos: int, cut: int)
    requires
        take_dimension(data, pos) is Ok,
        pos <= cut <= data.len(),
    ensures
        cut_short(take_dimension(data, pos), take_dimension(data.take(cut), pos), cut),
        pos <= take_dimension(data, pos)->Ok_0.1 <= data.len(),
{
    reveal(take_dimension);
    lemma_name_cut(data, pos, cut);
    let after_name = take_name(data, pos)->Ok_0.1;
    if after_name <= cut {
        lemma_u32_cut(data, after_name, cut);
    }
}

/// The entries of a dimension list that are cut short.
pub proof fn lemma_dimensions_cut(
    data: Seq<u8>,
    pos: int,
    index: int,
    count: int,
    seen_unlimited: bool,
    cut: int,
)
    requires
        take_dimensions(data, pos, index, count, seen_unlimited) is Ok,
        pos <= cut <= data.len(),
    ensures
        list_cut_short(
            take_dimensions(data, pos, index, count, seen_unlimited),
            take_dimensions(data.take(cut), pos, index, count, seen_unlimited),
            cut,
        ),
        pos <= take_dimensions(data, pos, index, count, seen_unlimited)->Ok_0.1 <= data.len(),
    decreases count - index,
{
    if index < count {
        lemma_dimension_cut(data, pos, cut);
        let (first, next) = take_dimension(data, pos)->Ok_0;
        let seen = seen_unlimited || first.is_unlimited;
        if next <= cut {
            lemma_dimensions_cut(data, next, index + 1, count, seen, cut);
        } else {
            lemma_dimensions_cut(data, next, index + 1, count, seen, data.len() as int);
        }
    }
}

/// A dimension list that is cut short.
pub proof fn lemma_dimension_list_cut(data: Seq<u8>, pos: int, version: FormatVersion, cut: int)
    requires
        take_dimension_list(data, pos, version) is Ok,
        pos <= cut <= data.len(),
    ensures
        list_cut_short(
            take_dimension_list(data, pos, version),
            take_dimension_list(data.take(cut), pos, version),
            cut,
        ),
        pos <= take_dimension_list(data, pos, version)->Ok_0.1 <= data.len(),
{
    reveal(take_dimension_list);
    lemma_list_header_cut(data, pos, TAG_DIMENSION, version, cut);
    let (count, start) = take_list_header(data, pos, TAG_DIMENSION, version)->Ok_0;
    if start <= cut {
        lemma_dimensions_cut(data, start, 0, count as int, false, cut);
    } else {
        lemma_dimensions_cut(data, start, 0, count as int, false, data.len() as int);
    }
}

/// An attribute that is cut short.
pub proof fn lemma_attribute_cut(data: Seq<u8>, pos: int, version: FormatVersion, cut: int)
    requires
        take_attribute(data, pos, version) is Ok,
        pos <= cut <= data.len(),
    ensures
        cut_short(take_attribute(data, pos, version), take_attribute(data.take(cut), pos, version), cut),
        pos <= take_attribute(data, pos, version)->Ok_0.1 <= data.len(),
{
    reveal(take_attribute);
    lemma_name_cut(data, pos, cut);
    let after_name = take_name(data, pos)->Ok_0.1;
    let (code, after_code) = take_u32(data, after_name)->Ok_0;
    let (count, after_count) = take_count(data, after_code, version)->Ok_0;
    let (_, width) = spec_element_size(code as int)->Ok_0;
    let after_raw = after_count + count * width;
    if after_name <= cut {
        lemma_u32_cut(data, after_name, cut);
        if after_code <= cut {
            lemma_count_cut(data, after_code, version, cut);
            if after_count <= cut {
                lemma_bytes_cut(data, after_count, count * width, cut);
                if after_raw <= cut {
                    lemma_bytes_cut(data, after_raw, spec_padding_for(count * width), cut);
                }
            }
        }
    }
}

/// The entries of an attribute list that are cut short.
pub proof fn lemma_attributes_cut(
    data: Seq<u8>,
    pos: int,
    index: int,
    count: int,
    version: FormatVersion,
    cut: int,
)
    requires
        take_attributes(data, pos, index, count, version) is Ok,
        pos <= cut <= data.len(),
    ensures
        list_cut_short(
            take_attributes(data, pos, index, count, version),
            take_attributes(data.take(cut), pos, index, count, version),
            cut,
        ),
        pos <= take_attributes(data, pos, index, count, version)->Ok_0.1 <= data.len(),
    decreases count - index,
{
    if index < count {
        lemma_attribute_cut(data, pos, version, cut);
        let next = take_attribute(data, pos, version)->Ok_0.1;
        if next <= cut {
            lemma_attributes_cut(data, next, index + 1, count, version, cut);
        } else {
            lemma_attributes_cut(data, next, index + 1, count, version, data.len() as int);
        }
    }
}

/// An attribute list that is cut short.
pub proof fn lemma_attribute_list_cut(data: Seq<u8>, pos: int, version: FormatVersion, cut: int)
    requires
        take_attribute_list(data, pos, version) is Ok,
        pos <= cut <= data.len(),
    ensures
        list_cut_short(
            take_attribute_list(data, pos, version),
            take_attribute_list(data.take(cut), pos, version),
            cut,
        ),
        pos <= take_attribute_list(data, pos, version)->Ok_0.1 <= data.len(),
{
    reveal(take_attribute_list);
    lemma_list_header_cut(data, pos, TAG_ATTRIBUTE, version, cut);
    let (count, start) = take_list_header(data, pos, TAG_ATTRIBUTE, version)->Ok_0;
    if start <= cut {
        lemma_attributes_cut(data, start, 0, count as int, version, cut);
    } else {
        lemma_attributes_cut(data, start, 0, count as int, version, data.len() as int);
    }
}

/// The dimension ids of a variable that are cut short.
pub proof fn lemma_dimension_ids_cut(
    data: Seq<u8>,
    pos: int,
    place: int,
    rank: int,
    dimensions: Seq<DimensionView>,
    cut: int,
)
    requires
        take_dimension_ids(data, pos, place, rank, dimensions) is Ok,
        pos <= cut <= data.len(),
    ensures
        cut_short(
            take_dimension_ids(data, pos, place, rank, dimensions),
            take_dimension_ids(data.take(cut), pos, place, rank, dimensions),
            cut,
        ),
        pos <= take_dimension_ids(data, pos, place, rank, dimensions)->Ok_0.1 <= data.len(),
    decreases rank - place,
{
    if place < rank {
        lemma_u32_cut(data, pos, cut);
        let next = pos + 4;
        if next <= cut {
            lemma_dimension_ids_cut(data, next, place + 1, rank, dimensions, cut);
        } else {
            lemma_dimension_ids_cut(data, next, place + 1, rank, dimensions, data.len() as int);
        }
    }
}

/// A variable that is cut short.
pub proof fn lemma_variable_cut(
    data: Seq<u8>,
    pos: int,
    dimensions: Seq<DimensionView>,
    version: FormatVersion,
    cut: int,
)
    requires
        take_variable(data, pos, dimensions, version) is Ok,
        pos <= cut <= data.len(),
    ensures
        cut_short(
            take_variable(data, pos, dimensions, version),
            take_variable(data.take(cut), pos, dimensions, version),
            cut,
        ),
        pos <= take_variable(data, pos, dimensions, version)->Ok_0.1 <= data.len(),
{
    reveal(take_variable);
    let full = data.len() as int;
    lemma_name_cut(data, pos, cut);
    let after_name = take_name(data, pos)->Ok_0.1;
    let (rank, after_rank) = take_u32(data, after_name)->Ok_0;
    let after_ids = take_dimension_ids(data, after_rank, 0, rank as int, dimensions)->Ok_0.1;
    let after_attributes = take_attribute_list(data, after_ids, version)->Ok_0.1;
    let after_code = after_attributes + 4;
    let after_size = after_code + 4;
    lemma_u32_cut(data, after_name, if after_name <= cut { cut } else { full });
    lemma_dimension_ids_cut(data, after_rank, 0, rank as int, dimensions, if after_rank <= cut { cut } else { full });
    lemma_attribute_list_cut(data, after_ids, version, if after_ids <= cut { cut } else { full });
    lemma_u32_cut(data, after_attributes, if after_attributes <= cut { cut } else { full });
    lemma_u32_cut(data, after_code, if after_code <= cut { cut } else { full });
    lemma_offset_cut(data, after_size, version, if after_size <= cut { cut } else { full });
}

/// The entries of a variable list that are cut short.
pub proof fn lemma_variables_cut(
    data: Seq<u8>,
    pos: int,
    index: int,
    count: int,
    dimensions: Seq<DimensionView>,
    version: FormatVersion,
    cut: int,
)
    requires
        take_variables(data, pos, index, count, dimensions, version) is Ok,
        pos <= cut <= data.len(),
    ensures
        list_cut_short(
            take_variables(data, pos, index, count, dimensions, version),
            take_variables(data.take(cut), pos, index, count, dimensions, version),
            cut,
        ),
        pos <= take_variables(data, pos, index, count, dimensions, version)->Ok_0.1 <= data.len(),
    decreases count - index,
{
    if index < count {
        lemma_variable_cut(data, pos, dimensions, version, cut);
        let next = take_variable(data, pos, dimensions, version)->Ok_0.1;
        if next <= cut {
            lemma_variables_cut(data, next, index + 1, count, dimensions, version, cut);
        } else {
            lemma_variables_cut(data, next, index + 1, count, dimensions, version, data.len() as int);
        }
    }
}

/// A variable list that is cut short.
pub proof fn lemma_variable_list_cut(
    data: Seq<u8>,
    pos: int,
    dimensions: Seq<DimensionView>,
    version: FormatVersion,
    cut: int,
)
    requires
        take_variable_list(data, pos, dimensions, version) is Ok,
        pos <= cut <= data.len(),
    ensures
        list_cut_short(
            take_variable_list(data, pos, dimensions, version),
            take_variable_list(data.take(cut), pos, dimensions, version),
            cut,
        ),
        pos <= take_variable_list(data, pos, dimensions, version)->Ok_0.1 <= data.len(),
{
    reveal(take_variable_list);
    lemma_list_header_cut(data, pos, TAG_VARIABLE, version, cut);
    let (count, start) = take_list_header(data, pos, TAG_VARIABLE, version)->Ok_0;
    if start <= cut {
        lemma_variables_cut(data, start, 0, count as int, dimensions, version, cut);
    } else {
        lemma_variables_cut(data, start, 0, count as int, dimensions, version, data.len() as int);
    }
}

/// A header that decodes, cut anywhere before its end, fails to decode for
/// want of bytes, and for no other reason; cut at its end or later, it
/// decodes as before.
pub proof fn lemma_header_cut(data: Seq<u8>, pos: int, cut: int)
    requires
        take_header(data, pos) is Ok,
        pos <= cut <= data.len(),
    ensures
        take_header(data, pos)->Ok_0.1 <= cut ==> take_header(data.take(cut), pos) == take_header(data, pos),
        cut < take_header(data, pos)->Ok_0.1 ==> take_header(data.take(cut), pos) is Err && take_header(
            data.take(cut),
            pos,
        )->Err_0.kind == Error::TruncatedInput,
        pos <= take_header(data, pos)->Ok_0.1 <= data.len(),
{
    let full = data.len() as int;
    let (header, end) = take_header(data, pos)->Ok_0;
    let version = header.version;
    lemma_bytes_cut(data, pos, 3, cut);
    let after_magic = pos + 3;
    let after_version = pos + 4;
    let after_numrecs = take_numrecs(data, after_version, version)->Ok_0.1;
    let after_dimensions = take_dimension_list(data, after_numrecs, version)->Ok_0.1;
    let after_attributes = take_attribute_list(data, after_dimensions, version)->Ok_0.1;
    lemma_u8_cut(data, after_magic, if after_magic <= cut { cut } else { full });
    lemma_numrecs_cut(data, after_version, version, if after_version <= cut { cut } else { full });
    lemma_dimension_list_cut(data, after_numrecs, version, if after_numrecs <= cut { cut } else { full });
    lemma_attribute_list_cut(data, after_dimensions, version, if after_dimensions <= cut { cut } else { full });
    lemma_variable_list_cut(
        data,
        after_attributes,
        header.dimensions,
        version,
        if after_attributes <= cut { cut } else { full },
    );
}

} // verus!
