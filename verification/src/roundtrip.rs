//! Decoding and encoding undo each other. Decoding a header and encoding the
//! result gives the bytes back, for headers in canonical form: with zeros as
//! padding, and with the absent tag on exactly the empty lists. Encoding a
//! dataset and decoding the bytes gives the dataset back.

use vstd::prelude::*;
use vstd::utf8::{decode_utf8_encode_utf8, encode_utf8, encode_utf8_decode_utf8, encode_utf8_valid_utf8};
use crate::attributes::AttributeView;
use crate::constants::{spec_element_size, TAG_ATTRIBUTE, TAG_DIMENSION, TAG_VARIABLE};
use crate::dataset::{dimensions_wf, has_unlimited, variable_wf, DatasetView};
use crate::dimension::DimensionView;
use crate::dtype::Dtype;
use crate::encode::{
    encodable_attribute, encodable_attribute_list, encodable_attributes, encodable_count,
    encodable_dimension, encodable_dimensions, encodable_header, encodable_name,
    encodable_numrecs, encodable_variable, encodable_variables, put_attribute,
    put_attribute_list, put_attributes, put_count, put_dimension, put_dimension_ids,
    put_dimension_list, put_dimensions, put_header, put_list_header, put_name, put_numrecs,
    put_offset, put_u32, put_u64, put_variable, put_variable_list, put_variables, zeros,
};
use crate::error::{DecodeError, Error, ListError};
use crate::grammar::{check_dimension_ref, magic, spec_u32_be, streaming_mark, take_u8};
use crate::variable::VariableView;
use crate::grammar::{
    take_attribute, take_attribute_list, take_attributes, take_count, take_dimension,
    take_dimension_ids, take_dimension_list, take_dimensions, take_header, take_list_header,
    take_name, take_numrecs, take_offset, take_u32, take_u64, take_variable, take_variable_list,
    take_variables,
};
use crate::helpers::spec_padding_for;
use crate::version::FormatVersion;

verus! {

/// Whether the padding after a field of `n` bytes that ends at `pos` holds
/// zeros only.
pub open spec fn zero_padded(data: Seq<u8>, pos: int, n: int) -> bool {
    forall|i: int| pos <= i < pos + spec_padding_for(n) && i < data.len() ==> #[trigger] data[i] == 0
}

/// Whether the name at `pos` is padded with zeros.
pub open spec fn canonical_name(data: Seq<u8>, pos: int) -> bool {
    match take_u32(data, pos) {
        Ok((len, after_len)) => zero_padded(data, after_len + len, len as int),
        Err(_) => true,
    }
}

/// Whether the list head at `pos` has the absent tag exactly if the list is
/// empty.
pub open spec fn canonical_list_header(data: Seq<u8>, pos: int, version: FormatVersion) -> bool {
    match take_u32(data, pos) {
        Ok((found, after_tag)) => match take_count(data, after_tag, version) {
            Ok((count, _)) => (found == 0) == (count == 0),
            Err(_) => true,
        },
        Err(_) => true,
    }
}

/// Two adjoining pieces of `data` make the piece that spans both.
pub proof fn lemma_join(data: Seq<u8>, from: int, mid: int, to: int)
    requires
        0 <= from <= mid <= to <= data.len(),
    ensures
        data.subrange(from, mid) + data.subrange(mid, to) == data.subrange(from, to),
{
    assert(data.subrange(from, mid) + data.subrange(mid, to) =~= data.subrange(from, to));
}

/// The bytes of a 32-bit integer that was read are the bytes it was read from.
pub proof fn lemma_u32_back(data: Seq<u8>, pos: int)
    requires
        take_u32(data, pos) is Ok,
    ensures
        put_u32(take_u32(data, pos)->Ok_0.0) == data.subrange(pos, pos + 4),
        take_u32(data, pos)->Ok_0.1 == pos + 4,
        0 <= pos,
        pos + 4 <= data.len(),
{
    let field = data.subrange(pos, pos + 4);
    let a = field[0] as int;
    let b = field[1] as int;
    let c = field[2] as int;
    let d = field[3] as int;
    let v = a * 0x100_0000 + b * 0x1_0000 + c * 0x100 + d;
    assert(v / 0x100_0000 == a);
    assert(v / 0x1_0000 % 0x100 == b);
    assert(v / 0x100 % 0x100 == c);
    assert(v % 0x100 == d);
    assert(put_u32(v as u32) =~= field);
}

/// The bytes of a 64-bit integer that was read are the bytes it was read from.
pub proof fn lemma_u64_back(data: Seq<u8>, pos: int)
    requires
        take_u64(data, pos) is Ok,
    ensures
        put_u64(take_u64(data, pos)->Ok_0.0) == data.subrange(pos, pos + 8),
        take_u64(data, pos)->Ok_0.1 == pos + 8,
        0 <= pos,
        pos + 8 <= data.len(),
{
    let field = data.subrange(pos, pos + 8);
    assert(take_u32(data, pos) is Ok);
    assert(take_u32(data, pos + 4) is Ok);
    lemma_u32_back(data, pos);
    lemma_u32_back(data, pos + 4);
    assert(field.skip(4) =~= data.subrange(pos + 4, pos + 8));
    let hi = spec_u32_be(field);
    let lo = spec_u32_be(field.skip(4));
    assert(hi == spec_u32_be(data.subrange(pos, pos + 4)));
    let v = hi * 0x1_0000_0000 + lo;
    assert(0 <= hi < 0x1_0000_0000);
    assert(0 <= lo < 0x1_0000_0000);
    assert(v / 0x1_0000_0000 == hi);
    assert(v % 0x1_0000_0000 == lo);
    lemma_join(data, pos, pos + 4, pos + 8);
}

/// The bytes of a count that was read are the bytes it was read from.
pub proof fn lemma_count_back(data: Seq<u8>, pos: int, version: FormatVersion)
    requires
        take_count(data, pos, version) is Ok,
    ensures
        put_count(take_count(data, pos, version)->Ok_0.0, version) == data.subrange(
            pos,
            take_count(data, pos, version)->Ok_0.1,
        ),
        0 <= pos <= take_count(data, pos, version)->Ok_0.1 <= data.len(),
{
    if version.spec_wide_counts() {
        lemma_u64_back(data, pos);
    } else {
        lemma_u32_back(data, pos);
    }
}

/// The bytes of a record count that was read are the bytes it was read from.
pub proof fn lemma_numrecs_back(data: Seq<u8>, pos: int, version: FormatVersion)
    requires
        take_numrecs(data, pos, version) is Ok,
    ensures
        put_numrecs(take_numrecs(data, pos, version)->Ok_0.0, version) == data.subrange(
            pos,
            take_numrecs(data, pos, version)->Ok_0.1,
        ),
        0 <= pos <= take_numrecs(data, pos, version)->Ok_0.1 <= data.len(),
{
    reveal(take_numrecs);
    lemma_count_back(data, pos, version);
}

/// The bytes of a canonical list head that was read are the bytes it was read
/// from.
pub proof fn lemma_list_header_back(data: Seq<u8>, pos: int, tag: u32, version: FormatVersion)
    requires
        take_list_header(data, pos, tag, version) is Ok,
        canonical_list_header(data, pos, version),
        tag != 0,
    ensures
        put_list_header(tag, take_list_header(data, pos, tag, version)->Ok_0.0 as int, version)
            == data.subrange(pos, take_list_header(data, pos, tag, version)->Ok_0.1),
        0 <= pos <= take_list_header(data, pos, tag, version)->Ok_0.1 <= data.len(),
{
    reveal(take_list_header);
    lemma_u32_back(data, pos);
    lemma_count_back(data, pos + 4, version);
    let end = take_list_header(data, pos, tag, version)->Ok_0.1;
    lemma_join(data, pos, pos + 4, end);
}

/// The bytes of a canonical name that was read are the bytes it was read from.
pub proof fn lemma_name_back(data: Seq<u8>, pos: int)
    requires
        take_name(data, pos) is Ok,
        canonical_name(data, pos),
    ensures
        put_name(take_name(data, pos)->Ok_0.0) == data.subrange(pos, take_name(data, pos)->Ok_0.1),
        0 <= pos <= take_name(data, pos)->Ok_0.1 <= data.len(),
{
    reveal(take_name);
    lemma_u32_back(data, pos);
    let (len, after_len) = take_u32(data, pos)->Ok_0;
    let raw = data.subrange(after_len, after_len + len);
    let after_text = after_len + len;
    let end = take_name(data, pos)->Ok_0.1;
    decode_utf8_encode_utf8(raw);
    assert(zeros(spec_padding_for(len as int)) =~= data.subrange(after_text, end));
    lemma_join(data, pos, after_len, after_text);
    lemma_join(data, pos, after_text, end);
}

/// Whether the dimensions from entry `index` up to entry `count` have
/// canonical names.
pub open spec fn canonical_dimensions(data: Seq<u8>, pos: int, index: int, count: int) -> bool
    decreases count - index,
{
    if index >= count {
        true
    } else {
        canonical_name(data, pos) && match take_dimension(data, pos) {
            Ok((_, next)) => canonical_dimensions(data, next, index + 1, count),
            Err(_) => true,
        }
    }
}

/// Whether the dimension list at `pos` is in canonical form.
pub open spec fn canonical_dimension_list(data: Seq<u8>, pos: int, version: FormatVersion) -> bool {
    canonical_list_header(data, pos, version) && match take_list_header(data, pos, TAG_DIMENSION, version) {
        Ok((count, start)) => canonical_dimensions(data, start, 0, count as int),
        Err(_) => true,
    }
}

/// Whether the attribute at `pos` has a canonical name and zeros after its
/// values.
pub open spec fn canonical_attribute(data: Seq<u8>, pos: int, version: FormatVersion) -> bool {
    canonical_name(data, pos) && match take_name(data, pos) {
        Ok((_, after_name)) => match take_u32(data, after_name) {
            Ok((code, after_code)) => match take_count(data, after_code, version) {
                Ok((count, after_count)) => match spec_element_size(code as int) {
                    Ok((_, width)) => zero_padded(data, after_count + count * width, count * width),
                    Err(_) => true,
                },
                Err(_) => true,
            },
            Err(_) => true,
        },
        Err(_) => true,
    }
}

/// Whether the attributes from entry `index` up to entry `count` are in
/// canonical form.
pub open spec fn canonical_attributes(data: Seq<u8>, pos: int, index: int, count: int, version: FormatVersion) -> bool
    decreases count - index,
{
    if index >= count {
        true
    } else {
        canonical_attribute(data, pos, version) && match take_attribute(data, pos, version) {
            Ok((_, next)) => canonical_attributes(data, next, index + 1, count, version),
            Err(_) => true,
        }
    }
}

/// Whether the attribute list at `pos` is in canonical form.
pub open spec fn canonical_attribute_list(data: Seq<u8>, pos: int, version: FormatVersion) -> bool {
    canonical_list_header(data, pos, version) && match take_list_header(data, pos, TAG_ATTRIBUTE, version) {
        Ok((count, start)) => canonical_attributes(data, start, 0, count as int, version),
        Err(_) => true,
    }
}

/// Whether the variable at `pos` has a canonical name and a canonical
/// attribute list.
pub open spec fn canonical_variable(
    data: Seq<u8>,
    pos: int,
    dimensions: Seq<DimensionView>,
    version: FormatVersion,
) -> bool {
    canonical_name(data, pos) && match take_name(data, pos) {
        Ok((_, after_name)) => match take_u32(data, after_name) {
            Ok((rank, after_rank)) => match take_dimension_ids(data, after_rank, 0, rank as int, dimensions) {
                Ok((_, after_ids)) => canonical_attribute_list(data, after_ids, version),
                Err(_) => true,
            },
            Err(_) => true,
        },
        Err(_) => true,
    }
}

/// Whether the variables from entry `index` up to entry `count` are in
/// canonical form.
pub open spec fn canonical_variables(
    data: Seq<u8>,
    pos: int,
    index: int,
    count: int,
    dimensions: Seq<DimensionView>,
    version: FormatVersion,
) -> bool
    decreases count - index,
{
    if index >= count {
        true
    } else {
        canonical_variable(data, pos, dimensions, version) && match take_variable(
            data,
            pos,
            dimensions,
            version,
        ) {
            Ok((_, next)) => canonical_variables(data, next, index + 1, count, dimensions, version),
            Err(_) => true,
        }
    }
}

/// Whether the variable list at `pos` is in canonical form.
pub open spec fn canonical_variable_list(
    data: Seq<u8>,
    pos: int,
    dimensions: Seq<DimensionView>,
    version: FormatVersion,
) -> bool {
    canonical_list_header(data, pos, version) && match take_list_header(data, pos, TAG_VARIABLE, version) {
        Ok((count, start)) => canonical_variables(data, start, 0, count as int, dimensions, version),
        Err(_) => true,
    }
}

/// Whether the header at `pos` is in canonical form: every name and every
/// attribute value is padded with zeros, and a list has the absent tag exactly
/// if it is empty.
pub open spec fn canonical_header(data: Seq<u8>, pos: int) -> bool {
    match take_header(data, pos) {
        Ok((header, _)) => {
            let version = header.version;
            let after_numrecs = take_numrecs(data, pos + 4, version)->Ok_0.1;
            let after_dimensions = take_dimension_list(data, after_numrecs, version)->Ok_0.1;
            let after_attributes = take_attribute_list(data, after_dimensions, version)->Ok_0.1;
            &&& canonical_dimension_list(data, after_numrecs, version)
            &&& canonical_attribute_list(data, after_dimensions, version)
            &&& canonical_variable_list(data, after_attributes, header.dimensions, version)
        },
        Err(_) => true,
    }
}

/// The bytes of a canonical dimension that was read are the bytes it was read
/// from.
pub proof fn lemma_dimension_back(data: Seq<u8>, pos: int)
    requires
        take_dimension(data, pos) is Ok,
        canonical_name(data, pos),
    ensures
        put_dimension(take_dimension(data, pos)->Ok_0.0) == data.subrange(
            pos,
            take_dimension(data, pos)->Ok_0.1,
        ),
        0 <= pos <= take_dimension(data, pos)->Ok_0.1 <= data.len(),
{
    reveal(take_dimension);
    lemma_name_back(data, pos);
    let after_name = take_name(data, pos)->Ok_0.1;
    lemma_u32_back(data, after_name);
    lemma_join(data, pos, after_name, after_name + 4);
}

/// The bytes of canonical dimensions that were read are the bytes they were
/// read from.
pub proof fn lemma_dimensions_back(data: Seq<u8>, pos: int, index: int, count: int, seen_unlimited: bool)
    requires
        take_dimensions(data, pos, index, count, seen_unlimited) is Ok,
        canonical_dimensions(data, pos, index, count),
        0 <= pos <= data.len(),
    ensures
        put_dimensions(take_dimensions(data, pos, index, count, seen_unlimited)->Ok_0.0) == data.subrange(
            pos,
            take_dimensions(data, pos, index, count, seen_unlimited)->Ok_0.1,
        ),
        pos <= take_dimensions(data, pos, index, count, seen_unlimited)->Ok_0.1 <= data.len(),
        take_dimensions(data, pos, index, count, seen_unlimited)->Ok_0.0.len() == if index < count {
            count - index
        } else {
            0
        },
    decreases count - index,
{
    if index < count {
        let (first, next) = take_dimension(data, pos)->Ok_0;
        lemma_dimension_back(data, pos);
        let seen = seen_unlimited || first.is_unlimited;
        lemma_dimensions_back(data, next, index + 1, count, seen);
        let (rest, end) = take_dimensions(data, next, index + 1, count, seen)->Ok_0;
        let all = seq![first] + rest;
        assert(all.first() == first);
        assert(all.drop_first() =~= rest);
        lemma_join(data, pos, next, end);
    } else {
        assert(data.subrange(pos, pos) =~= Seq::<u8>::empty());
    }
}

/// The bytes of a canonical dimension list that was read are the bytes it was
/// read from.
pub proof fn lemma_dimension_list_back(data: Seq<u8>, pos: int, version: FormatVersion)
    requires
        take_dimension_list(data, pos, version) is Ok,
        canonical_dimension_list(data, pos, version),
    ensures
        put_dimension_list(take_dimension_list(data, pos, version)->Ok_0.0, version) == data.subrange(
            pos,
            take_dimension_list(data, pos, version)->Ok_0.1,
        ),
        0 <= pos <= take_dimension_list(data, pos, version)->Ok_0.1 <= data.len(),
{
    reveal(take_dimension_list);
    lemma_list_header_back(data, pos, TAG_DIMENSION, version);
    let (count, start) = take_list_header(data, pos, TAG_DIMENSION, version)->Ok_0;
    lemma_dimensions_back(data, start, 0, count as int, false);
    let end = take_dimension_list(data, pos, version)->Ok_0.1;
    lemma_join(data, pos, start, end);
}

/// The bytes of a canonical attribute that was read are the bytes it was read
/// from.
pub proof fn lemma_attribute_back(data: Seq<u8>, pos: int, version: FormatVersion)
    requires
        take_attribute(data, pos, version) is Ok,
        canonical_attribute(data, pos, version),
    ensures
        put_attribute(take_attribute(data, pos, version)->Ok_0.0, version) == data.subrange(
            pos,
            take_attribute(data, pos, version)->Ok_0.1,
        ),
        0 <= pos <= take_attribute(data, pos, version)->Ok_0.1 <= data.len(),
{
    reveal(take_attribute);
    lemma_name_back(data, pos);
    let after_name = take_name(data, pos)->Ok_0.1;
    lemma_u32_back(data, after_name);
    let (code, after_code) = take_u32(data, after_name)->Ok_0;
    lemma_count_back(data, after_code, version);
    let (count, after_count) = take_count(data, after_code, version)->Ok_0;
    let (dtype, width) = spec_element_size(code as int)->Ok_0;
    let after_raw = after_count + count * width;
    let (attribute, end) = take_attribute(data, pos, version)->Ok_0;
    assert(attribute.value.raw == data.subrange(after_count, after_raw));
    assert(dtype.spec_code() == code);
    assert(zeros(spec_padding_for(count * width)) =~= data.subrange(after_raw, end));
    lemma_join(data, pos, after_name, after_code);
    lemma_join(data, pos, after_code, after_count);
    lemma_join(data, pos, after_count, after_raw);
    lemma_join(data, pos, after_raw, end);
}

/// The bytes of canonical attributes that were read are the bytes they were
/// read from.
pub proof fn lemma_attributes_back(data: Seq<u8>, pos: int, index: int, count: int, version: FormatVersion)
    requires
        take_attributes(data, pos, index, count, version) is Ok,
        canonical_attributes(data, pos, index, count, version),
        0 <= pos <= data.len(),
    ensures
        put_attributes(take_attributes(data, pos, index, count, version)->Ok_0.0, version) == data.subrange(
            pos,
            take_attributes(data, pos, index, count, version)->Ok_0.1,
        ),
        pos <= take_attributes(data, pos, index, count, version)->Ok_0.1 <= data.len(),
        take_attributes(data, pos, index, count, version)->Ok_0.0.len() == if index < count {
            count - index
        } else {
            0
        },
    decreases count - index,
{
    if index < count {
        let (first, next) = take_attribute(data, pos, version)->Ok_0;
        lemma_attribute_back(data, pos, version);
        lemma_attributes_back(data, next, index + 1, count, version);
        let (rest, end) = take_attributes(data, next, index + 1, count, version)->Ok_0;
        let all = seq![first] + rest;
        assert(all.first() == first);
        assert(all.drop_first() =~= rest);
        lemma_join(data, pos, next, end);
    } else {
        assert(data.subrange(pos, pos) =~= Seq::<u8>::empty());
    }
}

/// The bytes of a canonical attribute list that was read are the bytes it was
/// read from.
pub proof fn lemma_attribute_list_back(data: Seq<u8>, pos: int, version: FormatVersion)
    requires
        take_attribute_list(data, pos, version) is Ok,
        canonical_attribute_list(data, pos, version),
    ensures
        put_attribute_list(take_attribute_list(data, pos, version)->Ok_0.0, version) == data.subrange(
            pos,
            take_attribute_list(data, pos, version)->Ok_0.1,
        ),
        0 <= pos <= take_attribute_list(data, pos, version)->Ok_0.1 <= data.len(),
{
    reveal(take_attribute_list);
    lemma_list_header_back(data, pos, TAG_ATTRIBUTE, version);
    let (count, start) = take_list_header(data, pos, TAG_ATTRIBUTE, version)->Ok_0;
    lemma_attributes_back(data, start, 0, count as int, version);
    let end = take_attribute_list(data, pos, version)->Ok_0.1;
    lemma_join(data, pos, start, end);
}

/// The bytes of dimension ids that were read are the bytes they were read
/// from.
pub proof fn lemma_dimension_ids_back(
    data: Seq<u8>,
    pos: int,
    place: int,
    rank: int,
    dimensions: Seq<DimensionView>,
)
    requires
        take_dimension_ids(data, pos, place, rank, dimensions) is Ok,
        0 <= pos <= data.len(),
    ensures
        put_dimension_ids(take_dimension_ids(data, pos, place, rank, dimensions)->Ok_0.0) == data.subrange(
            pos,
            take_dimension_ids(data, pos, place, rank, dimensions)->Ok_0.1,
        ),
        pos <= take_dimension_ids(data, pos, place, rank, dimensions)->Ok_0.1 <= data.len(),
        take_dimension_ids(data, pos, place, rank, dimensions)->Ok_0.0.len() == if place < rank {
            rank - place
        } else {
            0
        },
    decreases rank - place,
{
    if place < rank {
        let (id, next) = take_u32(data, pos)->Ok_0;
        lemma_u32_back(data, pos);
        lemma_dimension_ids_back(data, next, place + 1, rank, dimensions);
        let (rest, end) = take_dimension_ids(data, next, place + 1, rank, dimensions)->Ok_0;
        let all = seq![id] + rest;
        assert(all.first() == id);
        assert(all.drop_first() =~= rest);
        lemma_join(data, pos, next, end);
    } else {
        assert(data.subrange(pos, pos) =~= Seq::<u8>::empty());
    }
}

/// The bytes of an offset that was read are the bytes it was read from.
pub proof fn lemma_offset_back(data: Seq<u8>, pos: int, version: FormatVersion)
    requires
        take_offset(data, pos, version) is Ok,
    ensures
        put_offset(take_offset(data, pos, version)->Ok_0.0, version) == data.subrange(
            pos,
            take_offset(data, pos, version)->Ok_0.1,
        ),
        0 <= pos <= take_offset(data, pos, version)->Ok_0.1 <= data.len(),
{
    if version.spec_offset_width() == 32 {
        lemma_u32_back(data, pos);
    } else {
        lemma_u64_back(data, pos);
    }
}

/// The bytes of a canonical variable that was read are the bytes it was read
/// from.
pub proof fn lemma_variable_back(data: Seq<u8>, pos: int, dimensions: Seq<DimensionView>, version: FormatVersion)
    requires
        take_variable(data, pos, dimensions, version) is Ok,
        canonical_variable(data, pos, dimensions, version),
    ensures
        put_variable(take_variable(data, pos, dimensions, version)->Ok_0.0, version) == data.subrange(
            pos,
            take_variable(data, pos, dimensions, version)->Ok_0.1,
        ),
        0 <= pos <= take_variable(data, pos, dimensions, version)->Ok_0.1 <= data.len(),
{
    reveal(take_variable);
    lemma_name_back(data, pos);
    let after_name = take_name(data, pos)->Ok_0.1;
    lemma_u32_back(data, after_name);
    let (rank, after_rank) = take_u32(data, after_name)->Ok_0;
    lemma_dimension_ids_back(data, after_rank, 0, rank as int, dimensions);
    let after_ids = take_dimension_ids(data, after_rank, 0, rank as int, dimensions)->Ok_0.1;
    lemma_attribute_list_back(data, after_ids, version);
    let after_attributes = take_attribute_list(data, after_ids, version)->Ok_0.1;
    lemma_u32_back(data, after_attributes);
    let (code, after_code) = take_u32(data, after_attributes)->Ok_0;
    let (dtype, _) = spec_element_size(code as int)->Ok_0;
    assert(dtype.spec_code() == code);
    lemma_u32_back(data, after_code);
    let (size, after_size) = take_u32(data, after_code)->Ok_0;
    assert((size as i64) as u32 == size);
    lemma_offset_back(data, after_size, version);
    let end = take_variable(data, pos, dimensions, version)->Ok_0.1;
    lemma_join(data, pos, after_name, after_rank);
    lemma_join(data, pos, after_rank, after_ids);
    lemma_join(data, pos, after_ids, after_attributes);
    lemma_join(data, pos, after_attributes, after_code);
    lemma_join(data, pos, after_code, after_size);
    lemma_join(data, pos, after_size, end);
}

/// The bytes of canonical variables that were read are the bytes they were
/// read from.
pub proof fn lemma_variables_back(
    data: Seq<u8>,
    pos: int,
    index: int,
    count: int,
    dimensions: Seq<DimensionView>,
    version: FormatVersion,
)
    requires
        take_variables(data, pos, index, count, dimensions, version) is Ok,
        canonical_variables(data, pos, index, count, dimensions, version),
        0 <= pos <= data.len(),
    ensures
        put_variables(take_variables(data, pos, index, count, dimensions, version)->Ok_0.0, version)
            == data.subrange(pos, take_variables(data, pos, index, count, dimensions, version)->Ok_0.1),
        pos <= take_variables(data, pos, index, count, dimensions, version)->Ok_0.1 <= data.len(),
        take_variables(data, pos, index, count, dimensions, version)->Ok_0.0.len() == if index < count {
            count - index
        } else {
            0
        },
    decreases count - index,
{
    if index < count {
        let (first, next) = take_variable(data, pos, dimensions, version)->Ok_0;
        lemma_variable_back(data, pos, dimensions, version);
        lemma_variables_back(data, next, index + 1, count, dimensions, version);
        let (rest, end) = take_variables(data, next, index + 1, count, dimensions, version)->Ok_0;
        let all = seq![first] + rest;
        assert(all.first() == first);
        assert(all.drop_first() =~= rest);
        lemma_join(data, pos, next, end);
    } else {
        assert(data.subrange(pos, pos) =~= Seq::<u8>::empty());
    }
}

/// The bytes of a canonical variable list that was read are the bytes it was
/// read from.
pub proof fn lemma_variable_list_back(
    data: Seq<u8>,
    pos: int,
    dimensions: Seq<DimensionView>,
    version: FormatVersion,
)
    requires
        take_variable_list(data, pos, dimensions, version) is Ok,
        canonical_variable_list(data, pos, dimensions, version),
    ensures
        put_variable_list(take_variable_list(data, pos, dimensions, version)->Ok_0.0, version)
            == data.subrange(pos, take_variable_list(data, pos, dimensions, version)->Ok_0.1),
        0 <= pos <= take_variable_list(data, pos, dimensions, version)->Ok_0.1 <= data.len(),
{
    reveal(take_variable_list);
    lemma_list_header_back(data, pos, TAG_VARIABLE, version);
    let (count, start) = take_list_header(data, pos, TAG_VARIABLE, version)->Ok_0;
    lemma_variables_back(data, start, 0, count as int, dimensions, version);
    let end = take_variable_list(data, pos, dimensions, version)->Ok_0.1;
    lemma_join(data, pos, start, end);
}

/// Decoding a canonical header and encoding what was decoded gives back the
/// bytes of the header, byte for byte, in the same format version.
pub proof fn lemma_header_back(data: Seq<u8>, pos: int)
    requires
        take_header(data, pos) is Ok,
        canonical_header(data, pos),
    ensures
        put_header(take_header(data, pos)->Ok_0.0) == data.subrange(pos, take_header(data, pos)->Ok_0.1),
        0 <= pos <= take_header(data, pos)->Ok_0.1 <= data.len(),
{
    let (header, end) = take_header(data, pos)->Ok_0;
    let version = header.version;
    let after_version = pos + 4;
    assert(data.subrange(pos, pos + 3) + seq![version.spec_byte()] =~= data.subrange(pos, after_version));
    lemma_numrecs_back(data, after_version, version);
    let after_numrecs = take_numrecs(data, after_version, version)->Ok_0.1;
    lemma_dimension_list_back(data, after_numrecs, version);
    let after_dimensions = take_dimension_list(data, after_numrecs, version)->Ok_0.1;
    lemma_attribute_list_back(data, after_dimensions, version);
    let after_attributes = take_attribute_list(data, after_dimensions, version)->Ok_0.1;
    lemma_variable_list_back(data, after_attributes, header.dimensions, version);
    lemma_join(data, pos, after_version, after_numrecs);
    lemma_join(data, pos, after_numrecs, after_dimensions);
    lemma_join(data, pos, after_dimensions, after_attributes);
    lemma_join(data, pos, after_attributes, end);
}

/// Whether `piece` stands in `data` from `pos` on.
pub open spec fn starts_with(data: Seq<u8>, pos: int, piece: Seq<u8>) -> bool {
    0 <= pos && pos + piece.len() <= data.len() && data.subrange(pos, pos + piece.len()) == piece
}

/// Where two joined pieces stand, the first stands, and the second stands
/// right after it.
pub proof fn lemma_starts_split(data: Seq<u8>, pos: int, first: Seq<u8>, second: Seq<u8>)
    requires
        starts_with(data, pos, first + second),
    ensures
        starts_with(data, pos, first),
        starts_with(data, pos + first.len(), second),
{
    let whole = first + second;
    assert(forall|i: int| 0 <= i < whole.len() ==> data[pos + i] == #[trigger] data.subrange(
        pos,
        pos + whole.len(),
    )[i]);
    assert forall|i: int| 0 <= i < first.len() implies #[trigger] data.subrange(pos, pos + first.len())[i]
        == first[i] by {
        assert(whole[i] == first[i]);
        assert(data.subrange(pos, pos + whole.len())[i] == whole[i]);
    }
    assert(data.subrange(pos, pos + first.len()) =~= first);
    assert forall|i: int| 0 <= i < second.len() implies #[trigger] data.subrange(
        pos + first.len(),
        pos + first.len() + second.len(),
    )[i] == second[i] by {
        assert(whole[first.len() + i] == second[i]);
        assert(data.subrange(pos, pos + whole.len())[first.len() + i] == whole[first.len() + i]);
    }
    assert(data.subrange(pos + first.len(), pos + first.len() + second.len()) =~= second);
}

/// Reading where the bytes of a 32-bit integer stand gives the integer.
pub proof fn lemma_u32_there(v: u32, data: Seq<u8>, pos: int)
    requires
        starts_with(data, pos, put_u32(v)),
    ensures
        take_u32(data, pos) == Ok::<(u32, int), Error>((v, pos + 4)),
{
    let field = data.subrange(pos, pos + 4);
    assert(field == put_u32(v));
    let n = v as int;
    assert(spec_u32_be(field) == (n / 0x100_0000) * 0x100_0000 + (n / 0x1_0000 % 0x100) * 0x1_0000 + (n / 0x100
        % 0x100) * 0x100 + n % 0x100);
    assert(spec_u32_be(field) == n);
}

/// Reading where the bytes of a 64-bit integer stand gives the integer.
pub proof fn lemma_u64_there(v: u64, data: Seq<u8>, pos: int)
    requires
        starts_with(data, pos, put_u64(v)),
    ensures
        take_u64(data, pos) == Ok::<(u64, int), Error>((v, pos + 8)),
{
    let hi = (v / 0x1_0000_0000) as u32;
    let lo = (v % 0x1_0000_0000) as u32;
    lemma_starts_split(data, pos, put_u32(hi), put_u32(lo));
    lemma_u32_there(hi, data, pos);
    lemma_u32_there(lo, data, pos + 4);
    let field = data.subrange(pos, pos + 8);
    assert(field.subrange(0, 4) =~= data.subrange(pos, pos + 4));
    assert(field.skip(4) =~= data.subrange(pos + 4, pos + 8));
    assert(spec_u32_be(field) == spec_u32_be(data.subrange(pos, pos + 4)));
}

/// Reading where a count stands gives the count.
pub proof fn lemma_count_there(n: u64, version: FormatVersion, data: Seq<u8>, pos: int)
    requires
        encodable_count(n as int, version),
        starts_with(data, pos, put_count(n, version)),
    ensures
        take_count(data, pos, version) == Ok::<(u64, int), Error>((n, pos + put_count(n, version).len())),
{
    if version.spec_wide_counts() {
        lemma_u64_there(n, data, pos);
    } else {
        lemma_u32_there(n as u32, data, pos);
    }
}

/// Reading where a record count stands gives the record count.
pub proof fn lemma_numrecs_there(numrecs: Option<u64>, version: FormatVersion, data: Seq<u8>, pos: int)
    requires
        encodable_numrecs(numrecs, version),
        starts_with(data, pos, put_numrecs(numrecs, version)),
    ensures
        take_numrecs(data, pos, version) == Ok::<(Option<u64>, int), Error>(
            (numrecs, pos + put_numrecs(numrecs, version).len()),
        ),
{
    reveal(take_numrecs);
    match numrecs {
        Some(n) => lemma_count_there(n, version, data, pos),
        None => lemma_count_there(streaming_mark(version), version, data, pos),
    }
}

/// Reading where the head of a list stands gives the number of entries.
pub proof fn lemma_list_header_there(tag: u32, count: int, version: FormatVersion, data: Seq<u8>, pos: int)
    requires
        0 <= count,
        encodable_count(count, version),
        starts_with(data, pos, put_list_header(tag, count, version)),
    ensures
        take_list_header(data, pos, tag, version) == Ok::<(u64, int), Error>(
            (count as u64, pos + put_list_header(tag, count, version).len()),
        ),
{
    reveal(take_list_header);
    if count == 0 {
        lemma_starts_split(data, pos, put_u32(0), put_count(0, version));
        lemma_u32_there(0, data, pos);
        lemma_count_there(0, version, data, pos + 4);
    } else {
        lemma_starts_split(data, pos, put_u32(tag), put_count(count as u64, version));
        lemma_u32_there(tag, data, pos);
        lemma_count_there(count as u64, version, data, pos + 4);
    }
}

/// Reading where a name stands gives the name.
pub proof fn lemma_name_there(name: Seq<char>, data: Seq<u8>, pos: int)
    requires
        encodable_name(name),
        starts_with(data, pos, put_name(name)),
    ensures
        take_name(data, pos) == Ok::<(Seq<char>, int), Error>((name, pos + put_name(name).len())),
{
    reveal(take_name);
    let raw = encode_utf8(name);
    let len = raw.len() as u32;
    let pad = zeros(spec_padding_for(raw.len() as int));
    lemma_starts_split(data, pos, put_u32(len) + raw, pad);
    lemma_starts_split(data, pos, put_u32(len), raw);
    lemma_u32_there(len, data, pos);
    encode_utf8_valid_utf8(name);
    encode_utf8_decode_utf8(name);
}

/// Reading where a dimension stands gives the dimension.
pub proof fn lemma_dimension_there(dimension: DimensionView, data: Seq<u8>, pos: int)
    requires
        encodable_dimension(dimension),
        dimension.wf(),
        starts_with(data, pos, put_dimension(dimension)),
    ensures
        take_dimension(data, pos) == Ok::<(DimensionView, int), Error>(
            (dimension, pos + put_dimension(dimension).len()),
        ),
{
    reveal(take_dimension);
    lemma_starts_split(data, pos, put_name(dimension.name), put_u32(dimension.length as u32));
    lemma_name_there(dimension.name, data, pos);
    lemma_u32_there(dimension.length as u32, data, pos + put_name(dimension.name).len());
}

/// Reading where the entries of a dimension list stand gives the dimensions.
pub proof fn lemma_dimensions_there(
    dimensions: Seq<DimensionView>,
    data: Seq<u8>,
    pos: int,
    index: int,
    count: int,
    seen_unlimited: bool,
)
    requires
        count - index == dimensions.len(),
        encodable_dimensions(dimensions),
        dimensions_wf(dimensions),
        seen_unlimited ==> !has_unlimited(dimensions),
        starts_with(data, pos, put_dimensions(dimensions)),
    ensures
        take_dimensions(data, pos, index, count, seen_unlimited) == Ok::<(Seq<DimensionView>, int), ListError>(
            (dimensions, pos + put_dimensions(dimensions).len()),
        ),
    decreases dimensions.len(),
{
    if dimensions.len() == 0 {
        assert(dimensions =~= Seq::empty());
    } else {
        let first = dimensions.first();
        let rest = dimensions.drop_first();
        lemma_starts_split(data, pos, put_dimension(first), put_dimensions(rest));
        assert(encodable_dimension(dimensions[0]));
        assert(dimensions[0].wf());
        lemma_dimension_there(first, data, pos);
        let next = pos + put_dimension(first).len();
        assert(forall|i: int| 0 <= i < rest.len() ==> rest[i] == dimensions[i + 1]);
        assert(dimensions_wf(rest)) by {
            assert forall|i: int, j: int| 0 <= i < j < rest.len() implies !((#[trigger] rest[i]).is_unlimited
                && (#[trigger] rest[j]).is_unlimited) by {
                assert(!(dimensions[i + 1].is_unlimited && dimensions[j + 1].is_unlimited));
            }
            assert forall|i: int| 0 <= i < rest.len() implies (#[trigger] rest[i]).wf() by {
                assert(dimensions[i + 1].wf());
            }
        }
        assert(encodable_dimensions(rest)) by {
            assert forall|i: int| 0 <= i < rest.len() implies encodable_dimension(#[trigger] rest[i]) by {
                assert(encodable_dimension(dimensions[i + 1]));
            }
        }
        let seen = seen_unlimited || first.is_unlimited;
        if seen && has_unlimited(rest) {
            let i = choose|i: int| 0 <= i < rest.len() && (#[trigger] rest[i]).is_unlimited;
            assert(dimensions[i + 1].is_unlimited);
            if first.is_unlimited {
                assert(!(dimensions[0].is_unlimited && dimensions[i + 1].is_unlimited));
            }
        }
        if seen_unlimited && first.is_unlimited {
            assert(dimensions[0].is_unlimited);
        }
        lemma_dimensions_there(rest, data, next, index + 1, count, seen);
        assert(seq![first] + rest =~= dimensions);
    }
}

/// Reading where a dimension list stands gives the dimensions.
pub proof fn lemma_dimension_list_there(
    dimensions: Seq<DimensionView>,
    version: FormatVersion,
    data: Seq<u8>,
    pos: int,
)
    requires
        encodable_count(dimensions.len() as int, version),
        encodable_dimensions(dimensions),
        dimensions_wf(dimensions),
        starts_with(data, pos, put_dimension_list(dimensions, version)),
    ensures
        take_dimension_list(data, pos, version) == Ok::<(Seq<DimensionView>, int), ListError>(
            (dimensions, pos + put_dimension_list(dimensions, version).len()),
        ),
{
    reveal(take_dimension_list);
    let head = put_list_header(TAG_DIMENSION, dimensions.len() as int, version);
    lemma_starts_split(data, pos, head, put_dimensions(dimensions));
    lemma_list_header_there(TAG_DIMENSION, dimensions.len() as int, version, data, pos);
    lemma_dimensions_there(dimensions, data, pos + head.len(), 0, dimensions.len() as int, false);
}

/// Reading where an attribute stands gives the attribute.
pub proof fn lemma_attribute_there(attribute: AttributeView, version: FormatVersion, data: Seq<u8>, pos: int)
    requires
        encodable_attribute(attribute, version),
        starts_with(data, pos, put_attribute(attribute, version)),
    ensures
        take_attribute(data, pos, version) == Ok::<(AttributeView, int), Error>(
            (attribute, pos + put_attribute(attribute, version).len()),
        ),
{
    reveal(take_attribute);
    let name = put_name(attribute.name);
    let code = put_u32(attribute.value.dtype.spec_code() as u32);
    let count = put_count(attribute.value.count, version);
    let raw = attribute.value.raw;
    let pad = zeros(spec_padding_for(raw.len() as int));
    lemma_starts_split(data, pos, name + code + count + raw, pad);
    lemma_starts_split(data, pos, name + code + count, raw);
    lemma_starts_split(data, pos, name + code, count);
    lemma_starts_split(data, pos, name, code);
    lemma_name_there(attribute.name, data, pos);
    lemma_u32_there(attribute.value.dtype.spec_code() as u32, data, pos + name.len());
    lemma_count_there(attribute.value.count, version, data, pos + name.len() + 4);
    assert(spec_element_size(attribute.value.dtype.spec_code() as int) == Ok::<
        (Dtype, u8),
        Error,
    >((attribute.value.dtype, attribute.value.dtype.spec_width())));
}

/// Reading where the entries of an attribute list stand gives the attributes.
pub proof fn lemma_attributes_there(
    attributes: Seq<AttributeView>,
    version: FormatVersion,
    data: Seq<u8>,
    pos: int,
    index: int,
    count: int,
)
    requires
        count - index == attributes.len(),
        encodable_attributes(attributes, version),
        starts_with(data, pos, put_attributes(attributes, version)),
    ensures
        take_attributes(data, pos, index, count, version) == Ok::<(Seq<AttributeView>, int), ListError>(
            (attributes, pos + put_attributes(attributes, version).len()),
        ),
    decreases attributes.len(),
{
    if attributes.len() == 0 {
        assert(attributes =~= Seq::empty());
    } else {
        let first = attributes.first();
        let rest = attributes.drop_first();
        lemma_starts_split(data, pos, put_attribute(first, version), put_attributes(rest, version));
        assert(encodable_attribute(attributes[0], version));
        lemma_attribute_there(first, version, data, pos);
        assert(encodable_attributes(rest, version)) by {
            assert forall|i: int| 0 <= i < rest.len() implies encodable_attribute(#[trigger] rest[i], version) by {
                assert(encodable_attribute(attributes[i + 1], version));
            }
        }
        lemma_attributes_there(rest, version, data, pos + put_attribute(first, version).len(), index + 1, count);
        assert(seq![first] + rest =~= attributes);
    }
}

/// Reading where an attribute list stands gives the attributes.
pub proof fn lemma_attribute_list_there(
    attributes: Seq<AttributeView>,
    version: FormatVersion,
    data: Seq<u8>,
    pos: int,
)
    requires
        encodable_attribute_list(attributes, version),
        starts_with(data, pos, put_attribute_list(attributes, version)),
    ensures
        take_attribute_list(data, pos, version) == Ok::<(Seq<AttributeView>, int), ListError>(
            (attributes, pos + put_attribute_list(attributes, version).len()),
        ),
{
    reveal(take_attribute_list);
    let head = put_list_header(TAG_ATTRIBUTE, attributes.len() as int, version);
    lemma_starts_split(data, pos, head, put_attributes(attributes, version));
    lemma_list_header_there(TAG_ATTRIBUTE, attributes.len() as int, version, data, pos);
    lemma_attributes_there(attributes, version, data, pos + head.len(), 0, attributes.len() as int);
}

/// Reading where the dimension ids of a variable stand gives the ids, where
/// each of them may stand in its place.
pub proof fn lemma_dimension_ids_there(
    ids: Seq<u32>,
    dimensions: Seq<DimensionView>,
    data: Seq<u8>,
    pos: int,
    place: int,
    rank: int,
)
    requires
        rank - place == ids.len(),
        forall|k: int| 0 <= k < ids.len() ==> check_dimension_ref(dimensions, place + k, #[trigger] ids[k]) is Ok,
        starts_with(data, pos, put_dimension_ids(ids)),
    ensures
        take_dimension_ids(data, pos, place, rank, dimensions) == Ok::<(Seq<u32>, int), Error>(
            (ids, pos + put_dimension_ids(ids).len()),
        ),
    decreases ids.len(),
{
    if ids.len() == 0 {
        assert(ids =~= Seq::empty());
    } else {
        let first = ids.first();
        let rest = ids.drop_first();
        lemma_starts_split(data, pos, put_u32(first), put_dimension_ids(rest));
        lemma_u32_there(first, data, pos);
        assert(check_dimension_ref(dimensions, place + 0, ids[0]) is Ok);
        assert forall|k: int| 0 <= k < rest.len() implies check_dimension_ref(
            dimensions,
            place + 1 + k,
            #[trigger] rest[k],
        ) is Ok by {
            assert(check_dimension_ref(dimensions, place + (k + 1), ids[k + 1]) is Ok);
        }
        lemma_dimension_ids_there(rest, dimensions, data, pos + 4, place + 1, rank);
        assert(seq![first] + rest =~= ids);
    }
}

/// Reading where an offset stands gives the offset.
pub proof fn lemma_offset_there(begin: u64, version: FormatVersion, data: Seq<u8>, pos: int)
    requires
        version.spec_offset_width() == 32 ==> begin <= u32::MAX,
        starts_with(data, pos, put_offset(begin, version)),
    ensures
        take_offset(data, pos, version) == Ok::<(u64, int), Error>(
            (begin, pos + put_offset(begin, version).len()),
        ),
{
    if version.spec_offset_width() == 32 {
        lemma_u32_there(begin as u32, data, pos);
    } else {
        lemma_u64_there(begin, data, pos);
    }
}

/// Where a variable stands, each of its fields stands at the end of the
/// field before it.
pub proof fn lemma_variable_parts(variable: VariableView, version: FormatVersion, data: Seq<u8>, pos: int)
    requires
        starts_with(data, pos, put_variable(variable, version)),
    ensures
        ({
            let after_name = pos + put_name(variable.name).len();
            let after_ids = after_name + 4 + put_dimension_ids(variable.dimensions).len();
            let after_attributes = after_ids + put_attribute_list(variable.attributes, version).len();
            &&& starts_with(data, pos, put_name(variable.name))
            &&& starts_with(data, after_name, put_u32(variable.dimensions.len() as u32))
            &&& starts_with(data, after_name + 4, put_dimension_ids(variable.dimensions))
            &&& starts_with(data, after_ids, put_attribute_list(variable.attributes, version))
            &&& starts_with(data, after_attributes, put_u32(variable.dtype.spec_code() as u32))
            &&& starts_with(data, after_attributes + 4, put_u32(variable.size as u32))
            &&& starts_with(data, after_attributes + 8, put_offset(variable.begin, version))
            &&& put_variable(variable, version).len() == after_attributes + 8 + put_offset(
                variable.begin,
                version,
            ).len() - pos
        }),
{
    let name = put_name(variable.name);
    let rank = put_u32(variable.dimensions.len() as u32);
    let ids = put_dimension_ids(variable.dimensions);
    let attributes = put_attribute_list(variable.attributes, version);
    let code = put_u32(variable.dtype.spec_code() as u32);
    let size = put_u32(variable.size as u32);
    let begin = put_offset(variable.begin, version);
    assert(put_variable(variable, version) == name + rank + ids + attributes + code + size + begin);
    lemma_starts_split(data, pos, name + rank + ids + attributes + code + size, begin);
    lemma_starts_split(data, pos, name + rank + ids + attributes + code, size);
    lemma_starts_split(data, pos, name + rank + ids + attributes, code);
    lemma_starts_split(data, pos, name + rank + ids, attributes);
    lemma_starts_split(data, pos, name + rank, ids);
    lemma_starts_split(data, pos, name, rank);
    assert(rank.len() == 4);
    assert(code.len() == 4);
    assert(size.len() == 4);
}

/// Reading where a variable stands gives its name, its rank and its
/// dimension ids.
proof fn lemma_variable_front(
    variable: VariableView,
    dimensions: Seq<DimensionView>,
    version: FormatVersion,
    data: Seq<u8>,
    pos: int,
)
    requires
        encodable_variable(variable, version),
        variable_wf(dimensions, variable),
        starts_with(data, pos, put_variable(variable, version)),
    ensures
        ({
            let after_name = pos + put_name(variable.name).len();
            let after_ids = after_name + 4 + put_dimension_ids(variable.dimensions).len();
            &&& take_name(data, pos) == Ok::<(Seq<char>, int), Error>((variable.name, after_name))
            &&& take_u32(data, after_name) == Ok::<(u32, int), Error>(
                (variable.dimensions.len() as u32, after_name + 4),
            )
            &&& take_dimension_ids(data, after_name + 4, 0, variable.dimensions.len() as int, dimensions)
                == Ok::<(Seq<u32>, int), Error>((variable.dimensions, after_ids))
        }),
{
    lemma_variable_parts(variable, version, data, pos);
    let after_name = pos + put_name(variable.name).len();
    lemma_name_there(variable.name, data, pos);
    lemma_u32_there(variable.dimensions.len() as u32, data, after_name);
    assert forall|k: int| 0 <= k < variable.dimensions.len() implies check_dimension_ref(
        dimensions,
        0 + k,
        #[trigger] variable.dimensions[k],
    ) is Ok by {
        assert(check_dimension_ref(dimensions, k, variable.dimensions[k]) is Ok);
    }
    lemma_dimension_ids_there(
        variable.dimensions,
        dimensions,
        data,
        after_name + 4,
        0,
        variable.dimensions.len() as int,
    );
}

/// Reading where a variable stands gives its attributes.
proof fn lemma_variable_middle(
    variable: VariableView,
    dimensions: Seq<DimensionView>,
    version: FormatVersion,
    data: Seq<u8>,
    pos: int,
)
    requires
        encodable_variable(variable, version),
        variable_wf(dimensions, variable),
        starts_with(data, pos, put_variable(variable, version)),
    ensures
        ({
            let after_ids = pos + put_name(variable.name).len() + 4 + put_dimension_ids(
                variable.dimensions,
            ).len();
            let after_attributes = after_ids + put_attribute_list(variable.attributes, version).len();
            take_attribute_list(data, after_ids, version) == Ok::<(Seq<AttributeView>, int), ListError>(
                (variable.attributes, after_attributes),
            )
        }),
{
    lemma_variable_parts(variable, version, data, pos);
    let after_ids = pos + put_name(variable.name).len() + 4 + put_dimension_ids(variable.dimensions).len();
    lemma_attribute_list_there(variable.attributes, version, data, after_ids);
}

/// Reading where a variable stands gives its type code, its declared size
/// and the offset of its data.
proof fn lemma_variable_back_part(
    variable: VariableView,
    dimensions: Seq<DimensionView>,
    version: FormatVersion,
    data: Seq<u8>,
    pos: int,
)
    requires
        encodable_variable(variable, version),
        variable_wf(dimensions, variable),
        starts_with(data, pos, put_variable(variable, version)),
    ensures
        ({
            let after_attributes = pos + put_name(variable.name).len() + 4 + put_dimension_ids(
                variable.dimensions,
            ).len() + put_attribute_list(variable.attributes, version).len();
            let end = pos + put_variable(variable, version).len();
            &&& take_u32(data, after_attributes) == Ok::<(u32, int), Error>(
                (variable.dtype.spec_code() as u32, after_attributes + 4),
            )
            &&& take_u32(data, after_attributes + 4) == Ok::<(u32, int), Error>(
                (variable.size as u32, after_attributes + 8),
            )
            &&& take_offset(data, after_attributes + 8, version) == Ok::<(u64, int), Error>(
                (variable.begin, end),
            )
        }),
{
    lemma_variable_parts(variable, version, data, pos);
    let after_attributes = pos + put_name(variable.name).len() + 4 + put_dimension_ids(
        variable.dimensions,
    ).len() + put_attribute_list(variable.attributes, version).len();
    lemma_u32_there(variable.dtype.spec_code() as u32, data, after_attributes);
    lemma_u32_there(variable.size as u32, data, after_attributes + 4);
    lemma_offset_there(variable.begin, version, data, after_attributes + 8);
}

/// Reading where a variable stands gives the variable.
pub proof fn lemma_variable_there(
    variable: VariableView,
    dimensions: Seq<DimensionView>,
    version: FormatVersion,
    data: Seq<u8>,
    pos: int,
)
    requires
        encodable_variable(variable, version),
        variable_wf(dimensions, variable),
        starts_with(data, pos, put_variable(variable, version)),
    ensures
        take_variable(data, pos, dimensions, version) == Ok::<(VariableView, int), Error>(
            (variable, pos + put_variable(variable, version).len()),
        ),
{
    lemma_variable_front(variable, dimensions, version, data, pos);
    lemma_variable_middle(variable, dimensions, version, data, pos);
    lemma_variable_back_part(variable, dimensions, version, data, pos);
    let after_name = pos + put_name(variable.name).len();
    let after_ids = after_name + 4 + put_dimension_ids(variable.dimensions).len();
    let after_attributes = after_ids + put_attribute_list(variable.attributes, version).len();
    lemma_variable_assembled(
        variable,
        dimensions,
        version,
        data,
        pos,
        after_name,
        after_ids,
        after_attributes,
        pos + put_variable(variable, version).len(),
    );
}

/// A variable is what its fields, read one after the other, make.
proof fn lemma_variable_assembled(
    variable: VariableView,
    dimensions: Seq<DimensionView>,
    version: FormatVersion,
    data: Seq<u8>,
    pos: int,
    after_name: int,
    after_ids: int,
    after_attributes: int,
    end: int,
)
    requires
        0 <= variable.size <= u32::MAX,
        variable.dimensions.len() <= u32::MAX,
        take_name(data, pos) == Ok::<(Seq<char>, int), Error>((variable.name, after_name)),
        take_u32(data, after_name) == Ok::<(u32, int), Error>(
            (variable.dimensions.len() as u32, after_name + 4),
        ),
        take_dimension_ids(data, after_name + 4, 0, variable.dimensions.len() as int, dimensions) == Ok::<
            (Seq<u32>, int),
            Error,
        >((variable.dimensions, after_ids)),
        take_attribute_list(data, after_ids, version) == Ok::<(Seq<AttributeView>, int), ListError>(
            (variable.attributes, after_attributes),
        ),
        take_u32(data, after_attributes) == Ok::<(u32, int), Error>(
            (variable.dtype.spec_code() as u32, after_attributes + 4),
        ),
        take_u32(data, after_attributes + 4) == Ok::<(u32, int), Error>(
            (variable.size as u32, after_attributes + 8),
        ),
        take_offset(data, after_attributes + 8, version) == Ok::<(u64, int), Error>((variable.begin, end)),
    ensures
        take_variable(data, pos, dimensions, version) == Ok::<(VariableView, int), Error>((variable, end)),
{
    reveal(take_variable);
    assert(spec_element_size(variable.dtype.spec_code() as int) == Ok::<(Dtype, u8), Error>(
        (variable.dtype, variable.dtype.spec_width()),
    ));
    assert(((variable.size as u32) as i64) == variable.size);
    assert(((variable.dimensions.len() as u32) as int) == variable.dimensions.len());
}

/// Reading where the entries of a variable list stand gives the variables.
pub proof fn lemma_variables_there(
    variables: Seq<VariableView>,
    dimensions: Seq<DimensionView>,
    version: FormatVersion,
    data: Seq<u8>,
    pos: int,
    index: int,
    count: int,
)
    requires
        count - index == variables.len(),
        encodable_variables(variables, version),
        forall|v: int| 0 <= v < variables.len() ==> variable_wf(dimensions, #[trigger] variables[v]),
        starts_with(data, pos, put_variables(variables, version)),
    ensures
        take_variables(data, pos, index, count, dimensions, version) == Ok::<
            (Seq<VariableView>, int),
            ListError,
        >((variables, pos + put_variables(variables, version).len())),
    decreases variables.len(),
{
    if variables.len() == 0 {
        assert(variables =~= Seq::empty());
    } else {
        let first = variables.first();
        let rest = variables.drop_first();
        lemma_starts_split(data, pos, put_variable(first, version), put_variables(rest, version));
        assert(encodable_variable(variables[0], version));
        assert(variable_wf(dimensions, variables[0]));
        lemma_variable_there(first, dimensions, version, data, pos);
        assert(encodable_variables(rest, version)) by {
            assert forall|i: int| 0 <= i < rest.len() implies encodable_variable(#[trigger] rest[i], version) by {
                assert(encodable_variable(variables[i + 1], version));
            }
        }
        assert forall|v: int| 0 <= v < rest.len() implies variable_wf(dimensions, #[trigger] rest[v]) by {
            assert(variable_wf(dimensions, variables[v + 1]));
        }
        lemma_variables_there(
            rest,
            dimensions,
            version,
            data,
            pos + put_variable(first, version).len(),
            index + 1,
            count,
        );
        assert(seq![first] + rest =~= variables);
    }
}

/// Reading where a variable list stands gives the variables.
pub proof fn lemma_variable_list_there(
    variables: Seq<VariableView>,
    dimensions: Seq<DimensionView>,
    version: FormatVersion,
    data: Seq<u8>,
    pos: int,
)
    requires
        encodable_count(variables.len() as int, version),
        encodable_variables(variables, version),
        forall|v: int| 0 <= v < variables.len() ==> variable_wf(dimensions, #[trigger] variables[v]),
        starts_with(data, pos, put_variable_list(variables, version)),
    ensures
        take_variable_list(data, pos, dimensions, version) == Ok::<(Seq<VariableView>, int), ListError>(
            (variables, pos + put_variable_list(variables, version).len()),
        ),
{
    reveal(take_variable_list);
    let head = put_list_header(TAG_VARIABLE, variables.len() as int, version);
    lemma_starts_split(data, pos, head, put_variables(variables, version));
    lemma_list_header_there(TAG_VARIABLE, variables.len() as int, version, data, pos);
    lemma_variables_there(variables, dimensions, version, data, pos + head.len(), 0, variables.len() as int);
}

/// Encoding a dataset and decoding the bytes, with whatever follows them,
/// gives the dataset back, and the decoder stops where the encoded bytes end.
pub proof fn lemma_header_there(dataset: DatasetView, data: Seq<u8>, pos: int)
    requires
        dataset.wf(),
        dataset.source is None,
        encodable_header(dataset),
        starts_with(data, pos, put_header(dataset)),
    ensures
        take_header(data, pos) == Ok::<(DatasetView, int), DecodeError>(
            (dataset, pos + put_header(dataset).len()),
        ),
{
    let version = dataset.version;
    let start = magic() + seq![version.spec_byte()];
    let numrecs = put_numrecs(dataset.numrecs, version);
    let dimensions = put_dimension_list(dataset.dimensions, version);
    let attributes = put_attribute_list(dataset.attributes, version);
    let variables = put_variable_list(dataset.variables, version);
    lemma_starts_split(data, pos, start + numrecs + dimensions + attributes, variables);
    lemma_starts_split(data, pos, start + numrecs + dimensions, attributes);
    lemma_starts_split(data, pos, start + numrecs, dimensions);
    lemma_starts_split(data, pos, start, numrecs);
    lemma_starts_split(data, pos, magic(), seq![version.spec_byte()]);
    assert(data.subrange(pos, pos + 3) == magic());
    assert(data.subrange(pos + 3, pos + 4) == seq![version.spec_byte()]);
    assert(data.subrange(pos + 3, pos + 4)[0] == version.spec_byte());
    assert(take_u8(data, pos + 3) == Ok::<(u8, int), Error>((version.spec_byte(), pos + 4)));
    let after_numrecs = pos + 4 + numrecs.len();
    let after_dimensions = after_numrecs + dimensions.len();
    let after_attributes = after_dimensions + attributes.len();
    lemma_numrecs_there(dataset.numrecs, version, data, pos + 4);
    lemma_dimension_list_there(dataset.dimensions, version, data, after_numrecs);
    lemma_attribute_list_there(dataset.attributes, version, data, after_dimensions);
    lemma_variable_list_there(dataset.variables, dataset.dimensions, version, data, after_attributes);
}

} // verus!
