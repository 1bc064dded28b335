//! The decoders of the parts of a header. Each one reads at the cursor of a
//! [`ByteReader`] and returns what the layout in [`crate::grammar`] prescribes.

use vstd::prelude::*;
use crate::attributes::{Attribute, AttributeValue, AttributeView};
use crate::constants::{
    element_size, spec_element_size, TAG_ABSENT, TAG_ATTRIBUTE, TAG_DIMENSION, TAG_VARIABLE,
};
use crate::dataset::{dimensions_wf, has_unlimited, variable_wf};
use crate::dimension::{Dimension, DimensionView};
use crate::dtype::Dtype;
use crate::error::{Error, ListError};
use crate::grammar::{
    after, agrees, agrees_list, check_dimension_ref, lemma_after_push, lemma_views_push,
    take_attribute, take_attribute_list, take_attributes, take_count, take_dimension,
    take_dimension_ids, take_dimension_list, take_dimensions, take_list_header, take_name,
    take_numrecs, take_offset, take_variable, take_variable_list, take_variables, views,
};
use crate::helpers::{padding_for, unpack_string};
use crate::reader::ByteReader;
use crate::variable::{Variable, VariableView};
use crate::version::FormatVersion;

verus! {

/// Reads a name: its length, its text and the padding after it.
pub fn read_name(fp: &mut ByteReader) -> (r: Result<String, Error>)
    ensures
        final(fp).bytes() == old(fp).bytes(),
        agrees(r, final(fp).cursor(), take_name(old(fp).bytes(), old(fp).cursor())),
{
    reveal(take_name);
    let len: u32 = match fp.read_u32() {
        Ok(len) => len,
        Err(e) => return Err(e),
    };
    let name = match unpack_string(fp, len as usize) {
        Ok(name) => name,
        Err(e) => return Err(e),
    };
    match fp.skip(padding_for(len as u64)) {
        Ok(_) => Ok(name),
        Err(e) => Err(e),
    }
}

/// Reads a count in the width that the version fixes.
pub fn read_count(fp: &mut ByteReader, version: FormatVersion) -> (r: Result<u64, Error>)
    ensures
        final(fp).bytes() == old(fp).bytes(),
        agrees(r, final(fp).cursor(), take_count(old(fp).bytes(), old(fp).cursor(), version)),
{
    if version.wide_counts() {
        fp.read_u64()
    } else {
        match fp.read_u32() {
            Ok(n) => Ok(n as u64),
            Err(e) => Err(e),
        }
    }
}

/// Reads the number of records; a count with all bits set gives `None`.
pub fn read_numrecs(fp: &mut ByteReader, version: FormatVersion) -> (r: Result<Option<u64>, Error>)
    ensures
        final(fp).bytes() == old(fp).bytes(),
        agrees(r, final(fp).cursor(), take_numrecs(old(fp).bytes(), old(fp).cursor(), version)),
{
    reveal(take_numrecs);
    let mark: u64 = if version.wide_counts() {
        0xffff_ffff_ffff_ffff
    } else {
        0xffff_ffff
    };
    match read_count(fp, version) {
        Ok(n) => Ok(if n == mark { None } else { Some(n) }),
        Err(e) => Err(e),
    }
}

/// Reads the head of a list: checks the tag against zero and `tag`, then
/// reads the number of entries.
pub fn read_list_header(fp: &mut ByteReader, tag: u32, version: FormatVersion) -> (r: Result<u64, Error>)
    ensures
        final(fp).bytes() == old(fp).bytes(),
        agrees(r, final(fp).cursor(), take_list_header(old(fp).bytes(), old(fp).cursor(), tag, version)),
{
    reveal(take_list_header);
    let found: u32 = match fp.read_u32() {
        Ok(found) => found,
        Err(e) => return Err(e),
    };
    if found != TAG_ABSENT && found != tag {
        return Err(Error::MalformedSectionHeader);
    }
    read_count(fp, version)
}

/// Reads one dimension.
pub fn read_dimension(fp: &mut ByteReader) -> (r: Result<Dimension, Error>)
    ensures
        final(fp).bytes() == old(fp).bytes(),
        agrees(r, final(fp).cursor(), take_dimension(old(fp).bytes(), old(fp).cursor())),
        r is Ok ==> r->Ok_0@.wf(),
{
    reveal(take_dimension);
    let name = match read_name(fp) {
        Ok(name) => name,
        Err(e) => return Err(e),
    };
    match fp.read_u32() {
        Ok(length) => Ok(Dimension::new(name, length as u64)),
        Err(e) => Err(e),
    }
}

/// Reads the list of dimensions, in file order. At most one of them is the
/// record dimension: a second one fails the list.
pub fn read_dims(fp: &mut ByteReader, version: FormatVersion) -> (r: Result<Vec<Dimension>, ListError>)
    ensures
        final(fp).bytes() == old(fp).bytes(),
        agrees_list(r, final(fp).cursor(), take_dimension_list(old(fp).bytes(), old(fp).cursor(), version)),
        r is Ok ==> dimensions_wf(views(r->Ok_0@)),
{
    reveal(take_dimension_list);
    let count: u64 = match read_list_header(fp, TAG_DIMENSION, version) {
        Ok(count) => count,
        Err(e) => return Err(ListError { kind: e, entry: None }),
    };
    let ghost data = fp.bytes();
    let ghost whole = take_dimensions(data, fp.cursor(), 0, count as int, false);
    let mut dimensions: Vec<Dimension> = Vec::new();
    let mut seen_unlimited: bool = false;
    let mut index: u64 = 0;
    assert(views(dimensions@) + Seq::<DimensionView>::empty() =~= views(dimensions@));
    while index < count
        invariant
            fp.bytes() == data,
            data == old(fp).bytes(),
            index <= count,
            take_dimension_list(old(fp).bytes(), old(fp).cursor(), version) == whole,
            whole == after(
                views(dimensions@),
                take_dimensions(data, fp.cursor(), index as int, count as int, seen_unlimited),
            ),
            dimensions_wf(views(dimensions@)),
            seen_unlimited <==> has_unlimited(views(dimensions@)),
        decreases count - index,
    {
        let ghost before = dimensions@;
        let ghost start = fp.cursor();
        let dimension = match read_dimension(fp) {
            Ok(dimension) => dimension,
            Err(e) => return Err(ListError { kind: e, entry: Some(index) }),
        };
        if dimension.is_unlimited && seen_unlimited {
            return Err(ListError { kind: Error::MultipleUnlimitedDimensions, entry: Some(index) });
        }
        proof {
            lemma_after_push(
                views(before),
                dimension@,
                take_dimensions(
                    data,
                    fp.cursor(),
                    index + 1,
                    count as int,
                    seen_unlimited || dimension.is_unlimited,
                ),
            );
            lemma_views_push(before, dimension);
        }
        seen_unlimited = seen_unlimited || dimension.is_unlimited;
        dimensions.push(dimension);
        index = index + 1;
        proof {
            let now = views(dimensions@);
            assert(now == views(before).push(dimension@));
            assert(forall|i: int| 0 <= i < before.len() ==> now[i] == views(before)[i]);
            assert(now[now.len() - 1] == dimension@);
            if has_unlimited(views(before)) {
                let i = choose|i: int| 0 <= i < views(before).len() && (#[trigger] views(before)[i]).is_unlimited;
                assert(now[i].is_unlimited);
            }
            if has_unlimited(now) {
                let i = choose|i: int| 0 <= i < now.len() && (#[trigger] now[i]).is_unlimited;
                if i < before.len() {
                    assert(views(before)[i].is_unlimited);
                }
            }
            assert forall|i: int, j: int| 0 <= i < j < now.len() implies !((#[trigger] now[i]).is_unlimited
                && (#[trigger] now[j]).is_unlimited) by {
                if j == now.len() - 1 && now[i].is_unlimited {
                    assert(views(before)[i].is_unlimited);
                }
            }
        }
    }
    proof {
        assert(views(dimensions@) + Seq::<DimensionView>::empty() =~= views(dimensions@));
    }
    Ok(dimensions)
}

/// Maps a type code as read from a header to its kind and element width.
pub fn read_type_code(code: u32) -> (r: Result<(Dtype, u8), Error>)
    ensures
        r == spec_element_size(code as int),
{
    if code > 255 {
        Err(Error::UnknownTypeCode)
    } else {
        element_size(code as u8)
    }
}

/// Reads one attribute: name, type code, element count, the elements and the
/// padding after them.
pub fn read_attribute(fp: &mut ByteReader, version: FormatVersion) -> (r: Result<Attribute, Error>)
    ensures
        final(fp).bytes() == old(fp).bytes(),
        agrees(r, final(fp).cursor(), take_attribute(old(fp).bytes(), old(fp).cursor(), version)),
        r is Ok ==> r->Ok_0@.value.wf(),
{
    reveal(take_attribute);
    let name = match read_name(fp) {
        Ok(name) => name,
        Err(e) => return Err(e),
    };
    let code: u32 = match fp.read_u32() {
        Ok(code) => code,
        Err(e) => return Err(e),
    };
    let count: u64 = match read_count(fp, version) {
        Ok(count) => count,
        Err(e) => return Err(e),
    };
    let (dtype, width) = match read_type_code(code) {
        Ok(found) => found,
        Err(e) => return Err(e),
    };
    let left: u64 = fp.remaining() as u64;
    let byte_count: u64 = match count.checked_mul(width as u64) {
        Some(n) => n,
        None => return Err(Error::TruncatedInput),
    };
    if byte_count > left {
        return Err(Error::TruncatedInput);
    }
    let raw = match fp.read_bytes(byte_count) {
        Ok(raw) => raw,
        Err(e) => return Err(e),
    };
    match fp.skip(padding_for(byte_count)) {
        Ok(_) => Ok(Attribute { name, value: AttributeValue { dtype, raw, count } }),
        Err(e) => Err(e),
    }
}

/// Reads a list of attributes, in file order.
pub fn read_attrs(fp: &mut ByteReader, version: FormatVersion) -> (r: Result<Vec<Attribute>, ListError>)
    ensures
        final(fp).bytes() == old(fp).bytes(),
        agrees_list(r, final(fp).cursor(), take_attribute_list(old(fp).bytes(), old(fp).cursor(), version)),
{
    reveal(take_attribute_list);
    let count: u64 = match read_list_header(fp, TAG_ATTRIBUTE, version) {
        Ok(count) => count,
        Err(e) => return Err(ListError { kind: e, entry: None }),
    };
    let ghost data = fp.bytes();
    let ghost whole = take_attributes(data, fp.cursor(), 0, count as int, version);
    let mut attributes: Vec<Attribute> = Vec::new();
    let mut index: u64 = 0;
    assert(views(attributes@) + Seq::<AttributeView>::empty() =~= views(attributes@));
    while index < count
        invariant
            fp.bytes() == data,
            data == old(fp).bytes(),
            index <= count,
            take_attribute_list(old(fp).bytes(), old(fp).cursor(), version) == whole,
            whole == after(
                views(attributes@),
                take_attributes(data, fp.cursor(), index as int, count as int, version),
            ),
        decreases count - index,
    {
        let ghost before = attributes@;
        let attribute = match read_attribute(fp, version) {
            Ok(attribute) => attribute,
            Err(e) => return Err(ListError { kind: e, entry: Some(index) }),
        };
        proof {
            lemma_after_push(
                views(before),
                attribute@,
                take_attributes(data, fp.cursor(), index + 1, count as int, version),
            );
            lemma_views_push(before, attribute);
        }
        attributes.push(attribute);
        index = index + 1;
    }
    proof {
        assert(views(attributes@) + Seq::<AttributeView>::empty() =~= views(attributes@));
    }
    Ok(attributes)
}

/// Reads the dimension ids of a variable of the given rank, checking each
/// against the dimensions of the dataset as it is read.
pub fn read_dimension_ids(fp: &mut ByteReader, rank: u32, dimensions: &Vec<Dimension>) -> (r: Result<
    Vec<u32>,
    Error,
>)
    ensures
        final(fp).bytes() == old(fp).bytes(),
        agrees(
            r,
            final(fp).cursor(),
            take_dimension_ids(old(fp).bytes(), old(fp).cursor(), 0, rank as int, views(dimensions@)),
        ),
        r is Ok ==> forall|place: int|
            0 <= place < r->Ok_0@.len() ==> check_dimension_ref(
                views(dimensions@),
                place,
                #[trigger] r->Ok_0@[place],
            ) is Ok,
{
    let ghost data = fp.bytes();
    let ghost whole = take_dimension_ids(data, fp.cursor(), 0, rank as int, views(dimensions@));
    let mut ids: Vec<u32> = Vec::new();
    let mut place: u32 = 0;
    assert(ids@ + Seq::<u32>::empty() =~= ids@);
    while place < rank
        invariant
            fp.bytes() == data,
            data == old(fp).bytes(),
            place <= rank,
            ids@.len() == place,
            whole == take_dimension_ids(old(fp).bytes(), old(fp).cursor(), 0, rank as int, views(dimensions@)),
            whole == after(
                ids@,
                take_dimension_ids(data, fp.cursor(), place as int, rank as int, views(dimensions@)),
            ),
            forall|k: int|
                0 <= k < ids@.len() ==> check_dimension_ref(views(dimensions@), k, #[trigger] ids@[k]) is Ok,
        decreases rank - place,
    {
        let ghost before = ids@;
        let id: u32 = match fp.read_u32() {
            Ok(id) => id,
            Err(e) => return Err(e),
        };
        if id as usize >= dimensions.len() {
            return Err(Error::UnknownDimensionId);
        }
        if place > 0 && dimensions[id as usize].is_unlimited {
            return Err(Error::InvalidRecordDimensionPlacement);
        }
        proof {
            lemma_after_push(
                before,
                id,
                take_dimension_ids(data, fp.cursor(), place + 1, rank as int, views(dimensions@)),
            );
        }
        ids.push(id);
        place = place + 1;
    }
    proof {
        assert(ids@ + Seq::<u32>::empty() =~= ids@);
    }
    Ok(ids)
}

/// Reads the offset of a variable's data in the width that the version fixes.
pub fn read_offset(fp: &mut ByteReader, version: FormatVersion) -> (r: Result<u64, Error>)
    ensures
        final(fp).bytes() == old(fp).bytes(),
        agrees(r, final(fp).cursor(), take_offset(old(fp).bytes(), old(fp).cursor(), version)),
{
    if version.offset_width() == 32 {
        match fp.read_u32() {
            Ok(n) => Ok(n as u64),
            Err(e) => Err(e),
        }
    } else {
        fp.read_u64()
    }
}

/// Reads one variable: name, dimension ids, attributes, type code, declared
/// size and the offset of its data.
pub fn read_variable(fp: &mut ByteReader, dimensions: &Vec<Dimension>, version: FormatVersion) -> (r: Result<
    Variable,
    Error,
>)
    ensures
        final(fp).bytes() == old(fp).bytes(),
        agrees(
            r,
            final(fp).cursor(),
            take_variable(old(fp).bytes(), old(fp).cursor(), views(dimensions@), version),
        ),
        r is Ok ==> variable_wf(views(dimensions@), r->Ok_0@),
{
    reveal(take_variable);
    let name = match read_name(fp) {
        Ok(name) => name,
        Err(e) => return Err(e),
    };
    let rank: u32 = match fp.read_u32() {
        Ok(rank) => rank,
        Err(e) => return Err(e),
    };
    let ids = match read_dimension_ids(fp, rank, dimensions) {
        Ok(ids) => ids,
        Err(e) => return Err(e),
    };
    let attributes = match read_attrs(fp, version) {
        Ok(attributes) => attributes,
        Err(e) => return Err(e.kind),
    };
    let code: u32 = match fp.read_u32() {
        Ok(code) => code,
        Err(e) => return Err(e),
    };
    let (dtype, _) = match read_type_code(code) {
        Ok(found) => found,
        Err(e) => return Err(e),
    };
    let size: u32 = match fp.read_u32() {
        Ok(size) => size,
        Err(e) => return Err(e),
    };
    let begin: u64 = match read_offset(fp, version) {
        Ok(begin) => begin,
        Err(e) => return Err(e),
    };
    Ok(
        Variable::new(name).with_dimensions(ids).with_attributes(attributes).with_dtype(dtype).with_size(
            size as i64,
        ).with_begin(begin),
    )
}

/// Reads the list of variables, in file order, against the dimensions that
/// were read before.
pub fn read_vars(fp: &mut ByteReader, dimensions: &Vec<Dimension>, version: FormatVersion) -> (r: Result<
    Vec<Variable>,
    ListError,
>)
    ensures
        final(fp).bytes() == old(fp).bytes(),
        agrees_list(
            r,
            final(fp).cursor(),
            take_variable_list(old(fp).bytes(), old(fp).cursor(), views(dimensions@), version),
        ),
        r is Ok ==> forall|v: int|
            0 <= v < r->Ok_0@.len() ==> variable_wf(views(dimensions@), #[trigger] views(r->Ok_0@)[v]),
{
    reveal(take_variable_list);
    let count: u64 = match read_list_header(fp, TAG_VARIABLE, version) {
        Ok(count) => count,
        Err(e) => return Err(ListError { kind: e, entry: None }),
    };
    let ghost data = fp.bytes();
    let ghost whole = take_variables(data, fp.cursor(), 0, count as int, views(dimensions@), version);
    let mut variables: Vec<Variable> = Vec::new();
    let mut index: u64 = 0;
    assert(views(variables@) + Seq::<VariableView>::empty() =~= views(variables@));
    while index < count
        invariant
            fp.bytes() == data,
            data == old(fp).bytes(),
            index <= count,
            take_variable_list(old(fp).bytes(), old(fp).cursor(), views(dimensions@), version) == whole,
            whole == after(
                views(variables@),
                take_variables(data, fp.cursor(), index as int, count as int, views(dimensions@), version),
            ),
            forall|v: int|
                0 <= v < variables@.len() ==> variable_wf(views(dimensions@), #[trigger] views(variables@)[v]),
        decreases count - index,
    {
        let ghost before = variables@;
        let variable = match read_variable(fp, dimensions, version) {
            Ok(variable) => variable,
            Err(e) => return Err(ListError { kind: e, entry: Some(index) }),
        };
        proof {
            lemma_after_push(
                views(before),
                variable@,
                take_variables(data, fp.cursor(), index + 1, count as int, views(dimensions@), version),
            );
            lemma_views_push(before, variable);
        }
        variables.push(variable);
        index = index + 1;
        proof {
            let now = views(variables@);
            assert(forall|v: int| 0 <= v < before.len() ==> now[v] == views(before)[v]);
        }
    }
    proof {
        assert(views(variables@) + Seq::<VariableView>::empty() =~= views(variables@));
    }
    Ok(variables)
}

} // verus!
