//! Writing the parts of a header. Each function appends to `out` the bytes
//! that [`crate::encode`] prescribes, and reports whether the value fits the
//! widths of its fields; where it does not, what `out` holds is left open.

use byteorder::{BigEndian, ByteOrder};
use vstd::prelude::*;
use crate::attributes::Attribute;
use crate::constants::{TAG_ABSENT, TAG_ATTRIBUTE, TAG_DIMENSION, TAG_VARIABLE};
use crate::dimension::Dimension;
use crate::encode::{
    encodable_attribute, encodable_attribute_list, encodable_count,
    encodable_dimension, encodable_dimensions, encodable_name, encodable_numrecs,
    encodable_variable, encodable_variables, lemma_join_three, lemma_put_attributes_push, lemma_put_dimension_ids_push,
    lemma_put_dimensions_push, lemma_put_variables_push, put_attribute, put_attribute_list,
    put_attributes, put_count, put_dimension, put_dimension_ids, put_dimension_list,
    put_dimensions, put_list_header, put_name, put_numrecs, put_offset, put_u32, put_u64,
    put_variable, put_variable_list, put_variables, zeros,
};
use crate::grammar::views;
use crate::helpers::{padding_for, spec_padding_for};
use crate::variable::Variable;
use crate::version::FormatVersion;

verus! {

/// `byteorder::BigEndian::write_u32` on a buffer of four bytes: the bytes of
/// `v`, most significant first.
#[verifier::external_body]
fn be_bytes_u32(v: u32) -> (bytes: Vec<u8>)
    ensures
        bytes@ == put_u32(v),
{
    let mut buffer = vec![0u8; 4];
    BigEndian::write_u32(&mut buffer, v);
    buffer
}

/// `byteorder::BigEndian::write_u64` on a buffer of eight bytes: the bytes of
/// `v`, most significant first.
#[verifier::external_body]
fn be_bytes_u64(v: u64) -> (bytes: Vec<u8>)
    ensures
        bytes@ == put_u64(v),
{
    let mut buffer = vec![0u8; 8];
    BigEndian::write_u64(&mut buffer, v);
    buffer
}

/// Appends a 32-bit integer, most significant byte first.
pub fn write_u32(out: &mut Vec<u8>, v: u32)
    ensures
        final(out)@ == old(out)@ + put_u32(v),
{
    let mut bytes = be_bytes_u32(v);
    out.append(&mut bytes);
}

/// Appends a 64-bit integer, most significant byte first.
pub fn write_u64(out: &mut Vec<u8>, v: u64)
    ensures
        final(out)@ == old(out)@ + put_u64(v),
{
    let mut bytes = be_bytes_u64(v);
    out.append(&mut bytes);
}

/// Appends the zeros that pad a field of `n` bytes to a multiple of four.
pub fn write_padding(out: &mut Vec<u8>, n: u64)
    ensures
        final(out)@ == old(out)@ + zeros(spec_padding_for(n as int)),
{
    let pad: u64 = padding_for(n);
    let mut i: u64 = 0;
    assert(out@ =~= old(out)@ + zeros(0));
    while i < pad
        invariant
            i <= pad,
            pad == spec_padding_for(n as int),
            out@ == old(out)@ + zeros(i as int),
        decreases pad - i,
    {
        out.push(0);
        i = i + 1;
        assert(out@ =~= old(out)@ + zeros(i as int));
    }
}

/// Appends the bytes of `field` as they are.
pub fn write_bytes(out: &mut Vec<u8>, field: &[u8])
    ensures
        final(out)@ == old(out)@ + field@,
{
    out.extend_from_slice(field);
    assert(out@ =~= old(out)@ + field@);
}

/// Appends a name.
pub fn write_name(out: &mut Vec<u8>, name: &String) -> (fits: bool)
    ensures
        fits == encodable_name(name@),
        fits ==> final(out)@ == old(out)@ + put_name(name@),
{
    let raw = name.as_str().as_bytes();
    let len: usize = raw.len();
    if len as u64 > 0xffff_ffff {
        return false;
    }
    write_u32(out, len as u32);
    write_bytes(out, raw);
    write_padding(out, len as u64);
    assert(out@ =~= old(out)@ + put_name(name@));
    true
}

/// Appends a count in the width that the version fixes.
pub fn write_count(out: &mut Vec<u8>, n: u64, version: FormatVersion) -> (fits: bool)
    ensures
        fits == encodable_count(n as int, version),
        fits ==> final(out)@ == old(out)@ + put_count(n, version),
{
    if version.wide_counts() {
        write_u64(out, n);
        true
    } else if n > 0xffff_ffff {
        false
    } else {
        write_u32(out, n as u32);
        true
    }
}

/// Appends the number of records; all bits set where it is left open.
pub fn write_numrecs(out: &mut Vec<u8>, numrecs: Option<u64>, version: FormatVersion) -> (fits: bool)
    ensures
        fits == encodable_numrecs(numrecs, version),
        fits ==> final(out)@ == old(out)@ + put_numrecs(numrecs, version),
{
    let mark: u64 = if version.wide_counts() {
        0xffff_ffff_ffff_ffff
    } else {
        0xffff_ffff
    };
    match numrecs {
        Some(n) => {
            if n >= mark {
                false
            } else {
                write_count(out, n, version)
            }
        },
        None => write_count(out, mark, version),
    }
}

/// Appends the head of a list of `count` entries.
pub fn write_list_header(out: &mut Vec<u8>, tag: u32, count: usize, version: FormatVersion) -> (fits: bool)
    ensures
        fits == encodable_count(count as int, version),
        fits ==> final(out)@ == old(out)@ + put_list_header(tag, count as int, version),
{
    if !version.wide_counts() && count as u64 > 0xffff_ffff {
        return false;
    }
    write_u32(
        out,
        if count == 0 {
            TAG_ABSENT
        } else {
            tag
        },
    );
    let fits = write_count(out, count as u64, version);
    assert(out@ =~= old(out)@ + put_list_header(tag, count as int, version));
    fits
}

/// Appends one dimension.
pub fn write_dimension(out: &mut Vec<u8>, dimension: &Dimension) -> (fits: bool)
    ensures
        fits == encodable_dimension(dimension@),
        fits ==> final(out)@ == old(out)@ + put_dimension(dimension@),
{
    if dimension.length > 0xffff_ffff {
        return false;
    }
    if !write_name(out, &dimension.name) {
        return false;
    }
    write_u32(out, dimension.length as u32);
    assert(out@ =~= old(out)@ + put_dimension(dimension@));
    true
}

/// Appends the list of dimensions.
pub fn write_dimension_list(out: &mut Vec<u8>, dimensions: &Vec<Dimension>, version: FormatVersion) -> (fits:
    bool)
    ensures
        fits == (encodable_count(dimensions@.len() as int, version) && encodable_dimensions(
            views(dimensions@),
        )),
        fits ==> final(out)@ == old(out)@ + put_dimension_list(views(dimensions@), version),
{
    let n: usize = dimensions.len();
    if !write_list_header(out, TAG_DIMENSION, n, version) {
        return false;
    }
    let ghost head = out@;
    let mut i: usize = 0;
    assert(views(dimensions@).take(0) =~= Seq::empty());
    assert(out@ =~= head + put_dimensions(views(dimensions@).take(0)));
    while i < n
        invariant
            n == dimensions.len(),
            i <= n,
            out@ == head + put_dimensions(views(dimensions@).take(i as int)),
            forall|j: int| 0 <= j < i ==> encodable_dimension(#[trigger] views(dimensions@)[j]),
        decreases n - i,
    {
        let ghost before = out@;
        if !write_dimension(out, &dimensions[i]) {
            assert(!encodable_dimension(views(dimensions@)[i as int]));
            return false;
        }
        proof {
            let all = views(dimensions@);
            lemma_put_dimensions_push(all.take(i as int), all[i as int]);
            assert(all.take(i + 1) =~= all.take(i as int).push(all[i as int]));
            assert(out@ =~= head + put_dimensions(all.take(i + 1)));
        }
        i = i + 1;
    }
    proof {
        assert(views(dimensions@).take(n as int) =~= views(dimensions@));
        assert(out@ =~= old(out)@ + put_dimension_list(views(dimensions@), version));
    }
    true
}

/// Appends one attribute.
pub fn write_attribute(out: &mut Vec<u8>, attribute: &Attribute, version: FormatVersion) -> (fits: bool)
    ensures
        fits == encodable_attribute(attribute@, version),
        fits ==> final(out)@ == old(out)@ + put_attribute(attribute@, version),
{
    let width: u64 = attribute.value.dtype.width() as u64;
    let len: usize = attribute.value.raw.len();
    match attribute.value.count.checked_mul(width) {
        Some(byte_count) => {
            if byte_count != len as u64 {
                return false;
            }
        },
        None => {
            return false;
        },
    }
    if !write_name(out, &attribute.name) {
        return false;
    }
    write_u32(out, attribute.value.dtype.code() as u32);
    if !write_count(out, attribute.value.count, version) {
        return false;
    }
    write_bytes(out, attribute.value.raw.as_slice());
    write_padding(out, len as u64);
    assert(out@ =~= old(out)@ + put_attribute(attribute@, version));
    true
}

/// Appends a list of attributes.
pub fn write_attribute_list(out: &mut Vec<u8>, attributes: &Vec<Attribute>, version: FormatVersion) -> (fits:
    bool)
    ensures
        fits == encodable_attribute_list(views(attributes@), version),
        fits ==> final(out)@ == old(out)@ + put_attribute_list(views(attributes@), version),
{
    let n: usize = attributes.len();
    if !write_list_header(out, TAG_ATTRIBUTE, n, version) {
        return false;
    }
    let ghost head = out@;
    let mut i: usize = 0;
    assert(views(attributes@).take(0) =~= Seq::empty());
    assert(out@ =~= head + put_attributes(views(attributes@).take(0), version));
    while i < n
        invariant
            n == attributes.len(),
            i <= n,
            out@ == head + put_attributes(views(attributes@).take(i as int), version),
            forall|j: int| 0 <= j < i ==> encodable_attribute(#[trigger] views(attributes@)[j], version),
        decreases n - i,
    {
        if !write_attribute(out, &attributes[i], version) {
            assert(!encodable_attribute(views(attributes@)[i as int], version));
            return false;
        }
        proof {
            let all = views(attributes@);
            lemma_put_attributes_push(all.take(i as int), all[i as int], version);
            assert(all.take(i + 1) =~= all.take(i as int).push(all[i as int]));
            assert(out@ =~= head + put_attributes(all.take(i + 1), version));
        }
        i = i + 1;
    }
    proof {
        assert(views(attributes@).take(n as int) =~= views(attributes@));
        assert(out@ =~= old(out)@ + put_attribute_list(views(attributes@), version));
    }
    true
}

/// Appends the dimension ids of a variable.
pub fn write_dimension_ids(out: &mut Vec<u8>, ids: &Vec<u32>)
    ensures
        final(out)@ == old(out)@ + put_dimension_ids(ids@),
{
    let n: usize = ids.len();
    let mut i: usize = 0;
    assert(ids@.take(0) =~= Seq::empty());
    assert(out@ =~= old(out)@ + put_dimension_ids(ids@.take(0)));
    while i < n
        invariant
            n == ids.len(),
            i <= n,
            out@ == old(out)@ + put_dimension_ids(ids@.take(i as int)),
        decreases n - i,
    {
        write_u32(out, ids[i]);
        proof {
            lemma_put_dimension_ids_push(ids@.take(i as int), ids@[i as int]);
            assert(ids@.take(i + 1) =~= ids@.take(i as int).push(ids@[i as int]));
            assert(out@ =~= old(out)@ + put_dimension_ids(ids@.take(i + 1)));
        }
        i = i + 1;
    }
    assert(ids@.take(n as int) =~= ids@);
}

/// Appends the offset of a variable's data in the width that the version
/// fixes.
pub fn write_offset(out: &mut Vec<u8>, begin: u64, version: FormatVersion) -> (fits: bool)
    ensures
        fits == (version.spec_offset_width() == 32 ==> begin <= u32::MAX),
        fits ==> final(out)@ == old(out)@ + put_offset(begin, version),
{
    if version.offset_width() == 32 {
        if begin > 0xffff_ffff {
            false
        } else {
            write_u32(out, begin as u32);
            true
        }
    } else {
        write_u64(out, begin);
        true
    }
}

/// Appends one variable.
pub fn write_variable(out: &mut Vec<u8>, variable: &Variable, version: FormatVersion) -> (fits: bool)
    ensures
        fits == encodable_variable(variable@, version),
        fits ==> final(out)@ == old(out)@ + put_variable(variable@, version),
{
    let rank: usize = variable.dimensions.len();
    if rank as u64 > 0xffff_ffff || variable.size < 0 || variable.size > 0xffff_ffff {
        return false;
    }
    let ghost start = old(out)@;
    if !write_name(out, &variable.name) {
        return false;
    }
    let ghost part = put_name(variable@.name);
    write_u32(out, rank as u32);
    proof {
        lemma_join_three(start, part, put_u32(rank as u32));
    }
    let ghost part = part + put_u32(rank as u32);
    write_dimension_ids(out, &variable.dimensions);
    proof {
        lemma_join_three(start, part, put_dimension_ids(variable@.dimensions));
    }
    let ghost part = part + put_dimension_ids(variable@.dimensions);
    if !write_attribute_list(out, &variable.attributes, version) {
        return false;
    }
    proof {
        lemma_join_three(start, part, put_attribute_list(variable@.attributes, version));
    }
    let ghost part = part + put_attribute_list(variable@.attributes, version);
    write_u32(out, variable.dtype.code() as u32);
    proof {
        lemma_join_three(start, part, put_u32(variable@.dtype.spec_code() as u32));
    }
    let ghost part = part + put_u32(variable@.dtype.spec_code() as u32);
    write_u32(out, variable.size as u32);
    proof {
        lemma_join_three(start, part, put_u32(variable@.size as u32));
    }
    let ghost part = part + put_u32(variable@.size as u32);
    if !write_offset(out, variable.begin, version) {
        return false;
    }
    proof {
        lemma_join_three(start, part, put_offset(variable@.begin, version));
    }
    let ghost part = part + put_offset(variable@.begin, version);
    assert(out@ == start + part);
    assert(part == put_variable(variable@, version));
    true
}

/// Appends the list of variables.
pub fn write_variable_list(out: &mut Vec<u8>, variables: &Vec<Variable>, version: FormatVersion) -> (fits:
    bool)
    ensures
        fits == (encodable_count(variables@.len() as int, version) && encodable_variables(
            views(variables@),
            version,
        )),
        fits ==> final(out)@ == old(out)@ + put_variable_list(views(variables@), version),
{
    let n: usize = variables.len();
    if !write_list_header(out, TAG_VARIABLE, n, version) {
        return false;
    }
    let ghost head = out@;
    let mut i: usize = 0;
    assert(views(variables@).take(0) =~= Seq::empty());
    assert(out@ =~= head + put_variables(views(variables@).take(0), version));
    while i < n
        invariant
            n == variables.len(),
            i <= n,
            out@ == head + put_variables(views(variables@).take(i as int), version),
            forall|j: int| 0 <= j < i ==> encodable_variable(#[trigger] views(variables@)[j], version),
        decreases n - i,
    {
        if !write_variable(out, &variables[i], version) {
            assert(!encodable_variable(views(variables@)[i as int], version));
            return false;
        }
        proof {
            let all = views(variables@);
            lemma_put_variables_push(all.take(i as int), all[i as int], version);
            assert(all.take(i + 1) =~= all.take(i as int).push(all[i as int]));
            assert(out@ =~= head + put_variables(all.take(i + 1), version));
        }
        i = i + 1;
    }
    proof {
        assert(views(variables@).take(n as int) =~= views(variables@));
        assert(out@ =~= old(out)@ + put_variable_list(views(variables@), version));
    }
    true
}

} // verus!
