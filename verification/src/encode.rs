//! The bytes that stand for a value in a header: the inverse of the layout in
//! [`crate::grammar`], as mathematical functions from values to bytes.

use vstd::prelude::*;
use vstd::utf8::encode_utf8;
use crate::attributes::AttributeView;
use crate::constants::{TAG_ABSENT, TAG_ATTRIBUTE, TAG_DIMENSION, TAG_VARIABLE};
use crate::dataset::DatasetView;
use crate::dimension::DimensionView;
use crate::grammar::{magic, streaming_mark};
use crate::helpers::spec_padding_for;
use crate::variable::VariableView;
use crate::version::FormatVersion;

verus! {

/// The four bytes of `v`, most significant first.
pub open spec fn put_u32(v: u32) -> Seq<u8> {
    seq![
        (v / 0x100_0000) as u8,
        (v / 0x1_0000 % 0x100) as u8,
        (v / 0x100 % 0x100) as u8,
        (v % 0x100) as u8,
    ]
}

/// The eight bytes of `v`, most significant first.
pub open spec fn put_u64(v: u64) -> Seq<u8> {
    put_u32((v / 0x1_0000_0000) as u32) + put_u32((v % 0x1_0000_0000) as u32)
}

/// `n` bytes that are zero.
pub open spec fn zeros(n: int) -> Seq<u8> {
    Seq::new(n as nat, |i: int| 0u8)
}

/// A name: the length of its UTF-8 form, that form, and zeros up to a
/// multiple of four.
pub open spec fn put_name(name: Seq<char>) -> Seq<u8> {
    let raw = encode_utf8(name);
    put_u32(raw.len() as u32) + raw + zeros(spec_padding_for(raw.len() as int))
}

/// A count in the width that the version fixes.
pub open spec fn put_count(n: u64, version: FormatVersion) -> Seq<u8> {
    if version.spec_wide_counts() {
        put_u64(n)
    } else {
        put_u32(n as u32)
    }
}

/// The number of records; all bits set where it is left open.
pub open spec fn put_numrecs(numrecs: Option<u64>, version: FormatVersion) -> Seq<u8> {
    put_count(
        match numrecs {
            Some(n) => n,
            None => streaming_mark(version),
        },
        version,
    )
}

/// The head of a list of `count` entries: the tag of the section, or the
/// absent tag where the list is empty, and the count.
pub open spec fn put_list_header(tag: u32, count: int, version: FormatVersion) -> Seq<u8> {
    if count == 0 {
        put_u32(TAG_ABSENT) + put_count(0, version)
    } else {
        put_u32(tag) + put_count(count as u64, version)
    }
}

/// One dimension.
pub open spec fn put_dimension(dimension: DimensionView) -> Seq<u8> {
    put_name(dimension.name) + put_u32(dimension.length as u32)
}

/// The entries of a dimension list.
pub open spec fn put_dimensions(dimensions: Seq<DimensionView>) -> Seq<u8>
    decreases dimensions.len(),
{
    if dimensions.len() == 0 {
        Seq::empty()
    } else {
        put_dimension(dimensions.first()) + put_dimensions(dimensions.drop_first())
    }
}

/// The list of dimensions.
pub open spec fn put_dimension_list(dimensions: Seq<DimensionView>, version: FormatVersion) -> Seq<u8> {
    put_list_header(TAG_DIMENSION, dimensions.len() as int, version) + put_dimensions(dimensions)
}

/// One attribute.
pub open spec fn put_attribute(attribute: AttributeView, version: FormatVersion) -> Seq<u8> {
    put_name(attribute.name) + put_u32(attribute.value.dtype.spec_code() as u32) + put_count(
        attribute.value.count,
        version,
    ) + attribute.value.raw + zeros(spec_padding_for(attribute.value.raw.len() as int))
}

/// The entries of an attribute list.
pub open spec fn put_attributes(attributes: Seq<AttributeView>, version: FormatVersion) -> Seq<u8>
    decreases attributes.len(),
{
    if attributes.len() == 0 {
        Seq::empty()
    } else {
        put_attribute(attributes.first(), version) + put_attributes(attributes.drop_first(), version)
    }
}

/// A list of attributes.
pub open spec fn put_attribute_list(attributes: Seq<AttributeView>, version: FormatVersion) -> Seq<u8> {
    put_list_header(TAG_ATTRIBUTE, attributes.len() as int, version) + put_attributes(attributes, version)
}

/// The dimension ids of a variable.
pub open spec fn put_dimension_ids(ids: Seq<u32>) -> Seq<u8>
    decreases ids.len(),
{
    if ids.len() == 0 {
        Seq::empty()
    } else {
        put_u32(ids.first()) + put_dimension_ids(ids.drop_first())
    }
}

/// The offset of a variable's data in the width that the version fixes.
pub open spec fn put_offset(begin: u64, version: FormatVersion) -> Seq<u8> {
    if version.spec_offset_width() == 32 {
        put_u32(begin as u32)
    } else {
        put_u64(begin)
    }
}

/// One variable.
pub open spec fn put_variable(variable: VariableView, version: FormatVersion) -> Seq<u8> {
    put_name(variable.name) + put_u32(variable.dimensions.len() as u32) + put_dimension_ids(
        variable.dimensions,
    ) + put_attribute_list(variable.attributes, version) + put_u32(variable.dtype.spec_code() as u32)
        + put_u32(variable.size as u32) + put_offset(variable.begin, version)
}

/// The entries of a variable list.
pub open spec fn put_variables(variables: Seq<VariableView>, version: FormatVersion) -> Seq<u8>
    decreases variables.len(),
{
    if variables.len() == 0 {
        Seq::empty()
    } else {
        put_variable(variables.first(), version) + put_variables(variables.drop_first(), version)
    }
}

/// The list of variables.
pub open spec fn put_variable_list(variables: Seq<VariableView>, version: FormatVersion) -> Seq<u8> {
    put_list_header(TAG_VARIABLE, variables.len() as int, version) + put_variables(variables, version)
}

/// A whole header.
pub open spec fn put_header(dataset: DatasetView) -> Seq<u8> {
    magic() + seq![dataset.version.spec_byte()] + put_numrecs(dataset.numrecs, dataset.version)
        + put_dimension_list(dataset.dimensions, dataset.version) + put_attribute_list(
        dataset.attributes,
        dataset.version,
    ) + put_variable_list(dataset.variables, dataset.version)
}

/// Whether a name is short enough for its length to fit in four bytes.
pub open spec fn encodable_name(name: Seq<char>) -> bool {
    encode_utf8(name).len() <= u32::MAX
}

/// Whether a count fits in the width that the version fixes.
pub open spec fn encodable_count(n: int, version: FormatVersion) -> bool {
    if version.spec_wide_counts() {
        n <= u64::MAX
    } else {
        n <= u32::MAX
    }
}

/// Whether a record count can be told from the mark that leaves it open, and
/// fits.
pub open spec fn encodable_numrecs(numrecs: Option<u64>, version: FormatVersion) -> bool {
    match numrecs {
        Some(n) => n < streaming_mark(version),
        None => true,
    }
}

/// Whether a dimension can be written: its name and its length fit.
pub open spec fn encodable_dimension(dimension: DimensionView) -> bool {
    encodable_name(dimension.name) && dimension.length <= u32::MAX
}

/// Whether all of the dimensions can be written.
pub open spec fn encodable_dimensions(dimensions: Seq<DimensionView>) -> bool {
    forall|i: int| 0 <= i < dimensions.len() ==> encodable_dimension(#[trigger] dimensions[i])
}

/// Whether an attribute can be written: its name and its count fit, and it
/// has as many bytes as its elements take.
pub open spec fn encodable_attribute(attribute: AttributeView, version: FormatVersion) -> bool {
    &&& encodable_name(attribute.name)
    &&& encodable_count(attribute.value.count as int, version)
    &&& attribute.value.wf()
}

/// Whether all of the attributes can be written.
pub open spec fn encodable_attributes(attributes: Seq<AttributeView>, version: FormatVersion) -> bool {
    forall|i: int| 0 <= i < attributes.len() ==> encodable_attribute(#[trigger] attributes[i], version)
}

/// Whether a list of attributes can be written.
pub open spec fn encodable_attribute_list(attributes: Seq<AttributeView>, version: FormatVersion) -> bool {
    encodable_count(attributes.len() as int, version) && encodable_attributes(attributes, version)
}

/// Whether a variable can be written: its name, its rank, its attributes, its
/// declared size and its offset fit.
pub open spec fn encodable_variable(variable: VariableView, version: FormatVersion) -> bool {
    &&& encodable_name(variable.name)
    &&& variable.dimensions.len() <= u32::MAX
    &&& encodable_attribute_list(variable.attributes, version)
    &&& 0 <= variable.size <= u32::MAX
    &&& version.spec_offset_width() == 32 ==> variable.begin <= u32::MAX
}

/// Whether all of the variables can be written.
pub open spec fn encodable_variables(variables: Seq<VariableView>, version: FormatVersion) -> bool {
    forall|i: int| 0 <= i < variables.len() ==> encodable_variable(#[trigger] variables[i], version)
}

/// Whether a dataset can be written as a header of its own format version.
pub open spec fn encodable_header(dataset: DatasetView) -> bool {
    &&& encodable_numrecs(dataset.numrecs, dataset.version)
    &&& encodable_count(dataset.dimensions.len() as int, dataset.version)
    &&& encodable_dimensions(dataset.dimensions)
    &&& encodable_attribute_list(dataset.attributes, dataset.version)
    &&& encodable_count(dataset.variables.len() as int, dataset.version)
    &&& encodable_variables(dataset.variables, dataset.version)
}

/// Joining three pieces of bytes does not depend on the grouping.
pub proof fn lemma_join_three(a: Seq<u8>, b: Seq<u8>, c: Seq<u8>)
    ensures
        a + (b + c) == (a + b) + c,
        Seq::<u8>::empty() + a == a,
        a + Seq::<u8>::empty() == a,
{
    assert(a + (b + c) =~= (a + b) + c);
    assert(Seq::<u8>::empty() + a =~= a);
    assert(a + Seq::<u8>::empty() =~= a);
}

/// The entries of a dimension list with one more entry at the end.
pub proof fn lemma_put_dimensions_push(dimensions: Seq<DimensionView>, last: DimensionView)
    ensures
        put_dimensions(dimensions.push(last)) == put_dimensions(dimensions) + put_dimension(last),
    decreases dimensions.len(),
{
    let all = dimensions.push(last);
    if dimensions.len() == 0 {
        assert(all.first() == last);
        assert(all.drop_first() =~= Seq::<DimensionView>::empty());
        assert(put_dimensions(Seq::<DimensionView>::empty()) == Seq::<u8>::empty());
        assert(put_dimensions(dimensions) == Seq::<u8>::empty());
        lemma_join_three(put_dimension(last), Seq::empty(), Seq::empty());
    } else {
        lemma_put_dimensions_push(dimensions.drop_first(), last);
        assert(all.first() == dimensions.first());
        assert(all.drop_first() =~= dimensions.drop_first().push(last));
        lemma_join_three(
            put_dimension(dimensions.first()),
            put_dimensions(dimensions.drop_first()),
            put_dimension(last),
        );
    }
}

/// The entries of an attribute list with one more entry at the end.
pub proof fn lemma_put_attributes_push(attributes: Seq<AttributeView>, last: AttributeView, version: FormatVersion)
    ensures
        put_attributes(attributes.push(last), version) == put_attributes(attributes, version) + put_attribute(
            last,
            version,
        ),
    decreases attributes.len(),
{
    let all = attributes.push(last);
    if attributes.len() == 0 {
        assert(all.first() == last);
        assert(all.drop_first() =~= Seq::<AttributeView>::empty());
        assert(put_attributes(Seq::<AttributeView>::empty(), version) == Seq::<u8>::empty());
        assert(put_attributes(attributes, version) == Seq::<u8>::empty());
        lemma_join_three(put_attribute(last, version), Seq::empty(), Seq::empty());
    } else {
        lemma_put_attributes_push(attributes.drop_first(), last, version);
        assert(all.first() == attributes.first());
        assert(all.drop_first() =~= attributes.drop_first().push(last));
        lemma_join_three(
            put_attribute(attributes.first(), version),
            put_attributes(attributes.drop_first(), version),
            put_attribute(last, version),
        );
    }
}

/// The dimension ids of a variable with one more id at the end.
pub proof fn lemma_put_dimension_ids_push(ids: Seq<u32>, last: u32)
    ensures
        put_dimension_ids(ids.push(last)) == put_dimension_ids(ids) + put_u32(last),
    decreases ids.len(),
{
    let all = ids.push(last);
    if ids.len() == 0 {
        assert(all.first() == last);
        assert(all.drop_first() =~= Seq::<u32>::empty());
        assert(put_dimension_ids(Seq::<u32>::empty()) == Seq::<u8>::empty());
        assert(put_dimension_ids(ids) == Seq::<u8>::empty());
        lemma_join_three(put_u32(last), Seq::empty(), Seq::empty());
    } else {
        lemma_put_dimension_ids_push(ids.drop_first(), last);
        assert(all.first() == ids.first());
        assert(all.drop_first() =~= ids.drop_first().push(last));
        lemma_join_three(put_u32(ids.first()), put_dimension_ids(ids.drop_first()), put_u32(last));
    }
}

/// The entries of a variable list with one more entry at the end.
pub proof fn lemma_put_variables_push(variables: Seq<VariableView>, last: VariableView, version: FormatVersion)
    ensures
        put_variables(variables.push(last), version) == put_variables(variables, version) + put_variable(
            last,
            version,
        ),
    decreases variables.len(),
{
    let all = variables.push(last);
    if variables.len() == 0 {
        assert(all.first() == last);
        assert(all.drop_first() =~= Seq::<VariableView>::empty());
        assert(put_variables(Seq::<VariableView>::empty(), version) == Seq::<u8>::empty());
        assert(put_variables(variables, version) == Seq::<u8>::empty());
        lemma_join_three(put_variable(last, version), Seq::empty(), Seq::empty());
    } else {
        lemma_put_variables_push(variables.drop_first(), last, version);
        assert(all.first() == variables.first());
        assert(all.drop_first() =~= variables.drop_first().push(last));
        lemma_join_three(
            put_variable(variables.first(), version),
            put_variables(variables.drop_first(), version),
            put_variable(last, version),
        );
    }
}

} // verus!
