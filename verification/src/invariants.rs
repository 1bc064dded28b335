//! What holds of every header that decodes, stated over the byte layout.

use vstd::prelude::*;
use crate::constants::{TAG_DIMENSION, TAG_VARIABLE};
use crate::dataset::{
    check_dimension_refs, dimensions_wf, has_unlimited, variable_wf, DatasetView,
};
use crate::dimension::DimensionView;
use crate::error::{DecodeError, Error, State};
use crate::grammar::{
    check_dimension_ref, in_state, magic, take_attribute_list, take_dimension, take_dimension_ids,
    take_dimension_list, take_dimensions, take_header, take_list_header, take_name, take_numrecs,
    take_u32, take_variable, take_variable_list, take_variables,
};
use crate::version::FormatVersion;

verus! {

/// A dimension that decodes is the record dimension exactly if its length is
/// zero.
pub proof fn lemma_dimension_wf(data: Seq<u8>, pos: int)
    requires
        take_dimension(data, pos) is Ok,
    ensures
        take_dimension(data, pos)->Ok_0.0.wf(),
{
    reveal(take_dimension);
}

/// Among the entries of a dimension list that decodes, at most one is the
/// record dimension, and none is where an earlier entry was one already.
pub proof fn lemma_dimensions_wf(data: Seq<u8>, pos: int, index: int, count: int, seen_unlimited: bool)
    requires
        take_dimensions(data, pos, index, count, seen_unlimited) is Ok,
    ensures
        dimensions_wf(take_dimensions(data, pos, index, count, seen_unlimited)->Ok_0.0),
        seen_unlimited ==> !has_unlimited(take_dimensions(data, pos, index, count, seen_unlimited)->Ok_0.0),
    decreases count - index,
{
    if index < count {
        let (first, next) = take_dimension(data, pos)->Ok_0;
        lemma_dimension_wf(data, pos);
        let seen = seen_unlimited || first.is_unlimited;
        lemma_dimensions_wf(data, next, index + 1, count, seen);
        let rest = take_dimensions(data, next, index + 1, count, seen)->Ok_0.0;
        let all = take_dimensions(data, pos, index, count, seen_unlimited)->Ok_0.0;
        assert(all == seq![first] + rest);
        assert(all[0] == first);
        assert(forall|i: int| 0 <= i < rest.len() ==> all[i + 1] == rest[i]);
        assert forall|i: int| 0 <= i < all.len() implies (#[trigger] all[i]).wf() by {
            if i > 0 {
                assert(all[i] == rest[i - 1]);
            }
        }
        assert forall|i: int, j: int| 0 <= i < j < all.len() implies !((#[trigger] all[i]).is_unlimited
            && (#[trigger] all[j]).is_unlimited) by {
            assert(all[j] == rest[j - 1]);
            if i > 0 {
                assert(all[i] == rest[i - 1]);
            }
        }
        if seen_unlimited && has_unlimited(all) {
            let i = choose|i: int| 0 <= i < all.len() && (#[trigger] all[i]).is_unlimited;
            assert(all[i] == rest[i - 1]);
        }
    }
}

/// Every id of a variable that decodes names a dimension, and the record
/// dimension is named in first place only.
pub proof fn lemma_dimension_ids_checked(
    data: Seq<u8>,
    pos: int,
    place: int,
    rank: int,
    dimensions: Seq<DimensionView>,
)
    requires
        0 <= place,
        take_dimension_ids(data, pos, place, rank, dimensions) is Ok,
    ensures
        ({
            let ids = take_dimension_ids(data, pos, place, rank, dimensions)->Ok_0.0;
            forall|k: int| 0 <= k < ids.len() ==> check_dimension_ref(dimensions, place + k, #[trigger] ids[k]) is Ok
        }),
    decreases rank - place,
{
    if place < rank {
        let (id, next) = take_u32(data, pos)->Ok_0;
        lemma_dimension_ids_checked(data, next, place + 1, rank, dimensions);
        let rest = take_dimension_ids(data, next, place + 1, rank, dimensions)->Ok_0.0;
        let ids = take_dimension_ids(data, pos, place, rank, dimensions)->Ok_0.0;
        assert(ids == seq![id] + rest);
        assert forall|k: int| 0 <= k < ids.len() implies check_dimension_ref(
            dimensions,
            place + k,
            #[trigger] ids[k],
        ) is Ok by {
            if k > 0 {
                assert(ids[k] == rest[k - 1]);
            }
        }
    }
}

/// A variable that decodes fits the dimensions that it was decoded against.
pub proof fn lemma_variable_wf(data: Seq<u8>, pos: int, dimensions: Seq<DimensionView>, version: FormatVersion)
    requires
        take_variable(data, pos, dimensions, version) is Ok,
    ensures
        variable_wf(dimensions, take_variable(data, pos, dimensions, version)->Ok_0.0),
{
    reveal(take_variable);
    let after_name = take_name(data, pos)->Ok_0.1;
    let (rank, after_rank) = take_u32(data, after_name)->Ok_0;
    lemma_dimension_ids_checked(data, after_rank, 0, rank as int, dimensions);
}

/// Every variable of a list that decodes fits the dimensions.
pub proof fn lemma_variables_wf(
    data: Seq<u8>,
    pos: int,
    index: int,
    count: int,
    dimensions: Seq<DimensionView>,
    version: FormatVersion,
)
    requires
        take_variables(data, pos, index, count, dimensions, version) is Ok,
    ensures
        ({
            let variables = take_variables(data, pos, index, count, dimensions, version)->Ok_0.0;
            forall|v: int| 0 <= v < variables.len() ==> variable_wf(dimensions, #[trigger] variables[v])
        }),
    decreases count - index,
{
    if index < count {
        let (first, next) = take_variable(data, pos, dimensions, version)->Ok_0;
        lemma_variable_wf(data, pos, dimensions, version);
        lemma_variables_wf(data, next, index + 1, count, dimensions, version);
        let rest = take_variables(data, next, index + 1, count, dimensions, version)->Ok_0.0;
        let all = take_variables(data, pos, index, count, dimensions, version)->Ok_0.0;
        assert(all == seq![first] + rest);
        assert forall|v: int| 0 <= v < all.len() implies variable_wf(dimensions, #[trigger] all[v]) by {
            if v > 0 {
                assert(all[v] == rest[v - 1]);
            }
        }
    }
}

/// A header that decodes gives a dataset with at most one record dimension,
/// in which every variable names existing dimensions and the record
/// dimension in first place only.
pub proof fn lemma_header_wf(data: Seq<u8>, pos: int)
    requires
        take_header(data, pos) is Ok,
    ensures
        take_header(data, pos)->Ok_0.0.wf(),
{
    reveal(take_dimension_list);
    reveal(take_variable_list);
    let header = take_header(data, pos)->Ok_0.0;
    let after_magic = pos + 3;
    let version = header.version;
    let after_version = after_magic + 1;
    let after_numrecs = take_numrecs(data, after_version, version)->Ok_0.1;
    let (count, start) = take_list_header(
        data,
        after_numrecs,
        TAG_DIMENSION,
        version,
    )->Ok_0;
    lemma_dimensions_wf(data, start, 0, count as int, false);
    let after_dimensions = take_dimension_list(data, after_numrecs, version)->Ok_0.1;
    let after_attributes = take_attribute_list(data, after_dimensions, version)->Ok_0.1;
    let (vcount, vstart) = take_list_header(
        data,
        after_attributes,
        TAG_VARIABLE,
        version,
    )->Ok_0;
    lemma_variables_wf(data, vstart, 0, vcount as int, header.dimensions, version);
}

/// Where every id names a dimension and some place after the first names the
/// record dimension, checking the ids fails, and for this reason.
pub proof fn lemma_misplaced_record_dimension(dimensions: Seq<DimensionView>, ids: Seq<u32>, place: int)
    requires
        forall|k: int| 0 <= k < ids.len() ==> #[trigger] ids[k] < dimensions.len(),
        0 < place < ids.len(),
        dimensions[ids[place] as int].is_unlimited,
    ensures
        check_dimension_refs(dimensions, ids, 0) == Err::<(), Error>(Error::InvalidRecordDimensionPlacement),
{
    lemma_misplaced_from(dimensions, ids, place, 0);
}

/// The same, checking from place `from` on.
pub proof fn lemma_misplaced_from(dimensions: Seq<DimensionView>, ids: Seq<u32>, place: int, from: int)
    requires
        forall|k: int| 0 <= k < ids.len() ==> #[trigger] ids[k] < dimensions.len(),
        0 < place < ids.len(),
        0 <= from <= place,
        dimensions[ids[place] as int].is_unlimited,
    ensures
        check_dimension_refs(dimensions, ids, from) == Err::<(), Error>(
            Error::InvalidRecordDimensionPlacement,
        ),
    decreases place - from,
{
    assert(ids[from] < dimensions.len());
    if from < place {
        lemma_misplaced_from(dimensions, ids, place, from + 1);
    }
}

/// Where an id names no dimension, and no earlier place breaks a rule,
/// checking the ids fails for the unknown id.
pub proof fn lemma_unknown_dimension(dimensions: Seq<DimensionView>, ids: Seq<u32>, place: int, from: int)
    requires
        0 <= from <= place < ids.len(),
        ids[place] >= dimensions.len(),
        forall|k: int| from <= k < place ==> check_dimension_ref(dimensions, k, #[trigger] ids[k]) is Ok,
    ensures
        check_dimension_refs(dimensions, ids, from) == Err::<(), Error>(Error::UnknownDimensionId),
    decreases place - from,
{
    if from < place {
        assert(check_dimension_ref(dimensions, from, ids[from]) is Ok);
        lemma_unknown_dimension(dimensions, ids, place, from + 1);
    }
}

/// Checking the ids succeeds exactly where every place keeps both rules.
pub proof fn lemma_check_dimension_refs(dimensions: Seq<DimensionView>, ids: Seq<u32>, from: int)
    requires
        0 <= from,
    ensures
        check_dimension_refs(dimensions, ids, from) is Ok <==> forall|k: int|
            from <= k < ids.len() ==> check_dimension_ref(dimensions, k, #[trigger] ids[k]) is Ok,
    decreases ids.len() - from,
{
    if from < ids.len() {
        lemma_check_dimension_refs(dimensions, ids, from + 1);
        if check_dimension_ref(dimensions, from, ids[from]) is Ok {
            if check_dimension_refs(dimensions, ids, from + 1) is Ok {
            }
        }
    }
}

/// Bytes that do not start with the magic are no header, whatever follows
/// the first three of them.
pub proof fn lemma_wrong_magic(data: Seq<u8>, pos: int)
    requires
        0 <= pos,
        pos + 3 <= data.len(),
        data.subrange(pos, pos + 3) != magic(),
    ensures
        take_header(data, pos) == Err::<(DatasetView, int), DecodeError>(
            in_state(Error::NotACdfFile, State::ExpectMagic),
        ),
{
}

/// After the magic, a version byte other than 1, 2 and 5 fails the header,
/// whatever follows it.
pub proof fn lemma_unknown_version(data: Seq<u8>, pos: int)
    requires
        0 <= pos,
        pos + 4 <= data.len(),
        data.subrange(pos, pos + 3) == magic(),
        data[pos + 3] != 1 && data[pos + 3] != 2 && data[pos + 3] != 5,
    ensures
        take_header(data, pos) == Err::<(DatasetView, int), DecodeError>(
            in_state(Error::UnsupportedVersion, State::ExpectVersion),
        ),
{
    assert(data.subrange(pos + 3, pos + 4)[0] == data[pos + 3]);
}

} // verus!
