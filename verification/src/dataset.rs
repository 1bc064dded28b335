//! The decoded header: dimensions, attributes and variables of one dataset.

use vstd::prelude::*;
use crate::attributes::{Attribute, AttributeView};
use crate::decode::{read_attrs, read_dims, read_numrecs, read_vars};
use crate::dimension::{Dimension, DimensionView};
use crate::encode::{
    encodable_header, put_attribute_list, put_dimension_list, put_header, put_numrecs,
    put_variable_list,
};
use crate::writer::{write_attribute_list, write_dimension_list, write_numrecs, write_variable_list};
use crate::error::{DecodeError, Error, State};
use crate::grammar::{check_dimension_ref, lemma_views_push, magic, take_header, views};
use crate::layout::{Layout, LayoutView};
use crate::lookup::{as_int, find_last, last_index_of, names};
use crate::reader::ByteReader;
use crate::variable::{Variable, VariableView};
use crate::version::FormatVersion;

verus! {

/// What a [`Dataset`] holds, as mathematical values.
pub struct DatasetView {
    pub source: Option<Seq<char>>,
    pub version: FormatVersion,
    pub numrecs: Option<u64>,
    pub dimensions: Seq<DimensionView>,
    pub attributes: Seq<AttributeView>,
    pub variables: Seq<VariableView>,
}

/// Whether one of the dimensions is the record dimension.
pub open spec fn has_unlimited(dimensions: Seq<DimensionView>) -> bool {
    exists|i: int| 0 <= i < dimensions.len() && (#[trigger] dimensions[i]).is_unlimited
}

/// Whether at most one of the dimensions is the record dimension, and each
/// flag says what the length says.
pub open spec fn dimensions_wf(dimensions: Seq<DimensionView>) -> bool {
    &&& forall|i: int| 0 <= i < dimensions.len() ==> (#[trigger] dimensions[i]).wf()
    &&& forall|i: int, j: int|
        0 <= i < j < dimensions.len() ==> !((#[trigger] dimensions[i]).is_unlimited
            && (#[trigger] dimensions[j]).is_unlimited)
}

/// Whether every dimension that a variable names exists, and the record
/// dimension is named in first place only.
pub open spec fn variable_wf(dimensions: Seq<DimensionView>, variable: VariableView) -> bool {
    forall|place: int|
        0 <= place < variable.dimensions.len() ==> check_dimension_ref(
            dimensions,
            place,
            #[trigger] variable.dimensions[place],
        ) is Ok
}

/// The first reason for which `ids` from place `place` on cannot be the
/// dimensions of a variable, if there is one.
pub open spec fn check_dimension_refs(dimensions: Seq<DimensionView>, ids: Seq<u32>, place: int) -> Result<
    (),
    Error,
>
    decreases ids.len() - place,
{
    if place < 0 || place >= ids.len() {
        Ok(())
    } else {
        match check_dimension_ref(dimensions, place, ids[place]) {
            Err(e) => Err(e),
            Ok(_) => check_dimension_refs(dimensions, ids, place + 1),
        }
    }
}

impl DatasetView {
    /// A dataset without a source, a dimension, an attribute or a variable.
    pub open spec fn empty() -> DatasetView {
        DatasetView {
            source: None,
            version: FormatVersion::V1_32BIT,
            numrecs: Some(0),
            dimensions: Seq::empty(),
            attributes: Seq::empty(),
            variables: Seq::empty(),
        }
    }

    /// The invariant of a dataset.
    pub open spec fn wf(self) -> bool {
        &&& dimensions_wf(self.dimensions)
        &&& forall|v: int|
            0 <= v < self.variables.len() ==> variable_wf(self.dimensions, #[trigger] self.variables[v])
    }

    /// Whether variable `v` is a record variable: its first dimension is the
    /// record dimension.
    pub open spec fn is_record_variable(self, v: int) -> bool {
        let ids = self.variables[v].dimensions;
        ids.len() > 0 && ids[0] < self.dimensions.len() && self.dimensions[ids[0] as int].is_unlimited
    }

    /// The lengths of the dimensions of variable `v`, the record dimension
    /// left out.
    pub open spec fn extents(self, v: int) -> Seq<u64> {
        let ids = self.variables[v].dimensions;
        let skipped: int = if self.is_record_variable(v) {
            1
        } else {
            0
        };
        Seq::new((ids.len() - skipped) as nat, |i: int| self.dimensions[ids[i + skipped] as int].length)
    }

    /// The layout of variable `v`.
    pub open spec fn layout(self, v: int) -> LayoutView {
        LayoutView {
            is_record_variable: self.is_record_variable(v),
            extents: self.extents(v),
            dtype: self.variables[v].dtype,
            begin: self.variables[v].begin,
            record_count: self.record_count(),
        }
    }

    /// The names of the dimensions, in file order.
    pub open spec fn dimension_names(self) -> Seq<Seq<char>> {
        Seq::new(self.dimensions.len(), |i: int| self.dimensions[i].name)
    }

    /// The names of the attributes, in file order.
    pub open spec fn attribute_names(self) -> Seq<Seq<char>> {
        Seq::new(self.attributes.len(), |i: int| self.attributes[i].name)
    }

    /// The names of the variables, in file order.
    pub open spec fn variable_names(self) -> Seq<Seq<char>> {
        Seq::new(self.variables.len(), |i: int| self.variables[i].name)
    }

    /// The number of records: what the header says where there is a record
    /// dimension (`None` where it leaves the number open), zero where there is
    /// none.
    pub open spec fn record_count(self) -> Option<u64> {
        if has_unlimited(self.dimensions) {
            self.numrecs
        } else {
            Some(0)
        }
    }
}

/// A dataset: where it came from, its format, and its dimensions, attributes
/// and variables in file order. Every dimension that a variable names exists,
/// at most one dimension is the record dimension, and no variable names it
/// anywhere but in first place.
#[derive(Debug)]
pub struct Dataset {
    source: Option<String>,
    version: FormatVersion,
    numrecs: Option<u64>,
    dimensions: Vec<Dimension>,
    attributes: Vec<Attribute>,
    variables: Vec<Variable>,
}

impl View for Dataset {
    type V = DatasetView;

    closed spec fn view(&self) -> DatasetView {
        DatasetView {
            source: match self.source {
                Some(s) => Some(s@),
                None => None,
            },
            version: self.version,
            numrecs: self.numrecs,
            dimensions: views(self.dimensions@),
            attributes: views(self.attributes@),
            variables: views(self.variables@),
        }
    }
}

impl Dataset {
    #[verifier::type_invariant]
    spec fn inv(self) -> bool {
        self@.wf()
    }

    /// Makes an empty dataset in the first format variant.
    pub fn new() -> (dataset: Dataset)
        ensures
            dataset@ == DatasetView::empty(),
    {
        let dataset = Dataset {
            source: None,
            version: FormatVersion::V1_32BIT,
            numrecs: Some(0),
            dimensions: Vec::new(),
            attributes: Vec::new(),
            variables: Vec::new(),
        };
        assert(dataset@.dimensions =~= Seq::empty());
        assert(dataset@.attributes =~= Seq::empty());
        assert(dataset@.variables =~= Seq::empty());
        dataset
    }

    /// Decodes a header at the cursor of `fp`: magic, version, record count,
    /// dimensions, attributes and variables, in this order. The first failure
    /// ends the decode, and nothing of what was read is returned.
    pub fn decode(fp: &mut ByteReader) -> (r: Result<Dataset, DecodeError>)
        ensures
            final(fp).bytes() == old(fp).bytes(),
            match take_header(old(fp).bytes(), old(fp).cursor()) {
                Ok((header, end)) => r is Ok && r->Ok_0@ == header && final(fp).cursor() == end,
                Err(e) => r == Err::<Dataset, DecodeError>(e),
            },
            r is Ok ==> r->Ok_0@.wf(),
            r is Err && r->Err_0.state == State::ExpectMagic && r->Err_0.kind == Error::NotACdfFile
                ==> final(fp).cursor() == old(fp).cursor() + 3,
    {
        let found = match fp.read_bytes(3) {
            Ok(found) => found,
            Err(e) => return Err(DecodeError { kind: e, state: State::ExpectMagic, entry: None }),
        };
        if !(found[0] == 0x43 && found[1] == 0x44 && found[2] == 0x46) {
            proof {
                assert(found@ != magic());
            }
            return Err(DecodeError { kind: Error::NotACdfFile, state: State::ExpectMagic, entry: None });
        }
        assert(found@ =~= magic());
        let byte: u8 = match fp.read_u8() {
            Ok(byte) => byte,
            Err(e) => return Err(DecodeError { kind: e, state: State::ExpectVersion, entry: None }),
        };
        let version = match FormatVersion::from_byte(byte) {
            Ok(version) => version,
            Err(e) => return Err(DecodeError { kind: e, state: State::ExpectVersion, entry: None }),
        };
        let numrecs = match read_numrecs(fp, version) {
            Ok(numrecs) => numrecs,
            Err(e) => return Err(DecodeError { kind: e, state: State::ExpectNumrecs, entry: None }),
        };
        let dimensions = match read_dims(fp, version) {
            Ok(dimensions) => dimensions,
            Err(e) => return Err(DecodeError { kind: e.kind, state: State::ExpectDimList, entry: e.entry }),
        };
        let attributes = match read_attrs(fp, version) {
            Ok(attributes) => attributes,
            Err(e) => return Err(
                DecodeError { kind: e.kind, state: State::ExpectGlobalAttrList, entry: e.entry },
            ),
        };
        let variables = match read_vars(fp, &dimensions, version) {
            Ok(variables) => variables,
            Err(e) => return Err(DecodeError { kind: e.kind, state: State::ExpectVarList, entry: e.entry }),
        };
        Ok(Dataset { source: None, version, numrecs, dimensions, attributes, variables })
    }

    /// Decodes the header that `bytes` start with, as the content of the file
    /// called `filename`.
    pub fn open(filename: String, bytes: &[u8]) -> (r: Result<Dataset, DecodeError>)
        ensures
            match take_header(bytes@, 0) {
                Ok((header, _)) => r is Ok && r->Ok_0@ == (DatasetView { source: Some(filename@), ..header }),
                Err(e) => r == Err::<Dataset, DecodeError>(e),
            },
            r is Ok ==> r->Ok_0@.wf(),
    {
        let mut fp = ByteReader::new(bytes);
        match Dataset::decode(&mut fp) {
            Ok(decoded) => {
                let mut dataset = decoded;
                dataset.source = Some(filename);
                Ok(dataset)
            },
            Err(e) => Err(e),
        }
    }

    /// Returns the name of the file that the dataset was read from, if any.
    pub fn source(&self) -> (source: Option<&String>)
        ensures
            match source {
                Some(name) => self@.source == Some(name@),
                None => self@.source is None,
            },
    {
        self.source.as_ref()
    }

    /// Returns the format variant.
    pub fn version(&self) -> (version: FormatVersion)
        ensures
            version == self@.version,
    {
        self.version
    }

    /// Returns the record count as the header states it; `None` where the
    /// header leaves it open.
    pub fn numrecs(&self) -> (numrecs: Option<u64>)
        ensures
            numrecs == self@.numrecs,
    {
        self.numrecs
    }

    /// Returns the dimensions, in file order.
    pub fn dimensions(&self) -> (dimensions: &Vec<Dimension>)
        ensures
            views(dimensions@) == self@.dimensions,
            self@.wf(),
    {
        proof {
            use_type_invariant(self);
        }
        &self.dimensions
    }

    /// Returns the attributes of the dataset, in file order.
    pub fn attributes(&self) -> (attributes: &Vec<Attribute>)
        ensures
            views(attributes@) == self@.attributes,
    {
        &self.attributes
    }

    /// Returns the variables, in file order.
    pub fn variables(&self) -> (variables: &Vec<Variable>)
        ensures
            views(variables@) == self@.variables,
            self@.wf(),
    {
        proof {
            use_type_invariant(self);
        }
        &self.variables
    }

    /// Returns the index of the record dimension, if the dataset has one.
    pub fn record_dimension(&self) -> (found: Option<usize>)
        ensures
            match found {
                Some(i) => i < self@.dimensions.len() && self@.dimensions[i as int].is_unlimited,
                None => !has_unlimited(self@.dimensions),
            },
    {
        let n: usize = self.dimensions.len();
        let mut i: usize = 0;
        while i < n
            invariant
                n == self.dimensions.len(),
                i <= n,
                forall|j: int| 0 <= j < i ==> !(#[trigger] views(self.dimensions@)[j]).is_unlimited,
            decreases n - i,
        {
            if self.dimensions[i].is_unlimited {
                return Some(i);
            }
            i = i + 1;
        }
        None
    }

    /// Returns the number of records: the count of the header where the
    /// dataset has a record dimension, zero where it has none.
    pub fn record_count(&self) -> (count: Option<u64>)
        ensures
            count == self@.record_count(),
    {
        match self.record_dimension() {
            Some(_) => self.numrecs,
            None => Some(0),
        }
    }

    /// Returns the index of the dimension called `name`.
    pub fn dimension_index(&self, name: &String) -> (found: Option<usize>)
        ensures
            as_int(found) == last_index_of(self@.dimension_names(), name@),
    {
        assert(names(self.dimensions@) =~= self@.dimension_names());
        find_last(&self.dimensions, name)
    }

    /// Returns the index of the attribute of the dataset called `name`.
    pub fn attribute_index(&self, name: &String) -> (found: Option<usize>)
        ensures
            as_int(found) == last_index_of(self@.attribute_names(), name@),
    {
        assert(names(self.attributes@) =~= self@.attribute_names());
        find_last(&self.attributes, name)
    }

    /// Returns the index of the variable called `name`.
    pub fn variable_index(&self, name: &String) -> (found: Option<usize>)
        ensures
            as_int(found) == last_index_of(self@.variable_names(), name@),
    {
        assert(names(self.variables@) =~= self@.variable_names());
        find_last(&self.variables, name)
    }

    /// Names the file that the dataset stands for, or takes the name away.
    pub fn set_source(&mut self, source: Option<String>)
        ensures
            final(self)@ == (DatasetView {
                source: match source {
                    Some(name) => Some(name@),
                    None => None,
                },
                ..old(self)@
            }),
            final(self)@.wf(),
    {
        proof {
            use_type_invariant(&*self);
        }
        self.source = source;
    }

    /// Sets the format variant in which the dataset is to be written.
    pub fn set_version(&mut self, version: FormatVersion)
        ensures
            final(self)@ == (DatasetView { version, ..old(self)@ }),
            final(self)@.wf(),
    {
        proof {
            use_type_invariant(&*self);
        }
        self.version = version;
    }

    /// Sets the record count of the header; `None` leaves it open.
    pub fn set_numrecs(&mut self, numrecs: Option<u64>)
        ensures
            final(self)@ == (DatasetView { numrecs, ..old(self)@ }),
            final(self)@.wf(),
    {
        proof {
            use_type_invariant(&*self);
        }
        self.numrecs = numrecs;
    }

    /// Adds a dimension at the end. A dimension of length zero is the record
    /// dimension; a dataset that has one already refuses a second.
    pub fn add_dimension(&mut self, name: String, length: u64) -> (r: Result<(), Error>)
        ensures
            match r {
                Ok(_) => !(length == 0 && has_unlimited(old(self)@.dimensions)) && final(self)@ == (DatasetView {
                    dimensions: old(self)@.dimensions.push(DimensionView::make(name@, length)),
                    ..old(self)@
                }),
                Err(e) => e == Error::MultipleUnlimitedDimensions && length == 0 && has_unlimited(
                    old(self)@.dimensions,
                ) && final(self)@ == old(self)@,
            },
            final(self)@.wf(),
    {
        proof {
            use_type_invariant(&*self);
        }
        let taken = self.record_dimension();
        if length == 0 && taken.is_some() {
            return Err(Error::MultipleUnlimitedDimensions);
        }
        let dimension = Dimension::new(name, length);
        let ghost before = self.dimensions@;
        proof {
            lemma_views_push(before, dimension);
            let now = views(before).push(dimension@);
            assert(forall|i: int| 0 <= i < before.len() ==> now[i] == views(before)[i]);
            assert forall|v: int| 0 <= v < self@.variables.len() implies variable_wf(
                now,
                #[trigger] self@.variables[v],
            ) by {
                let variable = self@.variables[v];
                assert(variable_wf(self@.dimensions, variable));
                assert forall|place: int| 0 <= place < variable.dimensions.len() implies check_dimension_ref(
                    now,
                    place,
                    #[trigger] variable.dimensions[place],
                ) is Ok by {
                    assert(check_dimension_ref(self@.dimensions, place, variable.dimensions[place]) is Ok);
                }
            }
            assert forall|i: int, j: int| 0 <= i < j < now.len() implies !((#[trigger] now[i]).is_unlimited
                && (#[trigger] now[j]).is_unlimited) by {
                if j == now.len() - 1 && now[i].is_unlimited {
                    assert(views(before)[i].is_unlimited);
                }
            }
            assert(dimensions_wf(now));
        }
        let mut taken = Dataset::new();
        core::mem::swap(self, &mut taken);
        let Dataset { source, version, numrecs, dimensions, attributes, variables } = taken;
        let mut dimensions = dimensions;
        dimensions.push(dimension);
        *self = Dataset { source, version, numrecs, dimensions, attributes, variables };
        Ok(())
    }

    /// Adds an attribute of the dataset at the end.
    pub fn add_attribute(&mut self, attribute: Attribute)
        ensures
            final(self)@ == (DatasetView {
                attributes: old(self)@.attributes.push(attribute@),
                ..old(self)@
            }),
            final(self)@.wf(),
    {
        proof {
            use_type_invariant(&*self);
            lemma_views_push(self.attributes@, attribute);
        }
        let mut attributes: Vec<Attribute> = Vec::new();
        core::mem::swap(&mut self.attributes, &mut attributes);
        attributes.push(attribute);
        self.attributes = attributes;
    }

    /// Adds a variable at the end. Each dimension that it names must exist, and
    /// the record dimension may stand in first place only: the first place that
    /// breaks either rule decides the failure.
    pub fn add_variable(&mut self, variable: Variable) -> (r: Result<(), Error>)
        ensures
            match check_dimension_refs(old(self)@.dimensions, variable@.dimensions, 0) {
                Ok(_) => r is Ok && final(self)@ == (DatasetView {
                    variables: old(self)@.variables.push(variable@),
                    ..old(self)@
                }),
                Err(e) => r == Err::<(), Error>(e) && final(self)@ == old(self)@,
            },
            final(self)@.wf(),
    {
        proof {
            use_type_invariant(&*self);
        }
        let rank: usize = variable.dimensions.len();
        let mut place: usize = 0;
        while place < rank
            invariant
                rank == variable.dimensions.len(),
                place <= rank,
                *self == *old(self),
                self@.wf(),
                check_dimension_refs(self@.dimensions, variable@.dimensions, 0) == check_dimension_refs(
                    self@.dimensions,
                    variable@.dimensions,
                    place as int,
                ),
                forall|k: int|
                    0 <= k < place ==> check_dimension_ref(
                        self@.dimensions,
                        k,
                        #[trigger] variable@.dimensions[k],
                    ) is Ok,
            decreases rank - place,
        {
            let id: u32 = variable.dimensions[place];
            if id as usize >= self.dimensions.len() {
                return Err(Error::UnknownDimensionId);
            }
            if place > 0 && self.dimensions[id as usize].is_unlimited {
                return Err(Error::InvalidRecordDimensionPlacement);
            }
            place = place + 1;
        }
        proof {
            lemma_views_push(self.variables@, variable);
            let now = views(self.variables@).push(variable@);
            assert(forall|v: int| 0 <= v < self.variables@.len() ==> now[v] == self@.variables[v]);
            assert(variable_wf(self@.dimensions, variable@));
        }
        let mut variables: Vec<Variable> = Vec::new();
        core::mem::swap(&mut self.variables, &mut variables);
        variables.push(variable);
        self.variables = variables;
        Ok(())
    }

    /// Writes the dataset as a header of its format version. `None` where a
    /// value does not fit the width of its field.
    pub fn encode(&self) -> (r: Option<Vec<u8>>)
        ensures
            match r {
                Some(bytes) => encodable_header(self@) && bytes@ == put_header(self@),
                None => !encodable_header(self@),
            },
    {
        let mut out: Vec<u8> = Vec::new();
        out.push(0x43);
        out.push(0x44);
        out.push(0x46);
        out.push(self.version.byte());
        let ghost part = magic() + seq![self@.version.spec_byte()];
        assert(out@ =~= part);
        if !write_numrecs(&mut out, self.numrecs, self.version) {
            return None;
        }
        let ghost part = part + put_numrecs(self@.numrecs, self@.version);
        if !write_dimension_list(&mut out, &self.dimensions, self.version) {
            return None;
        }
        let ghost part = part + put_dimension_list(self@.dimensions, self@.version);
        if !write_attribute_list(&mut out, &self.attributes, self.version) {
            return None;
        }
        let ghost part = part + put_attribute_list(self@.attributes, self@.version);
        if !write_variable_list(&mut out, &self.variables, self.version) {
            return None;
        }
        let ghost part = part + put_variable_list(self@.variables, self@.version);
        assert(part == put_header(self@));
        Some(out)
    }

    /// Resolves the layout of the variable with index `v`; `None` where the
    /// dataset has no such variable.
    pub fn layout(&self, v: usize) -> (layout: Option<Layout>)
        ensures
            match layout {
                Some(found) => v < self@.variables.len() && found@ == self@.layout(v as int),
                None => v >= self@.variables.len(),
            },
    {
        proof {
            use_type_invariant(self);
        }
        if v >= self.variables.len() {
            return None;
        }
        let variable = &self.variables[v];
        assert(variable@ == self@.variables[v as int]);
        assert(variable_wf(self@.dimensions, variable@));
        let rank: usize = variable.dimensions.len();
        let is_record_variable: bool = rank > 0 && {
            assert(check_dimension_ref(self@.dimensions, 0, variable@.dimensions[0]) is Ok);
            self.dimensions[variable.dimensions[0] as usize].is_unlimited
        };
        let skipped: usize = if is_record_variable {
            1
        } else {
            0
        };
        let mut extents: Vec<u64> = Vec::new();
        let mut place: usize = skipped;
        while place < rank
            invariant
                rank == variable.dimensions.len(),
                skipped <= place <= rank,
                variable_wf(self@.dimensions, variable@),
                self@.dimensions == views(self.dimensions@),
                extents@.len() == place - skipped,
                forall|i: int|
                    0 <= i < extents@.len() ==> #[trigger] extents@[i] == self@.dimensions[variable@.dimensions[i
                        + skipped] as int].length,
            decreases rank - place,
        {
            assert(check_dimension_ref(self@.dimensions, place as int, variable@.dimensions[place as int]) is Ok);
            extents.push(self.dimensions[variable.dimensions[place] as usize].length);
            place = place + 1;
        }
        assert(extents@ =~= self@.extents(v as int));
        Some(
            Layout {
                is_record_variable,
                extents,
                dtype: variable.dtype,
                begin: variable.begin,
                record_count: self.record_count(),
            },
        )
    }
}

} // verus!
