//! Variables: named arrays over the dimensions of a dataset.

use vstd::prelude::*;
use crate::attributes::{Attribute, AttributeView};
use crate::constants::{element_size, spec_element_size};
use crate::dtype::Dtype;
use crate::error::Error;
use crate::grammar::views;

verus! {

/// A named array. Its dimensions are indices into the dimension list of the
/// dataset that holds it, the slowest-varying first.
#[derive(Clone, Debug)]
pub struct Variable {
    pub name: String,
    pub dimensions: Vec<u32>,
    pub attributes: Vec<Attribute>,
    pub dtype: Dtype,
    pub size: i64,
    pub begin: u64,
}

/// What a [`Variable`] holds, as mathematical values.
pub struct VariableView {
    pub name: Seq<char>,
    pub dimensions: Seq<u32>,
    pub attributes: Seq<AttributeView>,
    pub dtype: Dtype,
    pub size: i64,
    pub begin: u64,
}

impl VariableView {
    /// A scalar of bytes called `name`, without attributes, with no declared
    /// size and with data at offset zero.
    pub open spec fn bare(name: Seq<char>) -> VariableView {
        VariableView {
            name,
            dimensions: Seq::empty(),
            attributes: Seq::empty(),
            dtype: Dtype::Byte,
            size: 0,
            begin: 0,
        }
    }
}

impl View for Variable {
    type V = VariableView;

    open spec fn view(&self) -> VariableView {
        VariableView {
            name: self.name@,
            dimensions: self.dimensions@,
            attributes: views(self.attributes@),
            dtype: self.dtype,
            size: self.size,
            begin: self.begin,
        }
    }
}

impl Variable {
    /// Makes a scalar variable of bytes with the given name, to be filled in by
    /// the `with_` methods.
    pub fn new(name: String) -> (variable: Variable)
        ensures
            variable@ == VariableView::bare(name@),
            variable.name == name,
    {
        let variable = Variable {
            name,
            dimensions: Vec::new(),
            attributes: Vec::new(),
            dtype: Dtype::Byte,
            size: 0,
            begin: 0,
        };
        assert(variable@.attributes =~= Seq::empty());
        variable
    }

    /// Sets the kind of the elements from its wire code.
    pub fn with_typecode(self, typecode: u8) -> (r: Result<Variable, Error>)
        ensures
            match spec_element_size(typecode as int) {
                Ok((dtype, _)) => r is Ok && r->Ok_0 == (Variable { dtype, ..self }),
                Err(e) => r == Err::<Variable, Error>(e),
            },
    {
        let mut variable = self;
        match element_size(typecode) {
            Ok((dtype, _)) => {
                variable.dtype = dtype;
                Ok(variable)
            },
            Err(e) => Err(e),
        }
    }

    /// Sets the declared size in bytes.
    pub fn with_size(self, size: i64) -> (variable: Variable)
        ensures
            variable == (Variable { size, ..self }),
    {
        let mut variable = self;
        variable.size = size;
        variable
    }

    /// Sets the dimensions, as indices into the dataset's dimension list.
    pub fn with_dimensions(self, dimensions: Vec<u32>) -> (variable: Variable)
        ensures
            variable == (Variable { dimensions, ..self }),
    {
        let mut variable = self;
        variable.dimensions = dimensions;
        variable
    }

    /// Sets the attributes.
    pub fn with_attributes(self, attributes: Vec<Attribute>) -> (variable: Variable)
        ensures
            variable == (Variable { attributes, ..self }),
    {
        let mut variable = self;
        variable.attributes = attributes;
        variable
    }

    /// Sets the kind of the elements.
    pub fn with_dtype(self, dtype: Dtype) -> (variable: Variable)
        ensures
            variable == (Variable { dtype, ..self }),
    {
        let mut variable = self;
        variable.dtype = dtype;
        variable
    }

    /// Sets the offset at which the data begins.
    pub fn with_begin(self, begin: u64) -> (variable: Variable)
        ensures
            variable == (Variable { begin, ..self }),
    {
        let mut variable = self;
        variable.begin = begin;
        variable
    }
}

} // verus!
