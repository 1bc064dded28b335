//! Named dimensions.

use vstd::prelude::*;

verus! {

/// A named axis. A dimension of length zero is the record dimension, along
/// which a dataset grows.
#[derive(Debug)]
pub struct Dimension {
    pub name: String,
    pub length: u64,
    pub is_unlimited: bool,
}

/// What a [`Dimension`] holds, as mathematical values.
pub struct DimensionView {
    pub name: Seq<char>,
    pub length: u64,
    pub is_unlimited: bool,
}

impl DimensionView {
    /// The dimension that a name and a length make.
    pub open spec fn make(name: Seq<char>, length: u64) -> DimensionView {
        DimensionView { name, length, is_unlimited: length == 0 }
    }

    /// Whether the flag says what the length says.
    pub open spec fn wf(self) -> bool {
        self.is_unlimited <==> self.length == 0
    }
}

impl View for Dimension {
    type V = DimensionView;

    open spec fn view(&self) -> DimensionView {
        DimensionView { name: self.name@, length: self.length, is_unlimited: self.is_unlimited }
    }
}

impl Clone for Dimension {
    fn clone(&self) -> (copy: Dimension)
        ensures
            copy@ == self@,
    {
        Dimension { name: self.name.clone(), length: self.length, is_unlimited: self.is_unlimited }
    }
}

impl Dimension {
    /// Makes a dimension; one of length zero is the record dimension.
    pub fn new(name: String, length: u64) -> (dimension: Dimension)
        ensures
            dimension@ == DimensionView::make(name@, length),
            dimension.name == name,
            dimension@.wf(),
    {
        Dimension { name, length, is_unlimited: length == 0 }
    }
}

} // verus!
