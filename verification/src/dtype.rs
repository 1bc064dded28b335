//! The scalar kinds that a header can name.

use vstd::prelude::*;

verus! {

/// The scalar kind of the elements of an attribute or a variable.
#[derive(Clone, Copy, Debug, PartialEq, Eq, Structural)]
pub enum Dtype {
    Byte,
    Char,
    Short,
    Int,
    Float,
    Double,
}

impl Dtype {
    /// The code that stands for this kind in a header.
    pub open spec fn spec_code(self) -> u8 {
        match self {
            Dtype::Byte => 1,
            Dtype::Char => 2,
            Dtype::Short => 3,
            Dtype::Int => 4,
            Dtype::Float => 5,
            Dtype::Double => 6,
        }
    }

    /// The number of bytes that one element of this kind takes.
    pub open spec fn spec_width(self) -> u8 {
        match self {
            Dtype::Byte => 1,
            Dtype::Char => 1,
            Dtype::Short => 2,
            Dtype::Int => 4,
            Dtype::Float => 4,
            Dtype::Double => 8,
        }
    }

    /// The kind that a code stands for, if it stands for one.
    pub open spec fn spec_from_code(code: int) -> Option<Dtype> {
        if code == 1 {
            Some(Dtype::Byte)
        } else if code == 2 {
            Some(Dtype::Char)
        } else if code == 3 {
            Some(Dtype::Short)
        } else if code == 4 {
            Some(Dtype::Int)
        } else if code == 5 {
            Some(Dtype::Float)
        } else if code == 6 {
            Some(Dtype::Double)
        } else {
            None
        }
    }

    /// Returns the code that stands for this kind in a header.
    pub fn code(self) -> (c: u8)
        ensures
            c == self.spec_code(),
            Dtype::spec_from_code(c as int) == Some(self),
    {
        match self {
            Dtype::Byte => 1,
            Dtype::Char => 2,
            Dtype::Short => 3,
            Dtype::Int => 4,
            Dtype::Float => 5,
            Dtype::Double => 6,
        }
    }

    /// Returns the number of bytes that one element of this kind takes.
    pub fn width(self) -> (w: u8)
        ensures
            w == self.spec_width(),
            1 <= w <= 8,
    {
        match self {
            Dtype::Byte => 1,
            Dtype::Char => 1,
            Dtype::Short => 2,
            Dtype::Int => 4,
            Dtype::Float => 4,
            Dtype::Double => 8,
        }
    }
}

} // verus!
