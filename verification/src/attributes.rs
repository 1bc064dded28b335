//! Attributes: named, typed values attached to a dataset or to a variable.

use vstd::prelude::*;
use vstd::utf8::{decode_utf8, valid_utf8};
use crate::decode::read_attrs;
use crate::dtype::Dtype;
use crate::error::ListError;
use crate::grammar::{agrees_list, take_attribute_list};
use crate::reader::ByteReader;
use crate::text::text_from_bytes;
use crate::version::FormatVersion;

verus! {

/// The payload of an attribute: its kind, the number of elements, and the
/// bytes of the elements as they stand in the header.
#[derive(Clone, Debug)]
pub struct AttributeValue {
    pub dtype: Dtype,
    pub raw: Vec<u8>,
    pub count: u64,
}

/// What an [`AttributeValue`] holds, as mathematical values.
pub struct AttributeValueView {
    pub dtype: Dtype,
    pub raw: Seq<u8>,
    pub count: u64,
}

impl AttributeValueView {
    /// Whether the payload has as many bytes as its elements take.
    pub open spec fn wf(self) -> bool {
        self.raw.len() == self.count * self.dtype.spec_width()
    }

    /// The payload read as text: only for `Char` values that are valid UTF-8.
    pub open spec fn as_text(self) -> Option<Seq<char>> {
        if self.dtype == Dtype::Char && valid_utf8(self.raw) {
            Some(decode_utf8(self.raw))
        } else {
            None
        }
    }
}

impl View for AttributeValue {
    type V = AttributeValueView;

    open spec fn view(&self) -> AttributeValueView {
        AttributeValueView { dtype: self.dtype, raw: self.raw@, count: self.count }
    }
}

impl AttributeValue {
    /// Reads a `Char` payload as text. Other kinds, and bytes that are not
    /// valid UTF-8, give `None`.
    pub fn as_text(&self) -> (text: Option<String>)
        ensures
            match self@.as_text() {
                Some(t) => text is Some && text->0@ == t,
                None => text is None,
            },
    {
        match self.dtype {
            Dtype::Char => {
                let copy = self.raw.clone();
                assert(copy@ =~= self.raw@);
                match text_from_bytes(copy) {
                    Ok(t) => Some(t),
                    Err(_) => None,
                }
            },
            _ => None,
        }
    }
}

/// An attribute: a name and its payload.
#[derive(Clone, Debug)]
pub struct Attribute {
    pub name: String,
    pub value: AttributeValue,
}

/// What an [`Attribute`] holds, as mathematical values.
pub struct AttributeView {
    pub name: Seq<char>,
    pub value: AttributeValueView,
}

impl View for Attribute {
    type V = AttributeView;

    open spec fn view(&self) -> AttributeView {
        AttributeView { name: self.name@, value: self.value@ }
    }
}

impl Attribute {
    /// Reads a list of attributes at the cursor of `fp`, in file order.
    pub fn from_file(fp: &mut ByteReader, version: FormatVersion) -> (r: Result<Vec<Attribute>, ListError>)
        ensures
            final(fp).bytes() == old(fp).bytes(),
            agrees_list(
                r,
                final(fp).cursor(),
                take_attribute_list(old(fp).bytes(), old(fp).cursor(), version),
            ),
    {
        read_attrs(fp, version)
    }
}

} // verus!
