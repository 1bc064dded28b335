//! The types that most callers need.

pub use crate::attributes::{Attribute, AttributeValue};
pub use crate::dataset::Dataset;
pub use crate::dimension::Dimension;
pub use crate::dtype::Dtype;
pub use crate::error::{DecodeError, Error, ListError, State};
pub use crate::layout::Layout;
pub use crate::reader::ByteReader;
pub use crate::variable::Variable;
pub use crate::version::FormatVersion;
