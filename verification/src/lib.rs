//! Decoder for the header of classic CDF array containers.
//!
//! The crate turns the bytes of a header into a [`dataset::Dataset`] and answers
//! where the data of each variable lies. Every function is verified against a
//! mathematical description of the byte layout.
//!
//! - [`grammar`] says what each part of a header decodes to, [`encode`] says
//!   which bytes stand for a value.
//! - [`reader`], [`decode`] and [`dataset`] hold the decoder, [`writer`] the
//!   encoder, [`layout`] the arithmetic that locates the data of a variable.
//! - [`invariants`], [`roundtrip`] and [`truncation`] prove what holds of
//!   every header: the rules on the record dimension, that decoding and
//!   encoding undo each other, and that a header cut short fails for want of
//!   bytes.

pub mod attributes;
pub mod constants;
pub mod dataset;
pub mod decode;
pub mod dimension;
pub mod dtype;
pub mod encode;
pub mod error;
pub mod grammar;
pub mod helpers;
pub mod invariants;
pub mod layout;
pub mod lookup;
pub mod prelude;
pub mod reader;
pub mod roundtrip;
pub mod text;
pub mod truncation;
pub mod variable;
pub mod version;
pub mod writer;
