//! A schema-driven XML decoder.
//!
//! The library maps a parsed XML tree onto strongly-typed in-memory values:
//! a caller describes the shape it wants (scalar, unit, optional, sequence,
//! struct with named fields, tagged union, open map) and the decoder
//! reconciles an element's attributes and ordered children against that
//! shape.  The matching algorithm, the scalar conversions and the error
//! taxonomy are verified; the XML tree itself is built by `roxmltree`
//! behind a small trusted boundary.

pub mod error;
pub mod text;
pub mod tree;
pub mod shape;
pub mod decoded;
pub mod model;
pub mod decode;
pub mod xml;
pub mod laws;
pub mod option_ext;
