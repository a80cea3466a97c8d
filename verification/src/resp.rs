//! The RESP wire format: values, their byte encoding, and the parser.

pub mod command;
pub mod decimal;
pub mod framing;
pub mod parse;
pub mod roundtrip;
pub mod value;
