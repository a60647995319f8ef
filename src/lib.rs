//! A record of four indices and a weight, read from one line of text and
//! compared with a tolerance on the weight.
pub mod number;
pub mod record;
pub mod text;

pub use record::{parse_line, Fc, ParseError};
