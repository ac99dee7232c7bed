//! Builds a nested key tree out of flat `KEY__PATH=value` pairs and answers
//! the requests of a typed decoder against it.
use vstd::prelude::*;

pub mod config;
pub mod error;
pub mod order;
pub mod parser;
pub mod text;
pub mod theorems;
pub mod value;

pub use config::Config;
pub use error::EnvDeserializationError;
pub use parser::{EnumShape, Parser};
pub use value::Value;

verus! {

} // verus!
