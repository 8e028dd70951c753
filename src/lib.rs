//! A decoder for named-binary-tag documents: a self-describing, tag-prefixed
//! binary tree format of integers, floats, strings, arrays, homogeneous lists
//! and named compounds, nested to any depth.

pub mod bytes;
pub mod error;
pub mod model;
pub mod grammar;
pub mod reader;

pub use bytes::ByteReader;
pub use error::NbtReadError;
pub use model::{Compound, List, RootValue, Value};
