//! MessagePack values: a zero-copy decoder into borrowed values and an encoder of owned
//! values, both proved against a model of the MessagePack wire format.
pub mod decode;
pub mod encode;
pub mod format;
pub mod laws;
pub mod value;

pub use value::{Integer, Utf8String, Utf8StringRef, Value, ValueModel, ValueRef};
