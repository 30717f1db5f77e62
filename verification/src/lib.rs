//! Insertion-ordered, linearly scanned containers and their adapters to an
//! abstract stream of serialization events.
//!
//! A container is written out as a sequence of events (`serialize`, or one
//! event at a time through an encoder) and built again from the answers of
//! a framework that reads such a sequence (the visitors), or from the
//! events themselves (`deserialize`).

pub mod access;
pub mod de;
pub mod encoder;
pub mod laws;
pub mod linear_map;
pub mod linear_set;
pub mod reader;
pub mod ser;
pub mod token;

pub use crate::access::{DecodeError, EncodeError, MapAccess, MapInput, SeqAccess, SeqInput};
pub use crate::de::{LinearMapVisitor, LinearSetVisitor};
pub use crate::encoder::{MapEncoder, SeqEncoder};
pub use crate::linear_map::LinearMap;
pub use crate::linear_set::LinearSet;
pub use crate::token::{MapToken, SeqToken, TokenError};
