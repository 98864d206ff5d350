//! Serialisation helpers for the WebAssembly binary format: LEB128 integers,
//! padded relocatable integers and the buffers that receive them.
use vstd::prelude::*;

pub mod leb128;
pub mod padded;
pub mod buffer;
pub mod bump;
pub mod serialize;

pub use buffer::SerialBuffer;
pub use serialize::Serialize;
pub use padded::{overwrite_padded_i32, overwrite_padded_u32};

verus! {

/// In the WebAssembly binary format all integers are variable-length encoded
/// (LEB128). An encoded `u32` takes at most this many bytes.
pub const MAX_SIZE_ENCODED_U32: usize = 5;

/// An encoded `u64` takes at most this many bytes.
pub const MAX_SIZE_ENCODED_U64: usize = 10;

} // verus!
