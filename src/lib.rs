//! Message bodies and HTTP/1.1 response framing.
use vstd::prelude::*;

pub mod body;
pub mod chunk;
pub mod header;
pub mod response;
pub mod stream;

pub use body::{Body, BodyReader, ChunkIterator, HttpBody};
pub use chunk::Chunk;
pub use response::{write_response, Encoding, Outcome, Response, ResponseError, Version};

verus! {

} // verus!
