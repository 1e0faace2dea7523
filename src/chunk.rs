//! The unit that flows through a body: data bytes or a set of trailers.
use vstd::prelude::*;

verus! {

/// A message of a chunked encoded body.
pub enum Chunk {
    /// Data chunk.
    Data(Vec<u8>),
    /// Trailer headers, sent after the data of a chunked body.
    Trailers(http::HeaderMap),
}

/// What a chunk holds, as values.
pub enum ChunkView {
    Data(Seq<u8>),
    Trailers(http::HeaderMap),
}

pub open spec fn view_of(c: Chunk) -> ChunkView {
    match c {
        Chunk::Data(d) => ChunkView::Data(d@),
        Chunk::Trailers(h) => ChunkView::Trailers(h),
    }
}

/// What a sequence of chunks holds, chunk by chunk.
pub open spec fn chunk_views(chunks: Seq<Chunk>) -> Seq<ChunkView> {
    chunks.map_values(|c: Chunk| view_of(c))
}

/// The bytes a chunk carries: a trailer set carries none.
pub open spec fn chunk_data(c: Chunk) -> Seq<u8> {
    match c {
        Chunk::Data(d) => d@,
        Chunk::Trailers(_) => Seq::empty(),
    }
}

/// The data of a sequence of chunks, concatenated in order.
pub open spec fn data_bytes(chunks: Seq<Chunk>) -> Seq<u8> {
    chunks.map_values(|c: Chunk| chunk_data(c)).flatten()
}

/// The data of a sequence of chunks is the first chunk's data followed by the rest's.
pub proof fn lemma_data_bytes_front(chunks: Seq<Chunk>)
    requires
        chunks.len() > 0,
    ensures
        data_bytes(chunks) == chunk_data(chunks[0]) + data_bytes(chunks.drop_first()),
{
    let m = chunks.map_values(|c: Chunk| chunk_data(c));
    assert(m.drop_first() =~= chunks.drop_first().map_values(|c: Chunk| chunk_data(c)));
}

impl Chunk {
    /// A data chunk holding `bytes`.
    pub fn from_bytes(bytes: Vec<u8>) -> (r: Chunk)
        ensures
            r == Chunk::Data(bytes),
    {
        Chunk::Data(bytes)
    }

    /// Whether this chunk carries trailers.
    pub fn is_trailers(&self) -> (r: bool)
        ensures
            r == (self is Trailers),
    {
        match self {
            Chunk::Data(_) => false,
            Chunk::Trailers(_) => true,
        }
    }
}

} // verus!
