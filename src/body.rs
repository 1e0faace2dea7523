//! Message bodies: a body is either empty, a buffered block, or a sequence of
//! chunks, and is consumed once as a reader, as chunks or as one block.
use vstd::prelude::*;

use std::collections::VecDeque;
use vstd::slice::slice_to_vec;
use vstd::string::{StrSliceExecFns, StringSliceAdditionalSpecFns};
use vstd::utf8::encode_utf8;

use crate::chunk::{
    chunk_data, chunk_views, data_bytes, lemma_data_bytes_front, Chunk, ChunkView,
};

verus! {

broadcast use vstd::seq_lib::group_seq_properties;

/// The bytes of a queue of blocks, concatenated in order.
pub open spec fn blocks_bytes(blocks: Seq<Vec<u8>>) -> Seq<u8> {
    blocks.map_values(|b: Vec<u8>| b@).flatten()
}

proof fn lemma_blocks_front(blocks: Seq<Vec<u8>>)
    requires
        blocks.len() > 0,
    ensures
        blocks_bytes(blocks) == blocks[0]@ + blocks_bytes(blocks.drop_first()),
{
    let m = blocks.map_values(|b: Vec<u8>| b@);
    assert(m.drop_first() =~= blocks.drop_first().map_values(|b: Vec<u8>| b@));
}

proof fn lemma_blocks_push(blocks: Seq<Vec<u8>>, b: Vec<u8>)
    ensures
        blocks_bytes(blocks.push(b)) == blocks_bytes(blocks) + b@,
{
    let m = blocks.map_values(|b: Vec<u8>| b@);
    assert(blocks.push(b).map_values(|b: Vec<u8>| b@) =~= m.push(b@));
    m.lemma_flatten_push(b@);
}

/// Whether `pieces` are successive reads of `content`: each one is the start
/// of what the reads before it left.
pub open spec fn successive_reads(content: Seq<u8>, pieces: Seq<Seq<u8>>) -> bool
    decreases pieces.len(),
{
    if pieces.len() == 0 {
        true
    } else {
        &&& pieces[0].len() <= content.len()
        &&& pieces[0] == content.take(pieces[0].len() as int)
        &&& successive_reads(content.skip(pieces[0].len() as int), pieces.drop_first())
    }
}

/// However the reads are sized, the bytes they return, joined in order, are
/// the start of the content; reads that returned as many bytes as the content
/// holds have returned exactly the content.
pub proof fn lemma_reads_reassemble(content: Seq<u8>, pieces: Seq<Seq<u8>>)
    requires
        successive_reads(content, pieces),
    ensures
        pieces.flatten().len() <= content.len(),
        pieces.flatten() == content.take(pieces.flatten().len() as int),
        pieces.flatten().len() == content.len() ==> pieces.flatten() == content,
    decreases pieces.len(),
{
    if pieces.len() > 0 {
        let k = pieces[0].len() as int;
        lemma_reads_reassemble(content.skip(k), pieces.drop_first());
        let tail = pieces.drop_first().flatten();
        assert(pieces.flatten() == pieces[0] + tail);
        assert(pieces.flatten() =~= content.take(pieces.flatten().len() as int));
    } else {
        assert(pieces.flatten() =~= content.take(0));
    }
}

/// The first non-empty block of a sequence, or nothing where all are empty.
pub open spec fn first_nonempty(blocks: Seq<Seq<u8>>) -> Seq<u8>
    decreases blocks.len(),
{
    if blocks.len() == 0 {
        Seq::empty()
    } else if blocks[0].len() > 0 {
        blocks[0]
    } else {
        first_nonempty(blocks.drop_first())
    }
}

/// A read, as `BodyReader::read` states it, followed by successive reads of
/// what it left, makes successive reads of what was there before it: so the
/// reads of a reader, whatever their sizes, are successive reads of its bytes.
pub proof fn lemma_read_then_reads(before: Seq<u8>, piece: Seq<u8>, pieces: Seq<Seq<u8>>)
    requires
        piece.len() <= before.len(),
        piece == before.take(piece.len() as int),
        successive_reads(before.skip(piece.len() as int), pieces),
    ensures
        successive_reads(before, seq![piece] + pieces),
{
    let all = seq![piece] + pieces;
    assert(all[0] == piece);
    assert(all.drop_first() =~= pieces);
}

/// Whatever sizes the reads of a body's reader take, once they have returned
/// as many bytes as the body holds they have returned what `into_bytes` gives:
/// the body's content.
pub proof fn lemma_reader_matches_bytes<B: HttpBody>(body: B, pieces: Seq<Seq<u8>>)
    requires
        successive_reads(body.body_content(), pieces),
        pieces.flatten().len() == body.body_content().len(),
    ensures
        pieces.flatten() == body.body_content(),
{
    lemma_reads_reassemble(body.body_content(), pieces);
}

/// The error of a read that needed more bytes than were left.
#[derive(Clone, Copy, Debug, PartialEq, Eq, Structural)]
pub struct UnexpectedEnd;

/// A reader over the bytes of a body, handed out one block at a time: a read
/// never spans two blocks.
pub struct BodyReader {
    current: Vec<u8>,
    pos: usize,
    queue: VecDeque<Vec<u8>>,
}

impl BodyReader {
    pub closed spec fn wf(&self) -> bool {
        self.pos <= self.current@.len()
    }

    /// The bytes that are still to be read.
    pub closed spec fn rest(&self) -> Seq<u8> {
        self.current@.skip(self.pos as int) + blocks_bytes(self.queue@)
    }

    /// What is left of the block that the next read takes from: the current
    /// one, or the next non-empty one once it is used up.
    pub closed spec fn next_block(&self) -> Seq<u8> {
        let cur = self.current@.skip(self.pos as int);
        if cur.len() > 0 {
            cur
        } else {
            first_nonempty(self.queue@.map_values(|b: Vec<u8>| b@))
        }
    }

    /// A reader over one block.
    pub fn from_bytes(bytes: Vec<u8>) -> (r: BodyReader)
        ensures
            r.wf(),
            r.rest() == bytes@,
    {
        let r = BodyReader { current: bytes, pos: 0, queue: VecDeque::new() };
        assert(r.rest() =~= bytes@);
        r
    }

    /// A reader over a sequence of blocks, read in order.
    pub fn from_iter(blocks: Vec<Vec<u8>>) -> (r: BodyReader)
        ensures
            r.wf(),
            r.rest() == blocks_bytes(blocks@),
    {
        let ghost all = blocks@;
        let mut blocks = blocks;
        let mut queue: VecDeque<Vec<u8>> = VecDeque::new();
        while blocks.len() > 0
            invariant
                blocks@ + queue@ == all,
            decreases blocks@.len(),
        {
            let b = blocks.pop().unwrap();
            queue.push_front(b);
        }
        assert(queue@ =~= all);
        let r = BodyReader { current: Vec::new(), pos: 0, queue };
        assert(r.rest() =~= blocks_bytes(queue@));
        r
    }

    /// Reads into `buf` the next bytes of the current block, pulling the next
    /// block when the current one is exhausted; returns how many were read.
    /// A read never spans two blocks: it takes as much of the next non-empty
    /// block as `buf` holds. Zero means that `buf` is empty or that nothing is
    /// left.
    pub fn read(&mut self, buf: &mut [u8]) -> (n: usize)
        requires
            old(self).wf(),
        ensures
            final(self).wf(),
            n <= old(buf)@.len(),
            n <= old(self).rest().len(),
            n == if old(buf)@.len() < old(self).next_block().len() {
                old(buf)@.len() as int
            } else {
                old(self).next_block().len() as int
            },
            final(buf)@.len() == old(buf)@.len(),
            final(buf)@.take(n as int) == old(self).rest().take(n as int),
            final(buf)@.skip(n as int) == old(buf)@.skip(n as int),
            final(self).rest() == old(self).rest().skip(n as int),
            n == 0 ==> old(buf)@.len() == 0 || old(self).rest().len() == 0,
    {
        if buf.len() == 0 {
            assert(self.rest().skip(0) =~= self.rest());
            return 0;
        }
        let ghost buf0 = buf@;
        loop
            invariant
                self.wf(),
                self.rest() == old(self).rest(),
                self.next_block() == old(self).next_block(),
                buf@ == buf0,
                buf0 == old(buf)@,
                buf@.len() > 0,
            decreases self.queue@.len(),
        {
            if self.pos < self.current.len() {
                let avail = self.current.len() - self.pos;
                let n: usize = if avail < buf.len() {
                    avail
                } else {
                    buf.len()
                };
                let mut i: usize = 0;
                while i < n
                    invariant
                        i <= n,
                        n <= buf@.len(),
                        buf@.len() == buf0.len(),
                        self.pos + n <= self.current@.len(),
                        self.current@.len() <= usize::MAX,
                        forall|j: int| 0 <= j < i ==> buf@[j] == self.current@[self.pos + j],
                        forall|j: int| n <= j < buf@.len() ==> buf@[j] == buf0[j],
                    decreases n - i,
                {
                    buf[i] = self.current[self.pos + i];
                    i = i + 1;
                }
                let ghost old_rest = self.rest();
                assert(buf@.take(n as int) =~= old_rest.take(n as int));
                assert(buf@.skip(n as int) =~= buf0.skip(n as int));
                self.pos = self.pos + n;
                assert(self.rest() =~= old_rest.skip(n as int));
                return n;
            }
            let ghost q = self.queue@;
            match self.queue.pop_front() {
                Some(next) => {
                    proof {
                        lemma_blocks_front(q);
                    }
                    self.current = next;
                    self.pos = 0;
                    assert(q.drop_first() =~= self.queue@);
                    let ghost m = q.map_values(|b: Vec<u8>| b@);
                    assert(m.drop_first() =~= self.queue@.map_values(|b: Vec<u8>| b@));
                    assert(self.current@.skip(0) =~= m[0]);
                    assert(self.rest() =~= old(self).rest());
                },
                None => {
                    assert(self.queue@.map_values(|b: Vec<u8>| b@).len() == 0);
                    assert(self.rest() =~= Seq::<u8>::empty());
                    assert(buf@.take(0) =~= Seq::<u8>::empty());
                    assert(buf@.skip(0) =~= buf@);
                    assert(self.rest().skip(0) =~= self.rest());
                    return 0;
                },
            }
        }
    }

    /// Takes the next chunk of a source that hands them out one at a time:
    /// data is queued after what is left, trailers carry no bytes, and `None`
    /// means the source has ended. Returns whether more may come.
    pub fn push_chunk(&mut self, next: Option<Chunk>) -> (more: bool)
        requires
            old(self).wf(),
        ensures
            final(self).wf(),
            more == next is Some,
            final(self).rest() == old(self).rest() + match next {
                Some(c) => chunk_data(c),
                None => Seq::empty(),
            },
    {
        match next {
            Some(Chunk::Data(d)) => {
                proof {
                    lemma_blocks_push(self.queue@, d);
                }
                self.queue.push_back(d);
                assert(self.rest() =~= old(self).rest() + d@);
                true
            },
            Some(Chunk::Trailers(_)) => {
                assert(self.rest() =~= old(self).rest() + Seq::<u8>::empty());
                true
            },
            None => {
                assert(self.rest() =~= old(self).rest() + Seq::<u8>::empty());
                false
            },
        }
    }

    /// Fills `buf` with the next bytes, reading as often as it takes; fails,
    /// with `buf` partly filled, when fewer bytes are left than `buf` holds.
    pub fn read_exact(&mut self, buf: &mut [u8]) -> (r: Result<(), UnexpectedEnd>)
        requires
            old(self).wf(),
        ensures
            final(self).wf(),
            final(buf)@.len() == old(buf)@.len(),
            r is Ok <==> old(buf)@.len() <= old(self).rest().len(),
            r is Ok ==> final(buf)@ == old(self).rest().take(old(buf)@.len() as int),
            r is Ok ==> final(self).rest() == old(self).rest().skip(old(buf)@.len() as int),
            r is Err ==> final(self).rest().len() == 0,
    {
        let ghost all = self.rest();
        let mut filled: usize = 0;
        while filled < buf.len()
            invariant
                self.wf(),
                all == old(self).rest(),
                filled <= buf@.len(),
                buf@.len() == old(buf)@.len(),
                filled <= all.len(),
                buf@.take(filled as int) == all.take(filled as int),
                self.rest() == all.skip(filled as int),
            decreases buf@.len() - filled,
        {
            let want: usize = buf.len() - filled;
            let mut tmp: Vec<u8> = vec![0u8; want];
            let n = self.read(tmp.as_mut_slice());
            if n == 0 {
                assert(all.skip(filled as int).len() == 0);
                return Err(UnexpectedEnd);
            }
            let ghost b0 = buf@;
            let mut i: usize = 0;
            while i < n
                invariant
                    i <= n,
                    n <= tmp@.len(),
                    filled + tmp@.len() == buf@.len(),
                    buf@.len() == b0.len(),
                    buf@.len() <= usize::MAX,
                    forall|j: int| 0 <= j < filled ==> buf@[j] == b0[j],
                    forall|j: int| 0 <= j < i ==> buf@[filled + j] == tmp@[j],
                decreases n - i,
            {
                buf[filled + i] = tmp[i];
                i = i + 1;
            }
            let ghost prev = all.skip(filled as int);
            assert(tmp@.take(n as int) == prev.take(n as int));
            assert forall|j: int| 0 <= j < filled + n implies buf@[j] == all[j] by {
                if j >= filled {
                    assert(tmp@.take(n as int)[j - filled] == prev.take(n as int)[j - filled]);
                } else {
                    assert(b0.take(filled as int)[j] == all.take(filled as int)[j]);
                }
            }
            filled = filled + n;
            assert(buf@.take(filled as int) =~= all.take(filled as int));
            assert(self.rest() =~= all.skip(filled as int));
        }
        assert(buf@ =~= buf@.take(filled as int));
        Ok(())
    }

    /// Reads everything that is left and appends it to `out`.
    pub fn read_to_end(&mut self, out: &mut Vec<u8>)
        requires
            old(self).wf(),
        ensures
            final(self).wf(),
            final(out)@ == old(out)@ + old(self).rest(),
            final(self).rest().len() == 0,
    {
        let mut buf: Vec<u8> = vec![0u8; 1024];
        loop
            invariant
                self.wf(),
                buf@.len() == 1024,
                out@ + self.rest() == old(out)@ + old(self).rest(),
            decreases self.rest().len(),
        {
            let ghost before = self.rest();
            let ghost out0 = out@;
            let n = self.read(buf.as_mut_slice());
            if n == 0 {
                assert(out@ =~= old(out)@ + old(self).rest());
                return;
            }
            let mut i: usize = 0;
            while i < n
                invariant
                    i <= n,
                    n <= buf@.len(),
                    n <= before.len(),
                    buf@.take(n as int) == before.take(n as int),
                    out@ == out0 + buf@.take(i as int),
                decreases n - i,
            {
                out.push(buf[i]);
                i = i + 1;
                assert(out@ =~= out0 + buf@.take(i as int));
            }
            assert(before =~= before.take(n as int) + before.skip(n as int));
            assert(out@ + self.rest() =~= out0 + before);
        }
    }
}

/// A chunk sequence, handed out in order, once.
pub struct ChunkIterator {
    queue: VecDeque<Chunk>,
}

impl ChunkIterator {
    /// The chunks that are still to come.
    pub closed spec fn remaining(&self) -> Seq<Chunk> {
        self.queue@
    }

    /// A sequence of the given chunks, in order.
    pub fn from_chunks(chunks: Vec<Chunk>) -> (r: ChunkIterator)
        ensures
            r.remaining() == chunks@,
    {
        ChunkIterator { queue: deque_of(chunks) }
    }

    /// The next chunk, if any is left.
    pub fn next(&mut self) -> (r: Option<Chunk>)
        ensures
            match r {
                Some(c) => {
                    &&& old(self).remaining().len() > 0
                    &&& c == old(self).remaining()[0]
                    &&& final(self).remaining() == old(self).remaining().drop_first()
                },
                None => {
                    &&& old(self).remaining().len() == 0
                    &&& final(self).remaining() == old(self).remaining()
                },
            },
    {
        self.queue.pop_front()
    }
}

/// The items of a vector as a queue, in the same order.
fn deque_of<T>(items: Vec<T>) -> (r: VecDeque<T>)
    ensures
        r@ == items@,
{
    let ghost all = items@;
    let mut items = items;
    let mut queue: VecDeque<T> = VecDeque::new();
    while items.len() > 0
        invariant
            items@ + queue@ == all,
        decreases items@.len(),
    {
        let x = items.pop().unwrap();
        queue.push_front(x);
    }
    assert(queue@ =~= all);
    queue
}

/// Whatever can be sent as a message body: its length where it is known, and
/// ways to consume it as a reader, as chunks or as one block.
pub trait HttpBody: Sized {
    /// The length of the body, where it is known.
    spec fn body_length(&self) -> Option<u64>;

    /// The bytes of the body.
    spec fn body_content(&self) -> Seq<u8>;

    /// The chunks that the body is made of, as values.
    spec fn body_chunks(&self) -> Seq<ChunkView>;

    /// The length of the body, where it is known.
    fn len(&self) -> (r: Option<u64>)
        ensures
            r == self.body_length(),
    ;

    /// Whether the body is known to be empty: a body of unknown length never is.
    fn is_empty(&self) -> (r: bool)
        ensures
            r == (self.body_length() == Some(0u64)),
    ;

    /// Consumes the body into a reader over its bytes.
    fn into_reader(self) -> (r: BodyReader)
        ensures
            r.wf(),
            r.rest() == self.body_content(),
    ;

    /// Consumes the body into its chunks.
    fn into_chunks(self) -> (r: ChunkIterator)
        ensures
            chunk_views(r.remaining()) == self.body_chunks(),
            data_bytes(r.remaining()) == self.body_content(),
    ;

    /// Consumes the body into its bytes.
    fn into_bytes(self) -> (r: Vec<u8>)
        ensures
            r@ == self.body_content(),
    ;
}

impl HttpBody for () {
    open spec fn body_length(&self) -> Option<u64> {
        Some(0u64)
    }

    open spec fn body_content(&self) -> Seq<u8> {
        Seq::empty()
    }

    open spec fn body_chunks(&self) -> Seq<ChunkView> {
        Seq::empty()
    }

    fn len(&self) -> (r: Option<u64>) {
        Some(0)
    }

    fn is_empty(&self) -> (r: bool) {
        true
    }

    fn into_reader(self) -> (r: BodyReader) {
        BodyReader::from_bytes(Vec::new())
    }

    fn into_chunks(self) -> (r: ChunkIterator) {
        let r = ChunkIterator { queue: VecDeque::new() };
        assert(data_bytes(r.remaining()) =~= Seq::<u8>::empty());
        assert(chunk_views(r.remaining()) =~= Seq::<ChunkView>::empty());
        r
    }

    fn into_bytes(self) -> (r: Vec<u8>) {
        Vec::new()
    }
}

impl HttpBody for Vec<u8> {
    open spec fn body_length(&self) -> Option<u64> {
        Some(self@.len() as u64)
    }

    open spec fn body_content(&self) -> Seq<u8> {
        self@
    }

    open spec fn body_chunks(&self) -> Seq<ChunkView> {
        seq![ChunkView::Data(self@)]
    }

    fn len(&self) -> (r: Option<u64>) {
        Some(self.len() as u64)
    }

    fn is_empty(&self) -> (r: bool) {
        self.len() == 0
    }

    fn into_reader(self) -> (r: BodyReader) {
        BodyReader::from_bytes(self)
    }

    fn into_chunks(self) -> (r: ChunkIterator) {
        let ghost v = self;
        let mut queue: VecDeque<Chunk> = VecDeque::new();
        queue.push_back(Chunk::Data(self));
        let r = ChunkIterator { queue };
        assert(r.remaining() =~= seq![Chunk::Data(v)]);
        assert(chunk_views(r.remaining()) =~= seq![ChunkView::Data(v@)]);
        proof {
            lemma_data_bytes_front(r.remaining());
        }
        assert(data_bytes(r.remaining()) =~= v@);
        r
    }

    fn into_bytes(self) -> (r: Vec<u8>) {
        self
    }
}

impl HttpBody for String {
    open spec fn body_length(&self) -> Option<u64> {
        Some(encode_utf8(self@).len() as u64)
    }

    open spec fn body_content(&self) -> Seq<u8> {
        encode_utf8(self@)
    }

    open spec fn body_chunks(&self) -> Seq<ChunkView> {
        seq![ChunkView::Data(encode_utf8(self@))]
    }

    fn len(&self) -> (r: Option<u64>) {
        Some(self.as_str().as_bytes().len() as u64)
    }

    fn is_empty(&self) -> (r: bool) {
        self.as_str().as_bytes().len() == 0
    }

    fn into_reader(self) -> (r: BodyReader) {
        BodyReader::from_bytes(self.as_str().as_bytes_vec())
    }

    fn into_chunks(self) -> (r: ChunkIterator) {
        HttpBody::into_chunks(self.as_str().as_bytes_vec())
    }

    fn into_bytes(self) -> (r: Vec<u8>) {
        self.as_str().as_bytes_vec()
    }
}

impl<'a> HttpBody for &'a str {
    open spec fn body_length(&self) -> Option<u64> {
        Some(self.spec_bytes().len() as u64)
    }

    open spec fn body_content(&self) -> Seq<u8> {
        self.spec_bytes()
    }

    open spec fn body_chunks(&self) -> Seq<ChunkView> {
        seq![ChunkView::Data(self.spec_bytes())]
    }

    fn len(&self) -> (r: Option<u64>) {
        Some(self.as_bytes().len() as u64)
    }

    fn is_empty(&self) -> (r: bool) {
        self.as_bytes().len() == 0
    }

    fn into_reader(self) -> (r: BodyReader) {
        BodyReader::from_bytes(self.as_bytes_vec())
    }

    fn into_chunks(self) -> (r: ChunkIterator) {
        HttpBody::into_chunks(self.as_bytes_vec())
    }

    fn into_bytes(self) -> (r: Vec<u8>) {
        self.as_bytes_vec()
    }
}

impl<'a> HttpBody for &'a [u8] {
    open spec fn body_length(&self) -> Option<u64> {
        Some(self@.len() as u64)
    }

    open spec fn body_content(&self) -> Seq<u8> {
        self@
    }

    open spec fn body_chunks(&self) -> Seq<ChunkView> {
        seq![ChunkView::Data(self@)]
    }

    fn len(&self) -> (r: Option<u64>) {
        Some(<[u8]>::len(self) as u64)
    }

    fn is_empty(&self) -> (r: bool) {
        <[u8]>::len(self) == 0
    }

    fn into_reader(self) -> (r: BodyReader) {
        BodyReader::from_bytes(slice_to_vec(self))
    }

    fn into_chunks(self) -> (r: ChunkIterator) {
        HttpBody::into_chunks(slice_to_vec(self))
    }

    fn into_bytes(self) -> (r: Vec<u8>) {
        slice_to_vec(self)
    }
}

enum BodyInner {
    Buffered(Vec<u8>),
    Iter(VecDeque<Chunk>),
}

/// A message body: one buffered block (empty for an empty body), or a
/// sequence of chunks of unknown total length.
pub struct Body {
    inner: BodyInner,
}

impl Body {
    /// Whether the body is a chunk sequence, whose length is unknown.
    pub closed spec fn is_streamed(&self) -> bool {
        self.inner is Iter
    }

    /// The chunks of a streamed body.
    pub closed spec fn source(&self) -> Seq<Chunk> {
        match self.inner {
            BodyInner::Iter(q) => q@,
            _ => Seq::empty(),
        }
    }

    /// An empty body: its one chunk is an empty data chunk.
    pub fn empty() -> (r: Body)
        ensures
            r.body_length() == Some(0u64),
            r.body_content() == Seq::<u8>::empty(),
            !r.is_streamed(),
            r.body_chunks() == seq![ChunkView::Data(Seq::empty())],
    {
        Body { inner: BodyInner::Buffered(Vec::new()) }
    }

    /// A known length is the number of bytes the body holds.
    pub proof fn lemma_known_length(&self)
        requires
            self.body_length() is Some,
        ensures
            self.body_content().len() == self.body_length().unwrap() as int,
    {
        broadcast use vstd::std_specs::vec::axiom_spec_len;

        match self.inner {
            BodyInner::Buffered(b) => {
                assert(b.len() == b@.len());
            },
            BodyInner::Iter(_) => {},
        }
    }

    /// A body that holds `bytes`, as one data chunk.
    pub fn from_vec(bytes: Vec<u8>) -> (r: Body)
        ensures
            r.body_length() == Some(bytes@.len() as u64),
            r.body_content() == bytes@,
            !r.is_streamed(),
            r.body_chunks() == seq![ChunkView::Data(bytes@)],
    {
        Body { inner: BodyInner::Buffered(bytes) }
    }

    /// A body that holds the bytes of `text`.
    pub fn from_text(text: &str) -> (r: Body)
        ensures
            r.body_length() == Some(text.spec_bytes().len() as u64),
            r.body_content() == text.spec_bytes(),
            !r.is_streamed(),
            r.body_chunks() == seq![ChunkView::Data(text.spec_bytes())],
    {
        Body::from_vec(text.as_bytes_vec())
    }

    /// A streamed body made of the given blocks, each one data chunk.
    pub fn from_iter(blocks: Vec<Vec<u8>>) -> (r: Body)
        ensures
            r.is_streamed(),
            r.body_length() == None::<u64>,
            r.body_content() == blocks_bytes(blocks@),
            r.source().len() == blocks@.len(),
            forall|i: int|
                0 <= i < blocks@.len() ==> #[trigger] r.source()[i] == Chunk::Data(blocks@[i]),
            r.body_chunks() == blocks@.map_values(|b: Vec<u8>| ChunkView::Data(b@)),
    {
        let ghost all = blocks@;
        let mut blocks = blocks;
        let mut queue: VecDeque<Chunk> = VecDeque::new();
        while blocks.len() > 0
            invariant
                blocks@.len() + queue@.len() == all.len(),
                blocks@ == all.take(blocks@.len() as int),
                forall|i: int|
                    0 <= i < queue@.len() ==> #[trigger] queue@[i] == Chunk::Data(
                        all[blocks@.len() + i],
                    ),
            decreases blocks@.len(),
        {
            let b = blocks.pop().unwrap();
            queue.push_front(Chunk::Data(b));
        }
        let r = Body { inner: BodyInner::Iter(queue) };
        assert(queue@.map_values(|c: Chunk| chunk_data(c)) =~= all.map_values(|b: Vec<u8>| b@));
        assert(chunk_views(queue@) =~= all.map_values(|b: Vec<u8>| ChunkView::Data(b@)));
        r
    }

    /// A streamed body made of the given chunks.
    pub fn from_chunks(chunks: Vec<Chunk>) -> (r: Body)
        ensures
            r.is_streamed(),
            r.body_length() == None::<u64>,
            r.source() == chunks@,
            r.body_content() == data_bytes(chunks@),
            r.body_chunks() == chunk_views(chunks@),
    {
        Body { inner: BodyInner::Iter(deque_of(chunks)) }
    }
}

impl HttpBody for Body {
    closed spec fn body_length(&self) -> Option<u64> {
        match self.inner {
            BodyInner::Buffered(b) => Some(b@.len() as u64),
            BodyInner::Iter(_) => None,
        }
    }

    closed spec fn body_content(&self) -> Seq<u8> {
        match self.inner {
            BodyInner::Buffered(b) => b@,
            BodyInner::Iter(q) => data_bytes(q@),
        }
    }

    closed spec fn body_chunks(&self) -> Seq<ChunkView> {
        match self.inner {
            BodyInner::Buffered(b) => seq![ChunkView::Data(b@)],
            BodyInner::Iter(q) => chunk_views(q@),
        }
    }

    fn len(&self) -> (r: Option<u64>) {
        match &self.inner {
            BodyInner::Buffered(bytes) => Some(bytes.len() as u64),
            BodyInner::Iter(_) => None,
        }
    }

    fn is_empty(&self) -> (r: bool) {
        match self.len() {
            Some(n) => n == 0,
            None => false,
        }
    }

    fn into_reader(self) -> (r: BodyReader) {
        match self.inner {
            BodyInner::Buffered(bytes) => BodyReader::from_bytes(bytes),
            BodyInner::Iter(chunks) => {
                let ghost all = chunks@;
                let mut chunks = chunks;
                let mut blocks: VecDeque<Vec<u8>> = VecDeque::new();
                while chunks.len() > 0
                    invariant
                        blocks_bytes(blocks@) + data_bytes(chunks@) == data_bytes(all),
                    decreases chunks@.len(),
                {
                    let ghost q = chunks@;
                    let ghost b0 = blocks@;
                    proof {
                        lemma_data_bytes_front(q);
                    }
                    match chunks.pop_front() {
                        Some(Chunk::Data(d)) => {
                            proof {
                                lemma_blocks_push(b0, d);
                            }
                            blocks.push_back(d);
                        },
                        _ => {},
                    }
                    assert(q.drop_first() =~= chunks@);
                    assert(blocks_bytes(blocks@) + data_bytes(chunks@) =~= data_bytes(all));
                }
                assert(data_bytes(chunks@) =~= Seq::<u8>::empty());
                let r = BodyReader { current: Vec::new(), pos: 0, queue: blocks };
                assert(r.rest() =~= data_bytes(all));
                r
            },
        }
    }

    fn into_chunks(self) -> (r: ChunkIterator) {
        match self.inner {
            BodyInner::Buffered(bytes) => HttpBody::into_chunks(bytes),
            BodyInner::Iter(chunks) => ChunkIterator { queue: chunks },
        }
    }

    fn into_bytes(self) -> (r: Vec<u8>) {
        match self.inner {
            BodyInner::Buffered(bytes) => bytes,
            BodyInner::Iter(chunks) => {
                let ghost all = chunks@;
                let mut chunks = chunks;
                let mut out: Vec<u8> = Vec::new();
                while chunks.len() > 0
                    invariant
                        out@ + data_bytes(chunks@) == data_bytes(all),
                    decreases chunks@.len(),
                {
                    let ghost q = chunks@;
                    proof {
                        lemma_data_bytes_front(q);
                    }
                    match chunks.pop_front() {
                        Some(Chunk::Data(d)) => {
                            let mut d = d;
                            out.append(&mut d);
                        },
                        _ => {},
                    }
                    assert(q.drop_first() =~= chunks@);
                    assert(out@ + data_bytes(chunks@) =~= data_bytes(all));
                }
                assert(data_bytes(chunks@) =~= Seq::<u8>::empty());
                assert(out@ =~= data_bytes(all));
                out
            },
        }
    }
}

} // verus!
