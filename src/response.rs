//! HTTP/1.1 response framing: choosing how the body is delimited, setting the
//! headers that say so, writing the head and the body, and deciding what
//! becomes of the connection afterwards.
use vstd::prelude::*;

use vstd::string::{is_ascii, StrSliceExecFns};

use crate::body::{Body, HttpBody};
use crate::chunk::{chunk_views, view_of, Chunk, ChunkView};
use crate::header::{
    ascii, chunked_declared, close_declared, content_length, content_length_name, decimal,
    declared_length, has_chunked_encoding, has_connection_close, header_entries, header_pairs,
    insert_chunked_encoding, insert_content_length, pairs_view, transfer_encoding_name,
    with_header, header_count, HeaderEntry, MAX_ENTRIES_FOR_INSERT,
};

verus! {

broadcast use vstd::seq_lib::group_seq_properties;

/// How the end of a response body is made known to the peer.
#[derive(Clone, Copy, Debug, PartialEq, Eq, Structural)]
pub enum Encoding {
    /// The body is exactly as long as the `content-length` says.
    FixedLength,
    /// The body is sent in chunks, each with its length.
    Chunked,
    /// The body ends where the connection is closed.
    CloseDelimited,
}

/// What becomes of the connection once a response has been written.
pub enum Outcome<U> {
    Close,
    KeepAlive,
    /// The connection is handed to the protocol named by the upgrade marker.
    Upgrade(U),
}

/// Why a response could not be written.
#[derive(Clone, Copy, Debug, PartialEq, Eq, Structural)]
pub enum ResponseError {
    /// The `content-length` header disagrees with the length of the body.
    LengthMismatch { declared: u64, actual: u64 },
    /// A framing header has to be added to a map too large to take it.
    TooManyHeaders,
}

/// The protocol version of a response.
#[derive(Clone, Copy, Debug, PartialEq, Eq, Structural)]
pub enum Version {
    Http09,
    Http10,
    Http11,
    H2,
    H3,
}

/// A response to be written: status, version, headers, an optional upgrade
/// marker and the body.
pub struct Response<U> {
    pub status: u16,
    pub version: Version,
    pub headers: http::HeaderMap,
    pub upgrade: Option<U>,
    pub body: Body,
}

/// The status code and reason phrase as a status line shows them.
pub uninterp spec fn status_text(code: u16) -> Seq<u8>;

/// Relies on `http::StatusCode::from_u16`, which accepts codes from 100 to 999,
/// and on `StatusCode`'s `Display`: the code followed by its reason phrase.
#[verifier::external_body]
fn status_text_bytes(code: u16) -> (r: Vec<u8>)
    requires
        100 <= code <= 999,
    ensures
        r@ == status_text(code),
{
    match http::StatusCode::from_u16(code) {
        Ok(status) => status.to_string().into_bytes(),
        Err(_) => Vec::new(),
    }
}

pub open spec fn version_text(v: Version) -> Seq<u8> {
    match v {
        Version::Http09 => ascii("HTTP/0.9"@),
        Version::Http10 => ascii("HTTP/1.0"@),
        Version::Http11 => ascii("HTTP/1.1"@),
        Version::H2 => ascii("HTTP/2.0"@),
        Version::H3 => ascii("HTTP/3.0"@),
    }
}

pub open spec fn crlf() -> Seq<u8> {
    ascii("\r\n"@)
}

/// One header line: `name: value` and a line break.
pub open spec fn header_line(e: HeaderEntry) -> Seq<u8> {
    e.0 + ascii(": "@) + e.1 + crlf()
}

/// The header lines of a map, in its order.
pub open spec fn header_lines(entries: Seq<HeaderEntry>) -> Seq<u8> {
    entries.map_values(|e: HeaderEntry| header_line(e)).flatten()
}

/// The head of a response: status line, header lines and an empty line.
pub open spec fn head_bytes(v: Version, status: u16, entries: Seq<HeaderEntry>) -> Seq<u8> {
    version_text(v) + ascii(" "@) + status_text(status) + crlf() + header_lines(entries) + crlf()
}

pub open spec fn hex_digit(d: nat) -> u8 {
    if d < 10 {
        (48 + d) as u8
    } else {
        (87 + d) as u8
    }
}

/// The lower-case hexadecimal digits of `n`, most significant first.
pub open spec fn hex(n: nat) -> Seq<u8>
    decreases n,
{
    if n < 16 {
        seq![hex_digit(n)]
    } else {
        hex(n / 16).push(hex_digit(n % 16))
    }
}

/// The frame of one data chunk: its length in hexadecimal, a line break, the
/// data and a line break. An empty data chunk gets no frame at all, since a
/// chunk of length zero is what ends a chunked body.
pub open spec fn chunk_frame(d: Seq<u8>) -> Seq<u8> {
    if d.len() == 0 {
        Seq::empty()
    } else {
        hex(d.len()) + crlf() + d + crlf()
    }
}

pub open spec fn frame_of(c: ChunkView) -> Seq<u8> {
    match c {
        ChunkView::Data(d) => chunk_frame(d),
        ChunkView::Trailers(_) => Seq::empty(),
    }
}

pub open spec fn trailer_of(c: ChunkView) -> Seq<u8> {
    match c {
        ChunkView::Data(_) => Seq::empty(),
        ChunkView::Trailers(h) => header_lines(header_entries(h)),
    }
}

/// The frames of the data chunks, in order.
pub open spec fn data_frames(chunks: Seq<ChunkView>) -> Seq<u8> {
    chunks.map_values(|c: ChunkView| frame_of(c)).flatten()
}

/// The lines of every trailer set, in order.
pub open spec fn trailer_lines(chunks: Seq<ChunkView>) -> Seq<u8> {
    chunks.map_values(|c: ChunkView| trailer_of(c)).flatten()
}

/// A chunked body: the data frames, then the last chunk of length zero, the
/// trailer lines and an empty line. Every trailer set that the chunks carry is
/// written there, in order, wherever it stood among the data.
pub open spec fn chunked_bytes(chunks: Seq<ChunkView>) -> Seq<u8> {
    data_frames(chunks) + ascii("0\r\n"@) + trailer_lines(chunks) + crlf()
}

/// The encoding that a response gets, from what its headers declare and the
/// length the body reports.
pub open spec fn encoding_for(
    chunked: bool,
    close: bool,
    declared: Option<u64>,
    body_len: Option<u64>,
) -> Result<Encoding, ResponseError> {
    if chunked {
        Ok(Encoding::Chunked)
    } else if declared is Some || body_len is Some {
        match (declared, body_len) {
            (Some(d), Some(b)) => if d != b {
                Err(ResponseError::LengthMismatch { declared: d, actual: b })
            } else {
                Ok(Encoding::FixedLength)
            },
            _ => Ok(Encoding::FixedLength),
        }
    } else if !close {
        Ok(Encoding::Chunked)
    } else {
        Ok(Encoding::CloseDelimited)
    }
}

/// The headers after framing: a `content-length` for a known non-zero body
/// length that no header declares, `transfer-encoding: chunked` for a body of
/// unknown length that is not delimited by closing the connection.
pub open spec fn framed_entries(entries: Seq<HeaderEntry>, body_len: Option<u64>) -> Seq<
    HeaderEntry,
> {
    let declared = declared_length(entries);
    if chunked_declared(entries) {
        entries
    } else if declared is Some || body_len is Some {
        if declared is None && body_len.unwrap() > 0 {
            with_header(entries, content_length_name(), decimal(body_len.unwrap() as nat))
        } else {
            entries
        }
    } else if !close_declared(entries) {
        with_header(entries, transfer_encoding_name(), ascii("chunked"@))
    } else {
        entries
    }
}

/// Whether framing adds a header to the map.
pub open spec fn adds_header(entries: Seq<HeaderEntry>, body_len: Option<u64>) -> bool {
    &&& !chunked_declared(entries)
    &&& declared_length(entries) is None
    &&& match body_len {
        Some(n) => n > 0,
        None => !close_declared(entries),
    }
}

/// The result of framing a response: the encoding chosen, or why there is
/// none; a header that has to be added to a map too large to take it fails.
pub open spec fn framing_for(entries: Seq<HeaderEntry>, body_len: Option<u64>) -> Result<
    Encoding,
    ResponseError,
> {
    let enc = encoding_for(
        chunked_declared(entries),
        close_declared(entries),
        declared_length(entries),
        body_len,
    );
    if enc is Ok && adds_header(entries, body_len) && entries.len() > MAX_ENTRIES_FOR_INSERT {
        Err(ResponseError::TooManyHeaders)
    } else {
        enc
    }
}

/// What the connection becomes: an upgrade marker decides first, then a
/// close-delimited body or a `connection: close` header.
pub open spec fn outcome_for<U>(upgrade: Option<U>, enc: Encoding, close: bool, o: Outcome<U>) -> bool {
    match upgrade {
        Some(u) => o == Outcome::Upgrade(u),
        None => if enc == Encoding::CloseDelimited || close {
            o is Close
        } else {
            o is KeepAlive
        },
    }
}

/// A body of known length, with no length or chunked encoding declared, is
/// sent with a fixed length, and a non-zero length is announced by a
/// `content-length` header that framing adds.
pub proof fn lemma_known_length_is_fixed(entries: Seq<HeaderEntry>, len: u64)
    requires
        declared_length(entries) is None,
        !chunked_declared(entries),
    ensures
        encoding_for(
            chunked_declared(entries),
            close_declared(entries),
            declared_length(entries),
            Some(len),
        ) == Ok::<Encoding, ResponseError>(Encoding::FixedLength),
        len > 0 ==> framed_entries(entries, Some(len)) == with_header(
            entries,
            content_length_name(),
            decimal(len as nat),
        ),
        len == 0 ==> framed_entries(entries, Some(len)) == entries,
        len == 0 || entries.len() <= MAX_ENTRIES_FOR_INSERT ==> framing_for(entries, Some(len))
            == Ok::<Encoding, ResponseError>(Encoding::FixedLength),
{
}

/// A body of unknown length, with no declared length and no request to close
/// the connection, is sent chunked, and framing announces it with
/// `transfer-encoding: chunked` unless the headers already do.
pub proof fn lemma_unknown_length_is_chunked(entries: Seq<HeaderEntry>)
    requires
        declared_length(entries) is None,
        !close_declared(entries),
    ensures
        encoding_for(
            chunked_declared(entries),
            close_declared(entries),
            declared_length(entries),
            None,
        ) == Ok::<Encoding, ResponseError>(Encoding::Chunked),
        !chunked_declared(entries) ==> framed_entries(entries, None) == with_header(
            entries,
            transfer_encoding_name(),
            ascii("chunked"@),
        ),
        entries.len() <= MAX_ENTRIES_FOR_INSERT ==> framing_for(entries, None) == Ok::<
            Encoding,
            ResponseError,
        >(Encoding::Chunked),
{
}

/// A body of unknown length, with no declared length or chunked encoding but a
/// request to close the connection, is delimited by the close: the headers stay
/// as they are and, without an upgrade marker, the connection is closed.
pub proof fn lemma_unknown_length_with_close<U>(entries: Seq<HeaderEntry>, o: Outcome<U>)
    requires
        declared_length(entries) is None,
        !chunked_declared(entries),
        close_declared(entries),
    ensures
        encoding_for(
            chunked_declared(entries),
            close_declared(entries),
            declared_length(entries),
            None,
        ) == Ok::<Encoding, ResponseError>(Encoding::CloseDelimited),
        framed_entries(entries, None) == entries,
        framing_for(entries, None) == Ok::<Encoding, ResponseError>(Encoding::CloseDelimited),
        outcome_for(None, Encoding::CloseDelimited, close_declared(entries), o) <==> o is Close,
{
}

/// An upgrade marker decides the outcome, whatever the encoding and headers.
pub proof fn lemma_upgrade_overrides<U>(u: U, enc: Encoding, close: bool, o: Outcome<U>)
    ensures
        outcome_for(Some(u), enc, close, o) <==> o == Outcome::Upgrade(u),
{
}

/// A declared length that differs from the body's known length fails.
pub proof fn lemma_length_mismatch_fails(chunked: bool, close: bool, declared: u64, actual: u64)
    requires
        !chunked,
        declared != actual,
    ensures
        encoding_for(chunked, close, Some(declared), Some(actual)) == Err::<
            Encoding,
            ResponseError,
        >(ResponseError::LengthMismatch { declared, actual }),
{
}

/// Chooses the encoding from what the headers declare and the body's length.
pub fn select_encoding(chunked: bool, close: bool, declared: Option<u64>, body_len: Option<u64>) -> (r:
    Result<Encoding, ResponseError>)
    ensures
        r == encoding_for(chunked, close, declared, body_len),
{
    if chunked {
        Ok(Encoding::Chunked)
    } else if declared.is_some() || body_len.is_some() {
        match (declared, body_len) {
            (Some(d), Some(b)) => if d != b {
                Err(ResponseError::LengthMismatch { declared: d, actual: b })
            } else {
                Ok(Encoding::FixedLength)
            },
            _ => Ok(Encoding::FixedLength),
        }
    } else if !close {
        Ok(Encoding::Chunked)
    } else {
        Ok(Encoding::CloseDelimited)
    }
}

/// Whether the headers ask for the connection to be closed.
pub fn asks_to_close(headers: &http::HeaderMap) -> (r: bool)
    ensures
        r == close_declared(header_entries(*headers)),
{
    has_connection_close(headers)
}

/// Decides the encoding of a response and sets the headers that announce it.
/// On an error the headers are left as they were.
pub fn frame_headers(headers: &mut http::HeaderMap, body_len: Option<u64>) -> (r: Result<
    Encoding,
    ResponseError,
>)
    ensures
        r == framing_for(header_entries(*old(headers)), body_len),
        r is Ok ==> header_entries(*final(headers)) == framed_entries(
            header_entries(*old(headers)),
            body_len,
        ),
        r is Err ==> header_entries(*final(headers)) == header_entries(*old(headers)),
{
    let chunked = has_chunked_encoding(headers);
    let close = has_connection_close(headers);
    let declared = content_length(headers);
    let enc = select_encoding(chunked, close, declared, body_len);
    let adds = match enc {
        Ok(Encoding::FixedLength) => match (declared, body_len) {
            (None, Some(len)) => len > 0,
            _ => false,
        },
        Ok(Encoding::Chunked) => !chunked,
        _ => false,
    };
    if adds && header_count(headers) > MAX_ENTRIES_FOR_INSERT {
        return Err(ResponseError::TooManyHeaders);
    }
    match enc {
        Ok(Encoding::FixedLength) => {
            if adds {
                insert_content_length(headers, body_len.unwrap());
            }
        },
        Ok(Encoding::Chunked) => {
            if adds {
                insert_chunked_encoding(headers);
            }
        },
        _ => {},
    }
    enc
}

/// Appends the bytes of `src` to `out`.
fn push_all(out: &mut Vec<u8>, src: &Vec<u8>)
    ensures
        final(out)@ == old(out)@ + src@,
{
    let mut i: usize = 0;
    while i < src.len()
        invariant
            i <= src@.len(),
            out@ == old(out)@ + src@.take(i as int),
        decreases src@.len() - i,
    {
        out.push(src[i]);
        i = i + 1;
        assert(out@ =~= old(out)@ + src@.take(i as int));
    }
    assert(src@.take(i as int) =~= src@);
}

/// Appends the bytes of an ASCII text to `out`.
fn push_ascii(out: &mut Vec<u8>, text: &str)
    requires
        is_ascii(text),
    ensures
        final(out)@ == old(out)@ + ascii(text@),
{
    proof {
        vstd::string::is_ascii_spec_bytes(text);
    }
    let bytes = text.as_bytes_vec();
    assert(bytes@ =~= ascii(text@));
    push_all(out, &bytes);
}

/// The lower-case hexadecimal form of `n`.
pub fn hex_bytes(n: u64) -> (r: Vec<u8>)
    ensures
        r@ == hex(n as nat),
    decreases n,
{
    let d = (n % 16) as u8;
    let digit: u8 = if d < 10 {
        48 + d
    } else {
        87 + d
    };
    if n < 16 {
        let mut r: Vec<u8> = Vec::new();
        r.push(digit);
        assert(r@ =~= hex(n as nat));
        r
    } else {
        let mut r = hex_bytes(n / 16);
        r.push(digit);
        r
    }
}

/// Appends the status line of a response to `out`.
fn write_status_line(out: &mut Vec<u8>, version: Version, status: u16)
    requires
        100 <= status <= 999,
    ensures
        final(out)@ == old(out)@ + version_text(version) + ascii(" "@) + status_text(status)
            + crlf(),
{
    proof {
        reveal_strlit("HTTP/0.9");
        reveal_strlit("HTTP/1.0");
        reveal_strlit("HTTP/1.1");
        reveal_strlit("HTTP/2.0");
        reveal_strlit("HTTP/3.0");
        reveal_strlit(" ");
        reveal_strlit("\r\n");
    }
    match version {
        Version::Http09 => push_ascii(out, "HTTP/0.9"),
        Version::Http10 => push_ascii(out, "HTTP/1.0"),
        Version::Http11 => push_ascii(out, "HTTP/1.1"),
        Version::H2 => push_ascii(out, "HTTP/2.0"),
        Version::H3 => push_ascii(out, "HTTP/3.0"),
    }
    push_ascii(out, " ");
    let text = status_text_bytes(status);
    push_all(out, &text);
    push_ascii(out, "\r\n");
}

/// Appends one line per header entry to `out`.
pub fn write_header_lines(out: &mut Vec<u8>, headers: &http::HeaderMap)
    ensures
        final(out)@ == old(out)@ + header_lines(header_entries(*headers)),
{
    proof {
        reveal_strlit(": ");
        reveal_strlit("\r\n");
    }
    let pairs = header_pairs(headers);
    let ghost entries = pairs_view(pairs@);
    let mut i: usize = 0;
    while i < pairs.len()
        invariant
            i <= pairs@.len(),
            entries == pairs_view(pairs@),
            out@ == old(out)@ + header_lines(entries.take(i as int)),
        decreases pairs@.len() - i,
    {
        proof {
            reveal_strlit(": ");
            reveal_strlit("\r\n");
        }
        push_all(out, &pairs[i].0);
        push_ascii(out, ": ");
        push_all(out, &pairs[i].1);
        push_ascii(out, "\r\n");
        proof {
            let lines = entries.take(i as int).map_values(|e: HeaderEntry| header_line(e));
            assert(entries.take(i as int + 1).map_values(|e: HeaderEntry| header_line(e))
                =~= lines.push(header_line(entries[i as int])));
            lines.lemma_flatten_push(header_line(entries[i as int]));
        }
        i = i + 1;
        assert(out@ =~= old(out)@ + header_lines(entries.take(i as int)));
    }
    assert(entries.take(i as int) =~= entries);
}

/// Appends the head of a response to `out`: status line, headers, empty line.
pub fn write_head(out: &mut Vec<u8>, version: Version, status: u16, headers: &http::HeaderMap)
    requires
        100 <= status <= 999,
    ensures
        final(out)@ == old(out)@ + head_bytes(version, status, header_entries(*headers)),
{
    proof {
        reveal_strlit("\r\n");
    }
    write_status_line(out, version, status);
    write_header_lines(out, headers);
    push_ascii(out, "\r\n");
    assert(out@ =~= old(out)@ + head_bytes(version, status, header_entries(*headers)));
}

/// Appends the frame of one data chunk to `out`.
pub fn write_chunk_frame(out: &mut Vec<u8>, data: &Vec<u8>)
    ensures
        final(out)@ == old(out)@ + chunk_frame(data@),
{
    proof {
        reveal_strlit("\r\n");
    }
    if data.len() == 0 {
        assert(out@ =~= old(out)@ + chunk_frame(data@));
        return;
    }
    let len = hex_bytes(data.len() as u64);
    push_all(out, &len);
    push_ascii(out, "\r\n");
    push_all(out, data);
    push_ascii(out, "\r\n");
    assert(out@ =~= old(out)@ + chunk_frame(data@));
}

proof fn lemma_frames_front(chunks: Seq<Chunk>)
    requires
        chunks.len() > 0,
    ensures
        data_frames(chunk_views(chunks)) == frame_of(view_of(chunks[0])) + data_frames(
            chunk_views(chunks.drop_first()),
        ),
        trailer_lines(chunk_views(chunks)) == trailer_of(view_of(chunks[0])) + trailer_lines(
            chunk_views(chunks.drop_first()),
        ),
{
    let v = chunk_views(chunks);
    assert(v.drop_first() =~= chunk_views(chunks.drop_first()));
    let f = v.map_values(|c: ChunkView| frame_of(c));
    let t = v.map_values(|c: ChunkView| trailer_of(c));
    assert(f.drop_first() =~= v.drop_first().map_values(|c: ChunkView| frame_of(c)));
    assert(t.drop_first() =~= v.drop_first().map_values(|c: ChunkView| trailer_of(c)));
}

/// Appends a chunked body to `out`: a frame per data chunk, then the last
/// chunk with every trailer set sent along the way.
pub fn write_chunked(out: &mut Vec<u8>, body: Body)
    ensures
        final(out)@ == old(out)@ + chunked_bytes(body.body_chunks()),
{
    proof {
        reveal_strlit("0\r\n");
        reveal_strlit("\r\n");
    }
    let ghost all = body.body_chunks();
    let mut chunks = body.into_chunks();
    let mut trailers: Vec<u8> = Vec::new();
    loop
        invariant
            out@ + data_frames(chunk_views(chunks.remaining())) == old(out)@ + data_frames(all),
            trailers@ + trailer_lines(chunk_views(chunks.remaining())) == trailer_lines(all),
        ensures
            out@ == old(out)@ + data_frames(all),
            trailers@ == trailer_lines(all),
        decreases chunks.remaining().len(),
    {
        let ghost q = chunks.remaining();
        match chunks.next() {
            Some(chunk) => {
                proof {
                    lemma_frames_front(q);
                }
                match chunk {
                    Chunk::Data(d) => write_chunk_frame(out, &d),
                    Chunk::Trailers(h) => write_header_lines(&mut trailers, &h),
                }
                assert(out@ + data_frames(chunk_views(chunks.remaining())) =~= old(out)@
                    + data_frames(all));
                assert(trailers@ + trailer_lines(chunk_views(chunks.remaining()))
                    =~= trailer_lines(all));
            },
            None => {
                assert(data_frames(chunk_views(q)) =~= Seq::<u8>::empty());
                assert(trailer_lines(chunk_views(q)) =~= Seq::<u8>::empty());
                assert(out@ =~= old(out)@ + data_frames(all));
                assert(trailers@ =~= trailer_lines(all));
                break;
            },
        }
    }
    write_last_chunk(out, &trailers);
    assert(out@ =~= old(out)@ + chunked_bytes(all));
}

/// Appends the end of a chunked body to `out`: the chunk of length zero, the
/// trailer lines and an empty line.
pub fn write_last_chunk(out: &mut Vec<u8>, trailer_lines: &Vec<u8>)
    ensures
        final(out)@ == old(out)@ + ascii("0\r\n"@) + trailer_lines@ + crlf(),
{
    proof {
        reveal_strlit("0\r\n");
        reveal_strlit("\r\n");
    }
    push_ascii(out, "0\r\n");
    push_all(out, trailer_lines);
    push_ascii(out, "\r\n");
    assert(out@ =~= old(out)@ + ascii("0\r\n"@) + trailer_lines@ + crlf());
}

/// What becomes of the connection after a response: an upgrade marker takes
/// it over, a close-delimited body or a `connection: close` header closes it,
/// and otherwise it is kept for the next request.
pub fn decide_outcome<U>(upgrade: Option<U>, enc: Encoding, close: bool) -> (o: Outcome<U>)
    ensures
        outcome_for(upgrade, enc, close, o),
{
    match upgrade {
        Some(u) => Outcome::Upgrade(u),
        None => if enc == Encoding::CloseDelimited || close {
            Outcome::Close
        } else {
            Outcome::KeepAlive
        },
    }
}

/// A fixed-length body shorter than this is written in one call; a longer one
/// is copied as it is read.
pub const ONE_CALL_LIMIT: u64 = 1024;

/// Whether a body is written in one call rather than copied as it is read.
pub fn writes_in_one_call(enc: Encoding, body_len: Option<u64>) -> (r: bool)
    ensures
        r == (enc == Encoding::FixedLength && body_len is Some && body_len.unwrap()
            < ONE_CALL_LIMIT),
{
    match (enc, body_len) {
        (Encoding::FixedLength, Some(len)) => len < ONE_CALL_LIMIT,
        _ => false,
    }
}

/// The bytes that follow the head, for the body and the encoding chosen.
pub open spec fn body_bytes(enc: Encoding, body: Body) -> Seq<u8> {
    if enc == Encoding::Chunked {
        chunked_bytes(body.body_chunks())
    } else {
        body.body_content()
    }
}

/// Writes a response to `out` and says what becomes of the connection.
///
/// The encoding is chosen from the headers and the body's length; on a
/// `content-length` that disagrees with the body, or a framing header that the
/// map is too large to take, nothing is written. Otherwise the head, with the
/// headers that framing adds, and the body are appended.
pub fn write_response<U>(res: Response<U>, out: &mut Vec<u8>) -> (r: Result<Outcome<U>, ResponseError>)
    requires
        100 <= res.status <= 999,
    ensures
        ({
            let e = header_entries(res.headers);
            let enc = framing_for(e, res.body.body_length());
            let framed = framed_entries(e, res.body.body_length());
            match r {
                Err(err) => enc == Err::<Encoding, ResponseError>(err) && final(out)@ == old(out)@,
                Ok(o) => {
                    &&& enc is Ok
                    &&& final(out)@ == old(out)@ + head_bytes(res.version, res.status, framed)
                        + body_bytes(enc.unwrap(), res.body)
                    &&& outcome_for(res.upgrade, enc.unwrap(), close_declared(framed), o)
                },
            }
        }),
{
    let Response { status, version, headers, upgrade, body } = res;
    let mut headers = headers;
    let enc = match frame_headers(&mut headers, body.len()) {
        Ok(enc) => enc,
        Err(err) => return Err(err),
    };
    write_head(out, version, status, &headers);
    match enc {
        Encoding::Chunked => write_chunked(out, body),
        _ => {
            let mut bytes = body.into_bytes();
            out.append(&mut bytes);
        },
    }
    let close = has_connection_close(&headers);
    Ok(decide_outcome(upgrade, enc, close))
}

} // verus!
