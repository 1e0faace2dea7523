//! The header map that responses and trailers carry, and the few typed
//! header operations that framing needs from it.
use vstd::prelude::*;

use headers::HeaderMapExt;

verus! {

/// `http::HeaderValue`, carried through without looking inside.
#[verifier::external_type_specification]
#[verifier::external_body]
pub struct ExHeaderValue(http::HeaderValue);

/// `http::HeaderMap`, seen through `header_entries` and the functions below.
#[verifier::external_type_specification]
#[verifier::external_body]
#[verifier::reject_recursive_types(T)]
pub struct ExHeaderMap<T>(http::HeaderMap<T>);

/// One header line as bytes: its name and its value.
pub type HeaderEntry = (Seq<u8>, Seq<u8>);

/// What a header map holds: every (name, value) pair, in iteration order.
pub uninterp spec fn header_entries(h: http::HeaderMap) -> Seq<HeaderEntry>;

/// Whether the `transfer-encoding` values of a map decode and end with `chunked`.
pub uninterp spec fn chunked_declared(entries: Seq<HeaderEntry>) -> bool;

/// Whether the `connection` values of a map decode and list the `close` option.
pub uninterp spec fn close_declared(entries: Seq<HeaderEntry>) -> bool;

/// The `content-length` of a map, where its values decode to one number.
pub uninterp spec fn declared_length(entries: Seq<HeaderEntry>) -> Option<u64>;

/// The bytes of an ASCII text.
pub open spec fn ascii(s: Seq<char>) -> Seq<u8> {
    s.map_values(|c: char| c as u8)
}

pub open spec fn content_length_name() -> Seq<u8> {
    ascii("content-length"@)
}

pub open spec fn transfer_encoding_name() -> Seq<u8> {
    ascii("transfer-encoding"@)
}

/// The decimal digits of `n`, most significant first.
pub open spec fn decimal(n: nat) -> Seq<u8>
    decreases n,
{
    if n < 10 {
        seq![(48 + n) as u8]
    } else {
        decimal(n / 10).push((48 + n % 10) as u8)
    }
}

/// Whether some entry carries the given name.
pub open spec fn has_name(entries: Seq<HeaderEntry>, name: Seq<u8>) -> bool {
    exists|i: int| 0 <= i < entries.len() && #[trigger] entries[i].0 == name
}

/// The index of the first entry with the given name.
pub open spec fn first_index(entries: Seq<HeaderEntry>, name: Seq<u8>) -> int
    recommends
        has_name(entries, name),
{
    choose|i: int|
        0 <= i < entries.len() && entries[i].0 == name && forall|j: int|
            0 <= j < i ==> #[trigger] entries[j].0 != name
}

/// A map after setting `name` to the single value `value`: where the name is
/// present its values are dropped and the new one takes the place of the first;
/// otherwise the pair is appended.
pub open spec fn with_header(entries: Seq<HeaderEntry>, name: Seq<u8>, value: Seq<u8>) -> Seq<
    HeaderEntry,
> {
    if has_name(entries, name) {
        let i = first_index(entries, name);
        entries.take(i).push((name, value)) + entries.skip(i).filter(
            |e: HeaderEntry| e.0 != name,
        )
    } else {
        entries.push((name, value))
    }
}

/// The bytes of the pairs that `header_pairs` hands out.
pub open spec fn pairs_view(pairs: Seq<(Vec<u8>, Vec<u8>)>) -> Seq<HeaderEntry> {
    pairs.map_values(|p: (Vec<u8>, Vec<u8>)| (p.0@, p.1@))
}

/// Relies on `http::HeaderMap::iter`: each name with each of its values, in
/// the map's iteration order.
#[verifier::external_body]
pub(crate) fn header_pairs(h: &http::HeaderMap) -> (r: Vec<(Vec<u8>, Vec<u8>)>)
    ensures
        pairs_view(r@) == header_entries(*h),
{
    let mut r = Vec::new();
    for (name, value) in h.iter() {
        r.push((name.as_str().as_bytes().to_vec(), value.as_bytes().to_vec()));
    }
    r
}

/// Relies on `headers::HeaderMapExt::typed_get::<TransferEncoding>` and
/// `TransferEncoding::is_chunked`: decodes the `transfer-encoding` values.
#[verifier::external_body]
pub(crate) fn has_chunked_encoding(h: &http::HeaderMap) -> (r: bool)
    ensures
        r == chunked_declared(header_entries(*h)),
{
    match h.typed_get::<headers::TransferEncoding>() {
        Some(te) => te.is_chunked(),
        None => false,
    }
}

/// Relies on `headers::HeaderMapExt::typed_get::<Connection>` and
/// `Connection::contains`: decodes the `connection` values.
#[verifier::external_body]
pub(crate) fn has_connection_close(h: &http::HeaderMap) -> (r: bool)
    ensures
        r == close_declared(header_entries(*h)),
{
    match h.typed_get::<headers::Connection>() {
        Some(conn) => conn.contains("close"),
        None => false,
    }
}

/// Relies on `headers::HeaderMapExt::typed_get::<ContentLength>`: decodes the
/// `content-length` values.
#[verifier::external_body]
pub(crate) fn content_length(h: &http::HeaderMap) -> (r: Option<u64>)
    ensures
        r == declared_length(header_entries(*h)),
{
    h.typed_get::<headers::ContentLength>().map(|len| len.0)
}

/// The most entries a map may hold for an insert to be safe: `http`'s entry API
/// panics when a map of more distinct names would have to grow past its limit.
pub const MAX_ENTRIES_FOR_INSERT: usize = 6553;

/// Relies on `http::HeaderMap::len`: the number of values in the map, that is
/// of the pairs that iteration yields.
#[verifier::external_body]
pub(crate) fn header_count(h: &http::HeaderMap) -> (r: usize)
    ensures
        r == header_entries(*h).len(),
{
    h.len()
}

/// Relies on `headers::HeaderMapExt::typed_insert::<ContentLength>`, which sets
/// the entry to the decimal form of `len` through `http`'s entry API.
#[verifier::external_body]
pub(crate) fn insert_content_length(h: &mut http::HeaderMap, len: u64)
    requires
        header_entries(*old(h)).len() <= MAX_ENTRIES_FOR_INSERT,
    ensures
        header_entries(*final(h)) == with_header(
            header_entries(*old(h)),
            content_length_name(),
            decimal(len as nat),
        ),
{
    h.typed_insert(headers::ContentLength(len));
}

/// Relies on `headers::HeaderMapExt::typed_insert` with
/// `TransferEncoding::chunked()`, which sets the entry to `chunked`.
#[verifier::external_body]
pub(crate) fn insert_chunked_encoding(h: &mut http::HeaderMap)
    requires
        header_entries(*old(h)).len() <= MAX_ENTRIES_FOR_INSERT,
    ensures
        header_entries(*final(h)) == with_header(
            header_entries(*old(h)),
            transfer_encoding_name(),
            ascii("chunked"@),
        ),
{
    h.typed_insert(headers::TransferEncoding::chunked());
}

} // verus!
