use http::{HeaderMap, HeaderValue};
use touche_body::response::{hex_bytes, select_encoding, write_chunk_frame, writes_in_one_call};
use touche_body::{write_response, Body, Chunk, Encoding, Outcome, Response, ResponseError, Version};

fn response(headers: &[(&'static str, &'static str)], body: Body) -> Response<()> {
    let mut map = HeaderMap::new();
    for (name, value) in headers {
        map.append(*name, HeaderValue::from_static(value));
    }
    Response { status: 200, version: Version::Http11, headers: map, upgrade: None, body }
}

fn written(res: Response<()>) -> (Vec<u8>, Outcome<()>) {
    let mut output = Vec::new();
    let outcome = write_response(res, &mut output).unwrap();
    (output, outcome)
}

#[test]
fn writes_responses_without_bodies() {
    let (output, _) = written(response(&[("some", "header")], Body::empty()));
    assert_eq!(output, b"HTTP/1.1 200 OK\r\nsome: header\r\n\r\n".to_vec());
}

#[test]
fn writes_responses_with_bodies() {
    let (output, _) = written(response(&[], Body::from_text("lol")));
    assert_eq!(output, b"HTTP/1.1 200 OK\r\ncontent-length: 3\r\n\r\nlol".to_vec());
}

#[test]
fn fails_when_the_informed_content_length_does_not_match_the_body_length() {
    let res = response(&[("content-length", "5")], Body::from_text("lol"));
    let mut output = Vec::new();
    assert!(write_response(res, &mut output).is_err());
    assert!(output.is_empty());
}

#[test]
fn length_mismatch_reports_both_lengths() {
    let res = response(&[("content-length", "5")], Body::from_text("lol"));
    let mut output = Vec::new();
    assert!(matches!(
        write_response(res, &mut output),
        Err(ResponseError::LengthMismatch { declared: 5, actual: 3 })
    ));
}

#[test]
fn writes_chunked_responses() {
    let res = response(
        &[("transfer-encoding", "chunked")],
        Body::from_iter(vec![b"chunk1".to_vec(), b"chunk2".to_vec()]),
    );
    let (output, _) = written(res);
    assert_eq!(
        output,
        b"HTTP/1.1 200 OK\r\ntransfer-encoding: chunked\r\n\r\n6\r\nchunk1\r\n6\r\nchunk2\r\n0\r\n\r\n"
            .to_vec()
    );
}

#[test]
fn uses_chunked_transfer_when_the_body_size_is_unknown() {
    let (output, outcome) = written(response(&[], Body::from_iter(vec![b"lolwut".to_vec()])));
    assert_eq!(
        std::str::from_utf8(&output).unwrap(),
        "HTTP/1.1 200 OK\r\ntransfer-encoding: chunked\r\n\r\n6\r\nlolwut\r\n0\r\n\r\n"
    );
    assert!(matches!(outcome, Outcome::KeepAlive));
}

#[test]
fn does_not_use_chunked_encoding_when_the_body_size_is_unknown_and_connection_is_close() {
    let res = response(
        &[("connection", "close")],
        Body::from_iter(vec![b"lol".to_vec(), b"wut".to_vec()]),
    );
    let (output, outcome) = written(res);
    assert_eq!(
        std::str::from_utf8(&output).unwrap(),
        "HTTP/1.1 200 OK\r\nconnection: close\r\n\r\nlolwut"
    );
    assert!(matches!(outcome, Outcome::Close));
}

#[test]
fn writes_trailers_before_the_final_line() {
    let mut trailers = HeaderMap::new();
    trailers.insert("x-sum", HeaderValue::from_static("42"));
    let body = Body::from_chunks(vec![
        Chunk::from_bytes(b"hello world!".to_vec()),
        Chunk::Trailers(trailers),
    ]);
    let (output, _) = written(response(&[], body));
    assert_eq!(
        std::str::from_utf8(&output).unwrap(),
        "HTTP/1.1 200 OK\r\ntransfer-encoding: chunked\r\n\r\nc\r\nhello world!\r\n0\r\nx-sum: 42\r\n\r\n"
    );
}

#[test]
fn returns_a_close_connection_outcome() {
    let (_, outcome) = written(response(&[("connection", "close")], Body::empty()));
    assert!(matches!(outcome, Outcome::Close));
}

#[test]
fn returns_a_close_keep_alive_outcome() {
    let (_, outcome) = written(response(&[], Body::empty()));
    assert!(matches!(outcome, Outcome::KeepAlive));
}

#[test]
fn an_upgrade_marker_decides_the_outcome() {
    let mut map = HeaderMap::new();
    map.insert("connection", HeaderValue::from_static("close"));
    let res = Response { status: 101, version: Version::Http11, headers: map, upgrade: Some(7_u32), body: Body::empty() };
    let mut output = Vec::new();
    let outcome = write_response(res, &mut output).unwrap();
    assert!(matches!(outcome, Outcome::Upgrade(7)));
    assert_eq!(output, b"HTTP/1.1 101 Switching Protocols\r\nconnection: close\r\n\r\n".to_vec());
}

#[test]
fn writes_the_version_and_reason_phrase() {
    let res: Response<()> = Response {
        status: 404,
        version: Version::Http10,
        headers: HeaderMap::new(),
        upgrade: None,
        body: Body::empty(),
    };
    let mut output = Vec::new();
    write_response(res, &mut output).unwrap();
    assert_eq!(output, b"HTTP/1.0 404 Not Found\r\n\r\n".to_vec());
}

#[test]
fn keeps_a_declared_length_for_a_body_of_unknown_length() {
    let res = response(&[("content-length", "6")], Body::from_iter(vec![b"lol".to_vec(), b"wut".to_vec()]));
    let (output, outcome) = written(res);
    assert_eq!(output, b"HTTP/1.1 200 OK\r\ncontent-length: 6\r\n\r\nlolwut".to_vec());
    assert!(matches!(outcome, Outcome::KeepAlive));
}

#[test]
fn a_matching_declared_length_is_kept() {
    let (output, _) = written(response(&[("content-length", "3")], Body::from_vec(b"lol".to_vec())));
    assert_eq!(output, b"HTTP/1.1 200 OK\r\ncontent-length: 3\r\n\r\nlol".to_vec());
}

#[test]
fn selects_encodings_in_order() {
    assert_eq!(select_encoding(true, true, Some(1), Some(2)), Ok(Encoding::Chunked));
    assert_eq!(
        select_encoding(false, false, Some(5), Some(3)),
        Err(ResponseError::LengthMismatch { declared: 5, actual: 3 })
    );
    assert_eq!(select_encoding(false, true, None, Some(0)), Ok(Encoding::FixedLength));
    assert_eq!(select_encoding(false, true, Some(4), None), Ok(Encoding::FixedLength));
    assert_eq!(select_encoding(false, false, None, None), Ok(Encoding::Chunked));
    assert_eq!(select_encoding(false, true, None, None), Ok(Encoding::CloseDelimited));
}

#[test]
fn formats_chunk_lengths_in_hex() {
    assert_eq!(hex_bytes(0), b"0".to_vec());
    assert_eq!(hex_bytes(255), b"ff".to_vec());
    assert_eq!(hex_bytes(4096), b"1000".to_vec());
    let mut out = Vec::new();
    write_chunk_frame(&mut out, &vec![7_u8; 26]);
    let mut expected = b"1a\r\n".to_vec();
    expected.extend_from_slice(&[7_u8; 26]);
    expected.extend_from_slice(b"\r\n");
    assert_eq!(out, expected);
}

#[test]
fn an_empty_chunked_body_is_only_the_last_chunk() {
    let (output, _) = written(response(&[("transfer-encoding", "chunked")], Body::empty()));
    assert_eq!(output, b"HTTP/1.1 200 OK\r\ntransfer-encoding: chunked\r\n\r\n0\r\n\r\n".to_vec());
}

#[test]
fn an_empty_body_needs_no_content_length() {
    let (output, outcome) = written(response(&[], Body::from_vec(Vec::new())));
    assert_eq!(output, b"HTTP/1.1 200 OK\r\n\r\n".to_vec());
    assert!(matches!(outcome, Outcome::KeepAlive));
}

#[test]
fn a_chunked_declaration_wins_over_a_known_length() {
    let (output, _) = written(response(&[("transfer-encoding", "gzip, chunked")], Body::from_text("lol")));
    assert_eq!(
        output,
        b"HTTP/1.1 200 OK\r\ntransfer-encoding: gzip, chunked\r\n\r\n3\r\nlol\r\n0\r\n\r\n".to_vec()
    );
}

#[test]
fn a_content_length_replaces_nothing_else() {
    let (output, _) = written(response(&[("a", "1"), ("b", "2")], Body::from_text("hello")));
    assert_eq!(output, b"HTTP/1.1 200 OK\r\na: 1\r\nb: 2\r\ncontent-length: 5\r\n\r\nhello".to_vec());
}

#[test]
fn only_short_fixed_length_bodies_are_written_in_one_call() {
    assert!(writes_in_one_call(Encoding::FixedLength, Some(1023)));
    assert!(!writes_in_one_call(Encoding::FixedLength, Some(1024)));
    assert!(!writes_in_one_call(Encoding::FixedLength, None));
    assert!(!writes_in_one_call(Encoding::CloseDelimited, Some(3)));
    assert!(!writes_in_one_call(Encoding::Chunked, Some(3)));
}

fn crowded_headers(count: usize) -> HeaderMap {
    let mut map = HeaderMap::new();
    for i in 0..count {
        let name = http::header::HeaderName::from_bytes(format!("x-h{}", i).as_bytes()).unwrap();
        map.insert(name, HeaderValue::from_static("1"));
    }
    map
}

#[test]
fn refuses_to_add_a_header_to_a_crowded_map() {
    let res: Response<()> = Response {
        status: 200,
        version: Version::Http11,
        headers: crowded_headers(6554),
        upgrade: None,
        body: Body::from_text("lol"),
    };
    let mut output = Vec::new();
    assert!(matches!(write_response(res, &mut output), Err(ResponseError::TooManyHeaders)));
    assert!(output.is_empty());
}

#[test]
fn a_crowded_map_that_needs_no_header_is_written() {
    let mut headers = crowded_headers(6554);
    headers.insert("connection", HeaderValue::from_static("close"));
    let res: Response<()> = Response {
        status: 200,
        version: Version::Http11,
        headers,
        upgrade: None,
        body: Body::from_iter(vec![b"lol".to_vec()]),
    };
    let mut output = Vec::new();
    assert!(matches!(write_response(res, &mut output), Ok(Outcome::Close)));
    assert!(output.ends_with(b"\r\n\r\nlol"));
}

#[test]
fn a_map_at_the_limit_still_takes_a_header() {
    let res: Response<()> = Response {
        status: 200,
        version: Version::Http11,
        headers: crowded_headers(6553),
        upgrade: None,
        body: Body::from_text("lol"),
    };
    let mut output = Vec::new();
    write_response(res, &mut output).unwrap();
    assert!(output.ends_with(b"content-length: 3\r\n\r\nlol"));
}
