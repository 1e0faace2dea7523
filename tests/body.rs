use touche_body::body::UnexpectedEnd;
use touche_body::stream::StreamBound;
use touche_body::{Body, BodyReader, Chunk, HttpBody};

#[test]
fn test_body_reader_buffered() {
    let body = Body::from_vec(vec![1_u8, 2, 3, 4, 5, 6, 7, 8, 9, 10]);
    let mut reader = body.into_reader();

    let mut buf = [0_u8; 4];
    reader.read_exact(&mut buf).unwrap();
    assert_eq!(buf, [1, 2, 3, 4]);

    let mut buf = [0_u8; 1];
    reader.read_exact(&mut buf).unwrap();
    assert_eq!(buf, [5]);

    let mut buf = [0_u8; 5];
    reader.read_exact(&mut buf).unwrap();
    assert_eq!(buf, [6, 7, 8, 9, 10]);
}

#[test]
fn test_body_reader_chunked() {
    let body = Body::from_iter(vec![vec![1, 2, 3], vec![4, 5, 6], vec![7], vec![8, 9], vec![10]]);
    let mut reader = body.into_reader();

    let mut buf = [0_u8; 4];
    reader.read_exact(&mut buf).unwrap();
    assert_eq!(buf, [1, 2, 3, 4]);

    let mut buf = [0_u8; 1];
    reader.read_exact(&mut buf).unwrap();
    assert_eq!(buf, [5]);

    let mut buf = [0_u8; 5];
    reader.read_exact(&mut buf).unwrap();
    assert_eq!(buf, [6, 7, 8, 9, 10]);
}

#[test]
fn single_reads_stop_at_block_boundaries() {
    let body = Body::from_iter(vec![vec![1, 2, 3], vec![4, 5]]);
    let mut reader = body.into_reader();
    let mut buf = [0_u8; 10];
    assert_eq!(reader.read(&mut buf), 3);
    assert_eq!(&buf[..3], &[1, 2, 3]);
    assert_eq!(reader.read(&mut buf), 2);
    assert_eq!(&buf[..2], &[4, 5]);
    assert_eq!(reader.read(&mut buf), 0);
}

#[test]
fn read_granularity_does_not_change_the_bytes() {
    for size in 1..12 {
        let body = Body::from_iter(vec![vec![1, 2, 3], vec![], vec![4, 5, 6, 7], vec![8]]);
        let mut reader = body.into_reader();
        let mut all = Vec::new();
        let mut buf = vec![0_u8; size];
        loop {
            let n = reader.read(&mut buf);
            if n == 0 {
                break;
            }
            all.extend_from_slice(&buf[..n]);
        }
        assert_eq!(all, vec![1, 2, 3, 4, 5, 6, 7, 8]);
    }
}

#[test]
fn into_bytes_matches_reading_to_the_end() {
    let make = || {
        vec![
            Body::empty(),
            Body::from_vec(vec![9, 8, 7]),
            Body::from_text("lol"),
            Body::from_iter(vec![b"lol".to_vec(), b"wut".to_vec()]),
        ]
    };
    for (a, b) in make().into_iter().zip(make()) {
        let mut read = Vec::new();
        a.into_reader().read_to_end(&mut read);
        assert_eq!(read, b.into_bytes());
    }
}

#[test]
fn read_exact_fails_past_the_end() {
    let mut reader = Body::from_vec(vec![1, 2]).into_reader();
    let mut buf = [0_u8; 3];
    assert_eq!(reader.read_exact(&mut buf), Err(UnexpectedEnd));
}

#[test]
fn trailers_carry_no_bytes() {
    let mut trailers = http::HeaderMap::new();
    trailers.insert("x-sum", http::HeaderValue::from_static("1"));
    let body = Body::from_chunks(vec![
        Chunk::from_bytes(b"lol".to_vec()),
        Chunk::Trailers(trailers),
        Chunk::from_bytes(b"wut".to_vec()),
    ]);
    assert_eq!(body.into_bytes(), b"lolwut".to_vec());
}

#[test]
fn chunks_keep_trailers() {
    let mut trailers = http::HeaderMap::new();
    trailers.insert("x-sum", http::HeaderValue::from_static("1"));
    let body = Body::from_chunks(vec![Chunk::from_bytes(b"lol".to_vec()), Chunk::Trailers(trailers)]);
    let mut chunks = body.into_chunks();
    assert!(matches!(chunks.next(), Some(Chunk::Data(d)) if d == b"lol".to_vec()));
    assert!(chunks.next().unwrap().is_trailers());
    assert!(chunks.next().is_none());
}

#[test]
fn buffered_bodies_are_one_chunk() {
    let mut chunks = Body::from_vec(vec![]).into_chunks();
    assert!(matches!(chunks.next(), Some(Chunk::Data(d)) if d.is_empty()));
    assert!(chunks.next().is_none());
    let mut chunks = Body::empty().into_chunks();
    assert!(matches!(chunks.next(), Some(Chunk::Data(d)) if d.is_empty()));
    assert!(chunks.next().is_none());
}

#[test]
fn only_a_known_zero_length_is_empty() {
    assert_eq!(Body::empty().len(), Some(0));
    assert!(Body::empty().is_empty());
    assert!(Body::from_vec(vec![]).is_empty());
    assert!(!Body::from_vec(vec![1]).is_empty());
    let streamed = Body::from_iter(vec![]);
    assert_eq!(streamed.len(), None);
    assert!(!streamed.is_empty());
    assert!(HttpBody::is_empty(&()));
    assert_eq!(HttpBody::len(&vec![1_u8, 2, 3]), Some(3));
    assert!(!HttpBody::is_empty(&vec![1_u8]));
}

#[test]
fn a_declared_length_bounds_stream_reads() {
    let mut bound = StreamBound::new(Some(3));
    assert_eq!(bound.window(6), 3);
    bound.consumed(2);
    assert!(!bound.is_done());
    assert_eq!(bound.window(6), 1);
    bound.consumed(1);
    assert!(bound.is_done());
    assert_eq!(bound.window(6), 0);

    let mut open = StreamBound::new(None);
    assert_eq!(open.window(6), 6);
    open.consumed(6);
    assert!(!open.is_done());
}

#[test]
fn plain_values_are_bodies() {
    assert_eq!(HttpBody::len(&"lol"), Some(3));
    assert!(HttpBody::is_empty(&""));
    assert_eq!(HttpBody::into_bytes("lol"), b"lol".to_vec());
    let bytes: &[u8] = b"wut";
    assert_eq!(HttpBody::len(&bytes), Some(3));
    let mut all = Vec::new();
    HttpBody::into_reader(bytes).read_to_end(&mut all);
    assert_eq!(all, b"wut".to_vec());
    let mut chunks = HttpBody::into_chunks("hey");
    assert!(matches!(chunks.next(), Some(Chunk::Data(d)) if d == b"hey".to_vec()));
    assert!(chunks.next().is_none());
    assert_eq!(HttpBody::into_bytes(()), Vec::<u8>::new());
    assert!(HttpBody::into_chunks(()).next().is_none());
}

#[test]
fn chunks_pushed_one_at_a_time_are_read_in_order() {
    let mut reader = BodyReader::from_bytes(Vec::new());
    let mut buf = [0_u8; 8];
    assert_eq!(reader.read(&mut buf), 0);
    assert!(reader.push_chunk(Some(Chunk::from_bytes(b"lol".to_vec()))));
    assert!(reader.push_chunk(Some(Chunk::Trailers(http::HeaderMap::new()))));
    assert!(reader.push_chunk(Some(Chunk::from_bytes(b"wut".to_vec()))));
    assert!(!reader.push_chunk(None));
    assert_eq!(reader.read(&mut buf), 3);
    assert_eq!(&buf[..3], b"lol");
    assert_eq!(reader.read(&mut buf), 3);
    assert_eq!(&buf[..3], b"wut");
    assert_eq!(reader.read(&mut buf), 0);
}

#[test]
fn strings_are_bodies() {
    let text = String::from("héllo");
    assert_eq!(HttpBody::len(&text), Some(6));
    assert!(!HttpBody::is_empty(&text));
    assert!(HttpBody::is_empty(&String::new()));
    assert_eq!(HttpBody::into_bytes(text.clone()), "héllo".as_bytes().to_vec());
    let mut all = Vec::new();
    HttpBody::into_reader(text).read_to_end(&mut all);
    assert_eq!(all, "héllo".as_bytes().to_vec());
}
