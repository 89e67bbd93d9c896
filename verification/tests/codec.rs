use line_pipeline::codec::{ByteBuffer, DecodeError, LineCodec};

fn decode_all(codec: &LineCodec, buf: &mut ByteBuffer) -> Vec<String> {
    let mut frames = Vec::new();
    while let Ok(Some(frame)) = codec.decode(buf) {
        frames.push(frame);
    }
    frames
}

#[test]
fn decode_single_line() {
    let codec = LineCodec;
    let mut buf = ByteBuffer::new();
    buf.feed(b"hello, world!\n");
    let r = codec.decode(&mut buf);
    assert_eq!(r, Ok(Some(String::from("hello, world!"))));
    assert_eq!(buf.len(), 0);
}

#[test]
fn no_delimiter_yields_no_frame() {
    let codec = LineCodec;
    let mut buf = ByteBuffer::new();
    buf.feed(b"a long run of bytes without any delimiter at all");
    let r = codec.decode(&mut buf);
    assert_eq!(r, Ok(None));
    assert_eq!(buf.len(), 48);
    let r2 = codec.decode(&mut buf);
    assert_eq!(r2, Ok(None));
}

#[test]
fn empty_payload_is_a_frame() {
    let codec = LineCodec;
    let mut buf = ByteBuffer::new();
    buf.feed(b"\n\n");
    assert_eq!(codec.decode(&mut buf), Ok(Some(String::new())));
    assert_eq!(codec.decode(&mut buf), Ok(Some(String::new())));
    assert_eq!(codec.decode(&mut buf), Ok(None));
}

#[test]
fn invalid_utf8_is_fatal() {
    let codec = LineCodec;
    let mut buf = ByteBuffer::new();
    buf.feed(&[0xff, 0xfe, b'\n', b'o', b'k', b'\n']);
    let r = codec.decode(&mut buf);
    assert_eq!(r, Err(DecodeError::InvalidEncoding));
}

#[test]
fn incremental_feeding_decodes_one_line() {
    let codec = LineCodec;
    let mut buf = ByteBuffer::new();
    buf.feed(b"hel");
    assert_eq!(codec.decode(&mut buf), Ok(None));
    buf.feed(b"lo, wor");
    assert_eq!(codec.decode(&mut buf), Ok(None));
    buf.feed(b"ld!\n");
    assert_eq!(codec.decode(&mut buf), Ok(Some(String::from("hello, world!"))));
    assert_eq!(buf.len(), 0);
}

#[test]
fn chunking_makes_no_difference() {
    let codec = LineCodec;
    let bytes = b"first\nsecond\n\nthird line\nleftover";

    let mut all_at_once = ByteBuffer::new();
    all_at_once.feed(bytes);
    let frames_bulk = decode_all(&codec, &mut all_at_once);

    let mut byte_by_byte = ByteBuffer::new();
    let mut frames_single = Vec::new();
    for b in bytes.iter() {
        byte_by_byte.feed(&[*b]);
        frames_single.extend(decode_all(&codec, &mut byte_by_byte));
    }

    assert_eq!(frames_bulk, frames_single);
    assert_eq!(
        frames_bulk,
        vec![
            String::from("first"),
            String::from("second"),
            String::new(),
            String::from("third line"),
        ]
    );
    assert_eq!(all_at_once.len(), byte_by_byte.len());
}

#[test]
fn multiple_frames_extractable_without_new_input() {
    let codec = LineCodec;
    let mut buf = ByteBuffer::new();
    buf.feed(b"one\ntwo\nthree\n");
    assert_eq!(codec.decode(&mut buf), Ok(Some(String::from("one"))));
    assert_eq!(codec.decode(&mut buf), Ok(Some(String::from("two"))));
    assert_eq!(codec.decode(&mut buf), Ok(Some(String::from("three"))));
    assert_eq!(codec.decode(&mut buf), Ok(None));
}

#[test]
fn encode_appends_payload_and_delimiter() {
    let codec = LineCodec;
    let mut out = vec![b'x'];
    codec.encode(String::from("abc"), &mut out);
    assert_eq!(out, b"xabc\n".to_vec());
}

#[test]
fn encode_then_decode_round_trips() {
    let codec = LineCodec;
    let mut wire: Vec<u8> = Vec::new();
    codec.encode(String::from("a frame with spaces"), &mut wire);
    let encoded_len = wire.len();
    wire.extend_from_slice(b"arbitrary remaining bytes");

    let mut buf = ByteBuffer::new();
    buf.feed(&wire);
    let before = buf.len();
    let r = codec.decode(&mut buf);
    assert_eq!(r, Ok(Some(String::from("a frame with spaces"))));
    assert_eq!(before - buf.len(), encoded_len);
}

#[test]
fn multibyte_text_survives_decoding() {
    let codec = LineCodec;
    let mut wire: Vec<u8> = Vec::new();
    codec.encode(String::from("héllo • 日本語"), &mut wire);
    let mut buf = ByteBuffer::new();
    buf.feed(&wire);
    assert_eq!(codec.decode(&mut buf), Ok(Some(String::from("héllo • 日本語"))));
}
