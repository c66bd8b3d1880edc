use puml::codec::{LspCodec, LspEvent};

#[test]
fn encode_frames_a_message() {
    let codec = LspCodec::new();
    let bytes = codec.encode(&LspEvent::Message("{\"a\":1}".to_string()));
    assert_eq!(bytes, b"Content-Length: 7\r\n\r\n{\"a\":1}".to_vec());
    let empty = codec.encode_message("");
    assert_eq!(empty, b"Content-Length: 0\r\n\r\n".to_vec());
    let long = "x".repeat(1234);
    let framed = codec.encode_message(&long);
    assert!(framed.starts_with(b"Content-Length: 1234\r\n\r\n"));
    assert_eq!(framed.len(), 24 + 1234);
    let accent = codec.encode_message("é");
    assert_eq!(accent, b"Content-Length: 2\r\n\r\n\xc3\xa9".to_vec());
}

#[test]
fn decode_reads_a_whole_frame() {
    let codec = LspCodec::new();
    let got = codec.decode(b"Content-Length: 5\r\n\r\nhello and more");
    assert_eq!(got, Some(LspEvent::Message("hello".to_string())));
    let zeros = codec.decode_message(b"Content-Length: 003\r\n\r\nabc");
    assert_eq!(zeros, Some("abc".to_string()));
    let utf8 = codec.decode_message(b"Content-Length: 2\r\n\r\n\xc3\xa9");
    assert_eq!(utf8, Some("é".to_string()));
}

#[test]
fn decode_round_trips_encode() {
    let codec = LspCodec::new();
    for m in ["", "x", "{\"jsonrpc\":\"2.0\"}", "ünïcödé"] {
        let bytes = codec.encode_message(m);
        assert_eq!(codec.decode_message(&bytes), Some(m.to_string()));
    }
}

#[test]
fn decode_waits_or_refuses() {
    let codec = LspCodec::new();
    assert_eq!(codec.decode(b""), None);
    assert_eq!(codec.decode(b"Content-Length: 5\r\n\r\nhel"), None);
    assert_eq!(codec.decode(b"Content-Length: 5\r\n"), None);
    assert_eq!(codec.decode(b"Content-Length: \r\n\r\n"), None);
    assert_eq!(codec.decode(b"Content-Type: 5\r\n\r\nhello"), None);
    assert_eq!(codec.decode(b"Content-Length: 5\n\nhello"), None);
    assert_eq!(codec.decode(b"Content-Length: 99999999999999999999999\r\n\r\nx"), None);
    assert_eq!(codec.decode(b"Content-Length: 2\r\n\r\n\xff\xfe"), None);
}
