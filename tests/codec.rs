use llm_streamliner::{
    Compressor, Expander, IdentityCompressor, IdentityExpander, StreamlinerError, ZlibCompressor,
    ZlibExpander,
};

#[test]
fn test_zlib_roundtrip() {
    let compressor = ZlibCompressor;
    let expander = ZlibExpander;
    let original = "test context";

    let compressed = compressor.compress(original).unwrap();
    let expanded = expander.expand(&compressed).unwrap();

    assert_eq!(original, expanded);
}

#[test]
fn zlib_roundtrip_empty_string() {
    let compressed = ZlibCompressor.compress("").unwrap();
    assert!(!compressed.is_empty());
    assert_eq!(ZlibExpander.expand(&compressed).unwrap(), "");
}

#[test]
fn zlib_roundtrip_multibyte_text() {
    let original = "héllo wörld — 你好, мир 🦀";
    let compressed = ZlibCompressor.compress(original).unwrap();
    assert_eq!(ZlibExpander.expand(&compressed).unwrap(), original);
}

#[test]
fn zlib_roundtrip_long_text_shrinks() {
    let mut original = String::new();
    for i in 0..2000 {
        original.push_str(&format!("line {} of a long conversation\n", i % 17));
    }
    assert!(original.len() > 8000);
    let compressed = ZlibCompressor.compress(&original).unwrap();
    assert!(compressed.len() < original.len());
    assert_eq!(ZlibExpander.expand(&compressed).unwrap(), original);
}

#[test]
fn zlib_output_is_a_zlib_stream() {
    let compressed = ZlibCompressor.compress("test context").unwrap();
    assert_ne!(compressed, b"test context".to_vec());
    // zlib header: deflate method, default level
    assert_eq!(compressed[0], 0x78);
    assert_eq!(compressed[1], 0x9c);
}

#[test]
fn zlib_expand_rejects_garbage() {
    let r = ZlibExpander.expand(&[0x01, 0x02, 0x03, 0x04]);
    assert!(matches!(r, Err(StreamlinerError::ExpansionError(_))));
}

#[test]
fn zlib_expand_rejects_empty_input() {
    let r = ZlibExpander.expand(&[]);
    assert!(matches!(r, Err(StreamlinerError::ExpansionError(_))));
}

#[test]
fn zlib_expand_rejects_truncated_stream() {
    let compressed = ZlibCompressor.compress("some text that will be cut short").unwrap();
    let r = ZlibExpander.expand(&compressed[..compressed.len() / 2]);
    assert!(matches!(r, Err(StreamlinerError::ExpansionError(_))));
}

#[test]
fn zlib_expand_rejects_invalid_utf8_payload() {
    // a valid zlib stream of the bytes ff fe, which are not UTF-8
    let mut e = flate2::write::ZlibEncoder::new(Vec::new(), flate2::Compression::default());
    std::io::Write::write_all(&mut e, &[0xff, 0xfe]).unwrap();
    let stream = e.finish().unwrap();
    let r = ZlibExpander.expand(&stream);
    assert!(matches!(r, Err(StreamlinerError::ExpansionError(_))));
}

#[test]
fn identity_codec_roundtrip() {
    let compressed = IdentityCompressor.compress("plain").unwrap();
    assert_eq!(compressed, b"plain".to_vec());
    assert_eq!(IdentityExpander.expand(&compressed).unwrap(), "plain");
}

#[test]
fn identity_expand_rejects_invalid_utf8() {
    let r = IdentityExpander.expand(&[0x66, 0xff, 0x67]);
    match r {
        Err(StreamlinerError::ExpansionError(cause)) => assert!(cause.contains("UTF-8")),
        _ => panic!("expected an expansion error"),
    }
}

#[test]
fn error_messages_name_their_kind() {
    let e = StreamlinerError::ExpansionError("bad".to_string());
    assert_eq!(e.message(), "Expansion failed: bad");
    let e = StreamlinerError::CompressionError("io".to_string());
    assert_eq!(e.message(), "Compression failed: io");
    let e = StreamlinerError::SerializationError("x".to_string());
    assert_eq!(e.message(), "Serialization error: x");
}

#[test]
fn zlib_compress_is_deterministic() {
    let a = ZlibCompressor.compress("same text").unwrap();
    let b = ZlibCompressor.compress("same text").unwrap();
    assert_eq!(a, b);
}

#[test]
fn zlib_expand_stored_block_of_invalid_utf8() {
    // one stored block holding the byte ff, with its Adler-32
    let b = [0x78, 0x01, 0x01, 0x01, 0x00, 0xFE, 0xFF, 0xFF, 0x01, 0x00, 0x01, 0x00];
    match ZlibExpander.expand(&b) {
        Err(StreamlinerError::ExpansionError(cause)) => {
            assert_eq!(cause, "UTF-8 conversion failed: invalid byte sequence")
        }
        other => panic!("expected an expansion error, got {:?}", other),
    }
}

#[test]
fn zlib_expand_rejects_every_truncation() {
    let compressed = ZlibCompressor.compress("truncate me at every point").unwrap();
    for k in 0..compressed.len() {
        match ZlibExpander.expand(&compressed[..k]) {
            Err(StreamlinerError::ExpansionError(cause)) => assert!(!cause.is_empty()),
            other => panic!("prefix of {} bytes: {:?}", k, other),
        }
    }
}

#[test]
fn zlib_expand_rejects_bad_header() {
    // method 7 instead of DEFLATE
    let r = ZlibExpander.expand(&[0x77, 0x9c, 0x01, 0x02]);
    assert!(matches!(r, Err(StreamlinerError::ExpansionError(_))));
    // header check modulo 31 fails
    let r = ZlibExpander.expand(&[0x78, 0x9d, 0x01, 0x02]);
    assert!(matches!(r, Err(StreamlinerError::ExpansionError(_))));
    // a single byte
    let r = ZlibExpander.expand(&[0x78]);
    assert!(matches!(r, Err(StreamlinerError::ExpansionError(_))));
}

#[test]
fn identity_compress_always_succeeds() {
    assert_eq!(IdentityCompressor.compress("").unwrap(), Vec::<u8>::new());
    assert_eq!(IdentityCompressor.compress("é").unwrap(), vec![0xc3, 0xa9]);
}
