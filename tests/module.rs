use llm_streamliner::{
    Compressor,
    IdentityCompressor, IdentityExpander, MemoryModule, StreamlinerError, ZlibCompressor,
    ZlibExpander,
};

#[test]
fn test_zlib_implementation() {
    let compressor = ZlibCompressor;
    let expander = ZlibExpander;
    let original = "This is a longer test string to verify zlib compression works properly";

    let module = MemoryModule::new(original, &compressor).unwrap();
    let expanded = module.expand(&expander).unwrap();

    assert_eq!(original, expanded);

    let json = module.to_json().unwrap();
    let deserialized = MemoryModule::from_json(&json).unwrap();
    let reexpanded = deserialized.expand(&expander).unwrap();
    assert_eq!(original, reexpanded);
}

#[test]
fn test_memory_module_roundtrip() {
    let compressor = IdentityCompressor;
    let expander = IdentityExpander;
    let original = "test context";

    let module = MemoryModule::new(original, &compressor).unwrap();
    let expanded = module.expand(&expander).unwrap();

    assert_eq!(original, expanded);
}

#[test]
fn new_module_has_empty_metadata() {
    let module = MemoryModule::new("abc", &IdentityCompressor).unwrap();
    assert_eq!(module.metadata(), "");
    assert_eq!(module.compressed_data(), b"abc");
}

#[test]
fn set_metadata_keeps_data_and_expansion() {
    let mut module = MemoryModule::new("keep me", &ZlibCompressor).unwrap();
    let before = module.compressed_data().to_vec();
    module.set_metadata("zlib v1".to_string());
    assert_eq!(module.metadata(), "zlib v1");
    assert_eq!(module.compressed_data(), before.as_slice());
    assert_eq!(module.expand(&ZlibExpander).unwrap(), "keep me");
    module.set_metadata(String::new());
    assert_eq!(module.metadata(), "");
    assert_eq!(module.compressed_data(), before.as_slice());
}

#[test]
fn to_json_writes_both_fields() {
    let mut module = MemoryModule::new("\u{1}A", &IdentityCompressor).unwrap();
    module.set_metadata("tag \"q\" \\ \n\u{7}é".to_string());
    let json = module.to_json().unwrap();
    assert_eq!(
        json,
        "{\"compressed_data\":[1,65],\"metadata\":\"tag \\\"q\\\" \\\\ \\n\\u0007é\"}"
    );
}

#[test]
fn to_json_empty_module() {
    let module = MemoryModule::new("", &IdentityCompressor).unwrap();
    assert_eq!(module.to_json().unwrap(), "{\"compressed_data\":[],\"metadata\":\"\"}");
}

#[test]
fn json_roundtrip_keeps_data_and_metadata() {
    let mut module = MemoryModule::new("round trip ✓", &ZlibCompressor).unwrap();
    module.set_metadata("algo=zlib\tversion=1 \u{1f}".to_string());
    let back = MemoryModule::from_json(&module.to_json().unwrap()).unwrap();
    assert_eq!(back.compressed_data(), module.compressed_data());
    assert_eq!(back.metadata(), module.metadata());
    assert_eq!(back.expand(&ZlibExpander).unwrap(), "round trip ✓");
}

#[test]
fn from_json_accepts_other_order_and_whitespace() {
    let json = " {\n  \"metadata\" : \"m\\u0041\",\n  \"compressed_data\" : [ 104, 105 ]\n} ";
    let module = MemoryModule::from_json(json).unwrap();
    assert_eq!(module.compressed_data(), b"hi");
    assert_eq!(module.metadata(), "mA");
    assert_eq!(module.expand(&IdentityExpander).unwrap(), "hi");
}

#[test]
fn from_json_rejects_missing_field() {
    let r = MemoryModule::from_json("{\"compressed_data\":[1,2]}");
    assert!(matches!(r, Err(StreamlinerError::SerializationError(_))));
}

#[test]
fn from_json_rejects_unknown_field() {
    let r = MemoryModule::from_json("{\"compressed_data\":[1],\"metadata\":\"\",\"extra\":1}");
    assert!(matches!(r, Err(StreamlinerError::SerializationError(_))));
    let r = MemoryModule::from_json("{\"compressed_data\":[1],\"other\":\"\"}");
    assert!(matches!(r, Err(StreamlinerError::SerializationError(_))));
}

#[test]
fn from_json_rejects_repeated_field() {
    let r = MemoryModule::from_json("{\"metadata\":\"a\",\"metadata\":\"b\"}");
    assert!(matches!(r, Err(StreamlinerError::SerializationError(_))));
}

#[test]
fn from_json_rejects_bad_values() {
    let r = MemoryModule::from_json("{\"compressed_data\":[256],\"metadata\":\"\"}");
    assert!(matches!(r, Err(StreamlinerError::SerializationError(_))));
    let r = MemoryModule::from_json("{\"compressed_data\":[1],\"metadata\":\"\\q\"}");
    assert!(matches!(r, Err(StreamlinerError::SerializationError(_))));
    let r = MemoryModule::from_json("{\"compressed_data\":\"x\",\"metadata\":\"\"}");
    assert!(matches!(r, Err(StreamlinerError::SerializationError(_))));
}

#[test]
fn from_json_rejects_non_json() {
    for text in ["", "not json", "[1,2,3]", "{}", "{\"compressed_data\":[1],\"metadata\":\"\"} x"] {
        let r = MemoryModule::from_json(text);
        assert!(matches!(r, Err(StreamlinerError::SerializationError(_))), "{}", text);
    }
}

#[test]
fn from_json_does_not_check_payload() {
    let module = MemoryModule::from_json("{\"compressed_data\":[1,2,3],\"metadata\":\"\"}").unwrap();
    let r = module.expand(&ZlibExpander);
    assert!(matches!(r, Err(StreamlinerError::ExpansionError(_))));
}

#[test]
fn json_roundtrip_every_ascii_control_and_unicode() {
    let mut meta = String::new();
    for c in 0u8..0x80 {
        meta.push(c as char);
    }
    meta.push_str("é—你🦀");
    let mut module = MemoryModule::new("x", &IdentityCompressor).unwrap();
    module.set_metadata(meta.clone());
    let json = module.to_json().unwrap();
    let back = MemoryModule::from_json(&json).unwrap();
    assert_eq!(back.metadata(), meta);
    assert_eq!(back.compressed_data(), b"x");
}

#[test]
fn to_json_is_read_by_serde_json() {
    let mut module = MemoryModule::new("serde", &ZlibCompressor).unwrap();
    module.set_metadata("line\nbreak \"quoted\"".to_string());
    let json = module.to_json().unwrap();
    let value: serde_json::Value = serde_json::from_str(&json).unwrap();
    let data: Vec<u8> = serde_json::from_value(value["compressed_data"].clone()).unwrap();
    assert_eq!(data, module.compressed_data());
    assert_eq!(value["metadata"].as_str().unwrap(), "line\nbreak \"quoted\"");
    assert_eq!(value.as_object().unwrap().len(), 2);
}

#[test]
fn json_roundtrip_all_byte_values() {
    let mut text = String::new();
    for i in 0..300u32 {
        text.push(char::from_u32(0x20 + (i * 7919) % 0x2000).unwrap_or('?'));
    }
    let module = MemoryModule::new(&text, &ZlibCompressor).unwrap();
    let back = MemoryModule::from_json(&module.to_json().unwrap()).unwrap();
    assert_eq!(back.compressed_data(), module.compressed_data());
    assert_eq!(back.expand(&ZlibExpander).unwrap(), text);
}

#[test]
fn from_json_reads_escaped_keys() {
    let m = MemoryModule::from_json("{\"compressed_data\":[1],\"\\u006detadata\":\"x\"}").unwrap();
    assert_eq!(m.compressed_data(), &[1u8][..]);
    assert_eq!(m.metadata(), "x");
    let r = MemoryModule::from_json("{\"\\u006detadata\":\"a\",\"metadata\":\"b\"}");
    assert!(matches!(r, Err(StreamlinerError::SerializationError(_))));
}

#[test]
fn new_with_zlib_keeps_compressor_output() {
    let context = "This is a longer test string to verify zlib compression works properly";
    let module = MemoryModule::new(context, &ZlibCompressor).unwrap();
    assert_eq!(module.metadata(), "");
    assert_eq!(module.compressed_data(), ZlibCompressor.compress(context).unwrap().as_slice());
}
