use eevee::serialize::{
    binary_file_content, header_bytes, strip_binary_header, strip_text_header, HeaderError,
};

#[test]
fn test_strip_text_header_accepts_matching_header() {
    let text = "eevee-serializer: json-1\n{\"a\": 1}\nmore";
    let body = strip_text_header(text, "json-1").unwrap();
    assert_eq!(body, "{\"a\": 1}\nmore");
    let empty = strip_text_header("eevee-serializer: x\n", "x").unwrap();
    assert_eq!(empty, "");
}

#[test]
fn test_strip_text_header_errors() {
    assert!(matches!(
        strip_text_header("no newline here", "json-1"),
        Err(HeaderError::Missing)
    ));
    match strip_text_header("eevee-serializer: json-2\nbody", "json-1") {
        Err(HeaderError::Unexpected(found)) => {
            assert_eq!(found, b"eevee-serializer: json-2".to_vec())
        }
        other => panic!("unexpected result {:?}", other),
    }
}

#[test]
fn test_strip_binary_header() {
    let content = binary_file_content("binary-1", &[1, 2, 3, 10, 0]);
    assert_eq!(&content[..], b"eevee-serializer: binary-1\n\x01\x02\x03\n\x00");
    assert_eq!(strip_binary_header(&content, "binary-1").unwrap(), &[1, 2, 3, 10, 0]);
    match strip_binary_header(&content, "binary-2") {
        Err(HeaderError::Unexpected(found)) => {
            assert_eq!(found, b"eevee-serializer: binary-1".to_vec())
        }
        other => panic!("unexpected result {:?}", other),
    }
    match strip_binary_header(b"garbage", "binary-1") {
        Err(HeaderError::Unexpected(found)) => assert_eq!(found, b"garbage".to_vec()),
        other => panic!("unexpected result {:?}", other),
    }
    assert_eq!(header_bytes("id"), b"eevee-serializer: id".to_vec());
}

#[test]
fn test_text_round_trip() {
    let id = "json-1";
    let body = "{\"genome\": []}";
    let mut text = String::from_utf8(header_bytes(id)).unwrap();
    text.push('\n');
    text.push_str(body);
    assert_eq!(strip_text_header(&text, id).unwrap(), body);
}
