use object_system::io::read_objects;
use object_system::io::BusinessObjectStream;
use object_system::json::JsonValue;
use object_system::object::{BusinessObject, Payload, ReadBusinessObjectError};

fn nth_parsed_object(buffer: &Vec<u8>, index: usize) -> BusinessObject {
    let objs_result = read_objects(buffer);

    match objs_result {
        Err(e) => {
            println!("{:?}", e);
            panic!()
        },
        _ => {},
    }

    let (mut objects, _) = objs_result.unwrap();
    objects.remove(index)
}

#[test]
fn should_read_an_object_without_payload() {
    let mut buf: Vec<u8> = Vec::new();

    buf.extend(r#"{"event": "foo/bar"}"#.to_string().into_bytes());
    buf.push(0u8);
    assert_eq!("foo/bar", nth_parsed_object(&buf, 0).event.unwrap());

    buf.extend(r#"{"event": "bar/foo"}"#.to_string().into_bytes());
    buf.push(0u8);
    assert_eq!("foo/bar", nth_parsed_object(&buf, 0).event.unwrap());
    assert_eq!("bar/foo", nth_parsed_object(&buf, 1).event.unwrap());
}

#[test]
fn should_read_two_objects_without_payload() {
    let mut buf: Vec<u8> = Vec::new();

    buf.extend(r#"{"event": "foo/bar"}"#.to_string().into_bytes());
    buf.push(0u8);
    buf.extend(r#"{"event": "bar/foo"}"#.to_string().into_bytes());
    buf.push(0u8);

    assert_eq!("foo/bar", nth_parsed_object(&buf, 0).event.unwrap());
    assert_eq!("bar/foo", nth_parsed_object(&buf, 1).event.unwrap());
}

#[test]
fn should_read_an_object_with_payload() {
    let mut buf: Vec<u8> = Vec::new();

    buf.extend(r#"{"event": "foo/bar", "size": 5, "type": "text/plain"}"#.to_string().into_bytes());
    buf.push(0u8);
    let payload = "ABCDE".to_string().into_bytes();
    buf.extend(&payload);

    let obj = nth_parsed_object(&buf, 0);
    assert_eq!("foo/bar", obj.event.unwrap());

    match obj.payload.unwrap() {
        Payload::Bytes(bytes) => {
            assert_eq!(payload, bytes);
        },
    }
}

#[test]
fn should_read_two_objects_with_payloads() {
    let mut buf: Vec<u8> = Vec::new();

    buf.extend(r#"{"event": "foo/bar", "size": 5, "type": "text/plain"}"#.to_string().into_bytes());
    buf.push(0u8);
    let payload1 = "ABCDE".to_string().into_bytes();
    buf.extend(&payload1);

    buf.extend(r#"{"event": "bar/foo", "size": 5, "type": "text/plain"}"#.to_string().into_bytes());
    buf.push(0u8);
    let payload2 = "EDCBA".to_string().into_bytes();
    buf.extend(&payload2);

    let obj = nth_parsed_object(&buf, 0);
    assert_eq!("foo/bar", obj.event.unwrap());

    match obj.payload.unwrap() {
        Payload::Bytes(bytes) => {
            assert_eq!(payload1, bytes);
        },
    }

    let obj = nth_parsed_object(&buf, 1);
    assert_eq!("bar/foo", obj.event.unwrap());

    match obj.payload.unwrap() {
        Payload::Bytes(bytes) => {
            assert_eq!(payload2, bytes);
        },
    }
}

fn sample_object() -> BusinessObject {
    BusinessObject {
        event: Some("routing/announcement".to_string()),
        _type: Some("text/plain".to_string()),
        size: Some(5),
        payload: Some(Payload::Bytes(vec![1u8, 0u8, 2u8, 0u8, 3u8])),
        metadata: vec![
            ("hop-count".to_string(), JsonValue::Num("3".to_string())),
            ("tags".to_string(), JsonValue::Arr(vec![
                JsonValue::Str("a/b".to_string()),
                JsonValue::Bool(true),
                JsonValue::Null,
            ])),
        ],
    }
}

#[test]
fn encoded_object_decodes_back_to_an_equal_one() {
    let original = sample_object();
    let bytes = original.to_bytes();
    let (objects, consumed) = read_objects(&bytes).unwrap();
    assert_eq!(objects.len(), 1);
    assert_eq!(consumed, bytes.len());
    assert!(objects[0] == original);
}

#[test]
fn encoded_object_without_payload_round_trips() {
    let original = BusinessObject {
        event: Some("ping".to_string()),
        _type: None,
        size: None,
        payload: None,
        metadata: vec![("id".to_string(), JsonValue::Str("q-1".to_string()))],
    };
    let bytes = original.to_bytes();
    let (objects, consumed) = read_objects(&bytes).unwrap();
    assert_eq!(objects.len(), 1);
    assert_eq!(consumed, bytes.len());
    assert!(objects[0] == original);
}

#[test]
fn escaped_and_accented_text_survives_the_round_trip() {
    let original = BusinessObject {
        event: Some("caf\u{e9}/d\u{e9}tails \"quoted\" \\ and\tcontrol\n".to_string()),
        _type: None,
        size: None,
        payload: None,
        metadata: Vec::new(),
    };
    let bytes = original.to_bytes();
    let (objects, _) = read_objects(&bytes).unwrap();
    assert_eq!(objects.len(), 1);
    assert!(objects[0] == original);
}

#[test]
fn unicode_escape_in_header_is_decoded() {
    let mut buf: Vec<u8> = Vec::new();
    buf.extend(r#"{"event": "Aé"}"#.to_string().into_bytes());
    buf.push(0u8);
    let obj = nth_parsed_object(&buf, 0);
    assert_eq!("A\u{e9}", obj.event.unwrap());
}

#[test]
fn declared_size_consumes_exactly_header_one_and_size_bytes() {
    let header = r#"{"size": 3}"#;
    let mut buf: Vec<u8> = header.to_string().into_bytes();
    buf.push(0u8);
    buf.extend(vec![9u8, 8u8, 7u8]);
    buf.extend(vec![0xFFu8, 0xFFu8]);
    let (objects, consumed) = read_objects(&buf).unwrap();
    assert_eq!(objects.len(), 1);
    assert_eq!(consumed, header.len() + 1 + 3);
    assert_eq!(objects[0].size, Some(3));
}

#[test]
fn stream_beginning_with_nul_is_malformed() {
    let buf: Vec<u8> = vec![0u8, b'{', b'}'];
    match read_objects(&buf) {
        Err(ReadBusinessObjectError::NoInputError(_)) => {},
        other => panic!("unexpected outcome: {:?}", other),
    }
}

#[test]
fn invalid_utf8_header_is_a_character_decoding_error() {
    let buf: Vec<u8> = vec![0xFFu8, 0xFEu8, 0u8];
    match read_objects(&buf) {
        Err(ReadBusinessObjectError::BufferCharacterDecodingError) => {},
        other => panic!("unexpected outcome: {:?}", other),
    }
}

#[test]
fn broken_header_text_is_a_syntax_error() {
    let mut buf: Vec<u8> = r#"{"event": "#.to_string().into_bytes();
    buf.push(0u8);
    match read_objects(&buf) {
        Err(ReadBusinessObjectError::JsonSyntaxError(_, _)) => {},
        other => panic!("unexpected outcome: {:?}", other),
    }
}

#[test]
fn non_mapping_header_is_a_semantics_error() {
    let mut buf: Vec<u8> = r#"[1, 2]"#.to_string().into_bytes();
    buf.push(0u8);
    match read_objects(&buf) {
        Err(ReadBusinessObjectError::JsonSemanticsError(_)) => {},
        other => panic!("unexpected outcome: {:?}", other),
    }
}

#[test]
fn split_stream_yields_the_same_objects_as_the_whole() {
    let first = sample_object();
    let second = BusinessObject {
        event: Some("pong".to_string()),
        _type: None,
        size: None,
        payload: None,
        metadata: Vec::new(),
    };
    let mut whole = first.to_bytes();
    whole.extend(second.to_bytes());
    for cut in 0..whole.len() + 1 {
        let mut stream = BusinessObjectStream::new();
        let head: Vec<u8> = whole[..cut].to_vec();
        let tail: Vec<u8> = whole[cut..].to_vec();
        stream.feed(&head);
        let mut collected = stream.read_business_objects().unwrap();
        stream.feed(&tail);
        collected.extend(stream.read_business_objects().unwrap());
        assert_eq!(collected.len(), 2);
        assert!(collected[0] == first);
        assert!(collected[1] == second);
    }
}

#[test]
fn header_without_delimiter_delivers_nothing() {
    let mut stream = BusinessObjectStream::new();
    let bytes = r#"{"event": "ping"}"#.to_string().into_bytes();
    stream.feed(&bytes);
    let objects = stream.read_business_objects().unwrap();
    assert_eq!(objects.len(), 0);
}

#[test]
fn partial_payload_waits_for_the_remaining_bytes() {
    let mut stream = BusinessObjectStream::new();
    let mut bytes = r#"{"event": "blob", "size": 5}"#.to_string().into_bytes();
    bytes.push(0u8);
    bytes.extend(vec![1u8, 2u8, 3u8]);
    stream.feed(&bytes);
    assert_eq!(stream.read_business_objects().unwrap().len(), 0);
    let rest = vec![4u8, 5u8];
    stream.feed(&rest);
    let objects = stream.read_business_objects().unwrap();
    assert_eq!(objects.len(), 1);
    match objects[0].payload.as_ref().unwrap() {
        Payload::Bytes(b) => assert_eq!(b, &vec![1u8, 2u8, 3u8, 4u8, 5u8]),
    }
}

#[test]
fn large_declared_size_is_rendered_in_decimal() {
    let original = BusinessObject {
        event: None,
        _type: None,
        size: Some(12345),
        payload: Some(Payload::Bytes(vec![0u8; 12345])),
        metadata: Vec::new(),
    };
    let bytes = original.to_bytes();
    let header: Vec<u8> = bytes.iter().cloned().take_while(|b| *b != 0u8).collect();
    let text = String::from_utf8(header).unwrap();
    assert!(text.contains("12345"));
    let (objects, consumed) = read_objects(&bytes).unwrap();
    assert_eq!(objects[0].size, Some(12345));
    assert_eq!(consumed, bytes.len());
}
