use nbt::reader::{
    is_simple_value, parse_nbt_stream, read_nbt_byte_array, read_nbt_int_array, read_nbt_string,
    tag_constant_to_name,
};
use nbt::{ByteReader, Compound, List, NbtReadError, RootValue, Value};

fn string_bytes(s: &str) -> Vec<u8> {
    let mut out = vec![(s.len() >> 8) as u8, s.len() as u8];
    out.extend_from_slice(s.as_bytes());
    out
}

fn parse(bytes: Vec<u8>) -> Result<RootValue, NbtReadError> {
    let mut reader = ByteReader::new(bytes);
    parse_nbt_stream(&mut reader)
}

fn root_compound(entries: &[u8]) -> Vec<u8> {
    let mut doc = vec![10u8];
    doc.extend(string_bytes(""));
    doc.extend_from_slice(entries);
    doc.push(0);
    doc
}

fn expect_compound(root: RootValue) -> Compound {
    match root.value {
        Value::Compound(c) => c,
        other => panic!("not a compound: {:?}", other),
    }
}

#[test]
fn test_read_signed() {
    let test_buf = vec![0u8, 1, 0, 0, 2, 0, 0xff, 0xff, 0xde];
    let mut cursor = ByteReader::new(test_buf);

    assert!(0x01 == cursor.read_i16().unwrap());
    assert!(0x200 == cursor.read_i32().unwrap());
    assert!(-1 == cursor.read_i16().unwrap());
    match cursor.read_i16() {
        Ok(_) => panic!("Should have hit EOF, but didn't!"),
        Err(err) => match err {
            NbtReadError::UnexpectedEof => (),
            _ => panic!("Got unexpected error: {:?}", err),
        },
    };
}

#[test]
fn test_read_unsigned() {
    let test_buf = vec![3, 4, 0xfd, 0xfe];
    let mut cursor = ByteReader::new(test_buf);
    assert!(0x304 == cursor.read_u16().unwrap());
    assert!(0xfdfe == cursor.read_u16().unwrap());
}

#[test]
fn test_reader_hello_world() {
    let mut hello_world = vec![10u8];
    hello_world.extend(string_bytes("hello world"));
    hello_world.push(8);
    hello_world.extend(string_bytes("name"));
    hello_world.extend(string_bytes("Bananrama"));
    hello_world.push(0);

    let root = match parse(hello_world) {
        Ok(result) => result,
        Err(err) => panic!("{:?}", err),
    };
    assert_eq!(root.name, "hello world");
    let root_value = match root.value {
        Value::Compound(c) => c,
        _ => panic!("Not a compound?"),
    };
    assert_eq!(1, root_value.len());
    let entry = match root_value.get("name") {
        None => panic!("Expected value not in Compound."),
        Some(v) => v,
    };
    match entry {
        &Value::String(ref s) => assert_eq!("Bananrama", s),
        _ => panic!("Entry wasn't a string."),
    };
}

#[test]
fn wide_integers_are_big_endian_twos_complement() {
    let mut cursor = ByteReader::new(vec![
        0x80, 0xff, 0xff, 0xff, 0xff, 0xff, 0xff, 0xfe, 0x01, 0x02, 0x03, 0x04, 0x05, 0x06,
        0x07, 0x08, 0x9c,
    ]);
    assert_eq!(cursor.read_i64().unwrap(), i64::MIN + 0x00ff_ffff_ffff_fffe);
    assert_eq!(cursor.read_u64().unwrap(), 0x0102_0304_0506_0708);
    assert_eq!(cursor.read_i8().unwrap(), -100);
    assert_eq!(cursor.pos(), 17);
    assert_eq!(cursor.remaining(), 0);
    assert!(matches!(cursor.read_u8(), Err(NbtReadError::UnexpectedEof)));
}

#[test]
fn scalar_root_values() {
    let mut doc = vec![3u8];
    doc.extend(string_bytes("n"));
    doc.extend_from_slice(&[0xff, 0xff, 0xff, 0xfe]);
    let root = parse(doc).unwrap();
    assert_eq!(root.name, "n");
    assert!(matches!(root.value, Value::Int(-2)));

    let mut doc = vec![5u8];
    doc.extend(string_bytes(""));
    doc.extend_from_slice(&1.5f32.to_bits().to_be_bytes());
    match parse(doc).unwrap().value {
        Value::Float(bits) => assert_eq!(f32::from_bits(bits), 1.5),
        other => panic!("unexpected {:?}", other),
    }

    let mut doc = vec![6u8];
    doc.extend(string_bytes(""));
    doc.extend_from_slice(&(-0.25f64).to_bits().to_be_bytes());
    match parse(doc).unwrap().value {
        Value::Double(bits) => assert_eq!(f64::from_bits(bits), -0.25),
        other => panic!("unexpected {:?}", other),
    }

    let mut doc = vec![2u8];
    doc.extend(string_bytes(""));
    doc.extend_from_slice(&[0x80, 0x00]);
    assert!(matches!(parse(doc).unwrap().value, Value::Short(-32768)));

    let mut doc = vec![4u8];
    doc.extend(string_bytes(""));
    doc.extend_from_slice(&[0, 0, 0, 0, 0, 0, 1, 0]);
    assert!(matches!(parse(doc).unwrap().value, Value::Long(256)));
}

#[test]
fn arrays_and_strings() {
    let mut cursor = ByteReader::new(vec![0, 0, 0, 3, 7, 8, 9, 0, 0, 0, 2, 0, 0, 0, 5, 0xff, 0xff, 0xff, 0xfb]);
    assert_eq!(read_nbt_byte_array(&mut cursor).unwrap(), vec![7, 8, 9]);
    assert_eq!(read_nbt_int_array(&mut cursor).unwrap(), vec![5, -5]);

    let mut cursor = ByteReader::new(string_bytes("héllo"));
    assert_eq!(read_nbt_string(&mut cursor).unwrap(), "héllo");

    let mut cursor = ByteReader::new(vec![0, 0]);
    assert_eq!(read_nbt_string(&mut cursor).unwrap(), "");
}

#[test]
fn end_typed_list_of_zero_is_empty() {
    let mut entries = vec![9u8];
    entries.extend(string_bytes("l"));
    entries.extend_from_slice(&[0, 0, 0, 0, 0]);
    let c = expect_compound(parse(root_compound(&entries)).unwrap());
    assert!(matches!(c.get("l"), Some(Value::List(List::Empty))));
}

#[test]
fn end_typed_list_with_elements_is_invalid() {
    let mut entries = vec![9u8];
    entries.extend(string_bytes("l"));
    entries.extend_from_slice(&[0, 0, 0, 0, 1]);
    assert!(matches!(parse(root_compound(&entries)), Err(NbtReadError::InvalidTagType)));
}

#[test]
fn truncated_string_is_eof() {
    let mut doc = vec![8u8];
    doc.extend(string_bytes(""));
    doc.extend_from_slice(&[0, 10, b'a', b'b']);
    assert!(matches!(parse(doc), Err(NbtReadError::UnexpectedEof)));
}

#[test]
fn truncated_byte_array_is_eof() {
    let mut doc = vec![7u8];
    doc.extend(string_bytes(""));
    doc.extend_from_slice(&[0, 0, 0, 4, 1, 2, 3]);
    assert!(matches!(parse(doc), Err(NbtReadError::UnexpectedEof)));
}

#[test]
fn truncated_int_array_is_eof() {
    let mut cursor = ByteReader::new(vec![0, 0, 0, 2, 0, 0, 0, 1, 0, 0]);
    assert!(matches!(read_nbt_int_array(&mut cursor), Err(NbtReadError::UnexpectedEof)));
}

#[test]
fn invalid_utf8_string_is_rejected() {
    let mut doc = vec![8u8];
    doc.extend(string_bytes(""));
    doc.extend_from_slice(&[0, 2, 0xc3, 0x28]);
    assert!(matches!(parse(doc), Err(NbtReadError::InvalidUtf8(_))));
}

#[test]
fn unknown_tag_is_reported_with_its_code() {
    let mut doc = vec![12u8];
    doc.extend(string_bytes(""));
    assert!(matches!(parse(doc), Err(NbtReadError::UnknownTagType(12))));

    let mut entries = vec![12u8];
    entries.extend(string_bytes("x"));
    assert!(matches!(parse(root_compound(&entries)), Err(NbtReadError::UnknownTagType(12))));

    let mut entries = vec![9u8];
    entries.extend(string_bytes("l"));
    entries.extend_from_slice(&[12, 0, 0, 0, 0]);
    assert!(matches!(parse(root_compound(&entries)), Err(NbtReadError::UnknownTagType(12))));
}

#[test]
fn end_tag_as_root_is_invalid() {
    let mut doc = vec![0u8];
    doc.extend(string_bytes(""));
    assert!(matches!(parse(doc), Err(NbtReadError::InvalidTagType)));
}

#[test]
fn empty_input_is_eof() {
    assert!(matches!(parse(Vec::new()), Err(NbtReadError::UnexpectedEof)));
    assert!(matches!(parse(vec![10, 0, 0]), Err(NbtReadError::UnexpectedEof)));
}

#[test]
fn duplicate_key_keeps_later_value() {
    let mut entries = vec![1u8];
    entries.extend(string_bytes("k"));
    entries.push(5);
    entries.push(1);
    entries.extend(string_bytes("k"));
    entries.push(9);
    let c = expect_compound(parse(root_compound(&entries)).unwrap());
    assert_eq!(c.len(), 1);
    assert!(matches!(c.get("k"), Some(Value::Byte(9))));
}

#[test]
fn int_array_entry_is_simple() {
    let mut entries = vec![11u8];
    entries.extend(string_bytes("a"));
    entries.extend_from_slice(&[0, 0, 0, 1, 0, 0, 1, 0]);
    let c = expect_compound(parse(root_compound(&entries)).unwrap());
    match c.get("a") {
        Some(Value::IntArray(v)) => assert_eq!(v, &vec![256]),
        other => panic!("unexpected {:?}", other),
    }
}

#[test]
fn nested_lists_and_compounds() {
    // {"ll": [[1, 2], []], "lc": [{"s": "x"}, {}], "ls": ["a", "b"]}
    let mut entries = vec![9u8];
    entries.extend(string_bytes("ll"));
    entries.extend_from_slice(&[9, 0, 0, 0, 2]);
    entries.extend_from_slice(&[1, 0, 0, 0, 2, 1, 2]);
    entries.extend_from_slice(&[1, 0, 0, 0, 0]);
    entries.push(9);
    entries.extend(string_bytes("lc"));
    entries.extend_from_slice(&[10, 0, 0, 0, 2]);
    entries.push(8);
    entries.extend(string_bytes("s"));
    entries.extend(string_bytes("x"));
    entries.push(0);
    entries.push(0);
    entries.push(9);
    entries.extend(string_bytes("ls"));
    entries.extend_from_slice(&[8, 0, 0, 0, 2]);
    entries.extend(string_bytes("a"));
    entries.extend(string_bytes("b"));
    let c = expect_compound(parse(root_compound(&entries)).unwrap());
    assert_eq!(c.len(), 3);
    match c.get("ll") {
        Some(Value::List(List::List(inner))) => {
            assert_eq!(inner.len(), 2);
            assert!(matches!(&inner[0], List::Byte(v) if v == &vec![1i8, 2]));
            assert!(matches!(&inner[1], List::Byte(v) if v.is_empty()));
        },
        other => panic!("unexpected {:?}", other),
    }
    match c.get("lc") {
        Some(Value::List(List::Compound(items))) => {
            assert_eq!(items.len(), 2);
            assert!(matches!(items[0].get("s"), Some(Value::String(s)) if s == "x"));
            assert!(items[1].is_empty());
        },
        other => panic!("unexpected {:?}", other),
    }
    match c.get("ls") {
        Some(Value::List(List::String(v))) => assert_eq!(v, &vec!["a".to_string(), "b".to_string()]),
        other => panic!("unexpected {:?}", other),
    }
}

#[test]
fn deep_nesting_uses_no_native_recursion() {
    let depth = 100_000usize;
    let mut doc = vec![10u8, 0, 0];
    for _ in 0..depth {
        doc.extend_from_slice(&[10, 0, 0]);
    }
    for _ in 0..=depth {
        doc.push(0);
    }
    let len = doc.len();
    let mut reader = ByteReader::new(doc);
    let root = parse_nbt_stream(&mut reader).unwrap();
    assert_eq!(reader.pos(), len);
    let top = match &root.value {
        Value::Compound(c) => c.len(),
        _ => panic!("not a compound"),
    };
    assert_eq!(top, 1);
    // Dropping a tree this deep would recurse once per level.
    std::mem::forget(root);
}

#[test]
fn compound_insert_replaces() {
    let mut c = Compound::new();
    assert!(c.is_empty());
    assert!(c.insert("a".to_string(), Value::Int(1)).is_none());
    assert!(matches!(c.insert("a".to_string(), Value::Int(2)), Some(Value::Int(1))));
    assert!(c.insert("b".to_string(), Value::Int(3)).is_none());
    assert_eq!(c.len(), 2);
    assert!(matches!(c.get("a"), Some(Value::Int(2))));
    assert!(c.get("z").is_none());
}

#[test]
fn tag_names_and_kinds() {
    assert_eq!(tag_constant_to_name(0), "TAG_End");
    assert_eq!(tag_constant_to_name(10), "TAG_Compound");
    assert_eq!(tag_constant_to_name(11), "TAG_Int_Array");
    assert_eq!(tag_constant_to_name(0x3c), "(unknown tag type 0x3c)");
    assert_eq!(is_simple_value(8), Ok(true));
    assert_eq!(is_simple_value(11), Ok(true));
    assert_eq!(is_simple_value(9), Ok(false));
    assert_eq!(is_simple_value(10), Ok(false));
    assert_eq!(is_simple_value(0), Err(0));
    assert_eq!(is_simple_value(12), Err(12));
}

#[test]
fn parse_consumes_exactly_one_document() {
    let mut reader = ByteReader::new(vec![0x09, 0x00, 0x00, 0x00, 0x00, 0x00, 0x00, 0x00, 0xff]);
    let root = parse_nbt_stream(&mut reader).unwrap();
    assert_eq!(root.name, "");
    assert!(matches!(root.value, Value::List(List::Empty)));
    assert_eq!(reader.pos(), 8);

    let mut reader = ByteReader::new(vec![0x03, 0x00, 0x01, b'x', 0x00, 0x00, 0x00, 0x2a]);
    let root = parse_nbt_stream(&mut reader).unwrap();
    assert_eq!(root.name, "x");
    assert!(matches!(root.value, Value::Int(42)));
    assert_eq!(reader.pos(), 8);

    let mut reader = ByteReader::new(vec![
        0x09, 0x00, 0x00, 0x0a, 0x00, 0x00, 0x00, 0x02, 0x01, 0x00, 0x01, b'a', 0x01, 0x00, 0x00,
    ]);
    let root = parse_nbt_stream(&mut reader).unwrap();
    match root.value {
        Value::List(List::Compound(items)) => {
            assert_eq!(items.len(), 2);
            assert_eq!(items[0].len(), 1);
            assert!(matches!(items[0].get("a"), Some(Value::Byte(1))));
            assert!(items[1].is_empty());
        },
        other => panic!("unexpected {:?}", other),
    }
    assert_eq!(reader.pos(), 15);
}

#[test]
fn huge_declared_list_count_is_eof() {
    let mut doc = vec![9u8];
    doc.extend(string_bytes(""));
    doc.extend_from_slice(&[0x03, 0xff, 0xff, 0xff, 0xff, 0x00, 0x00, 0x00, 0x01]);
    assert!(matches!(parse(doc), Err(NbtReadError::UnexpectedEof)));
}

#[test]
fn compound_keys_lists_every_name_once() {
    let mut c = Compound::new();
    assert!(c.keys().is_empty());
    c.insert("b".to_string(), Value::Int(1));
    c.insert("a".to_string(), Value::Int(2));
    c.insert("b".to_string(), Value::Int(3));
    let mut keys = c.keys();
    keys.sort();
    assert_eq!(keys, vec!["a".to_string(), "b".to_string()]);
}

#[test]
fn compound_entries_walks_names_and_values() {
    let mut c = Compound::new();
    c.insert("x".to_string(), Value::Int(1));
    c.insert("y".to_string(), Value::Int(2));
    c.insert("x".to_string(), Value::Int(3));
    let mut seen: Vec<(String, i32)> = c
        .entries()
        .iter()
        .map(|(k, v)| match v {
            Value::Int(i) => (k.clone(), *i),
            other => panic!("unexpected {:?}", other),
        })
        .collect();
    seen.sort();
    assert_eq!(seen, vec![("x".to_string(), 3), ("y".to_string(), 2)]);
}

#[test]
fn unclosed_compound_is_eof() {
    // The entry a = 5 is whole, but the compound never closes.
    let mut entries = vec![1u8];
    entries.extend(string_bytes("a"));
    entries.push(5);
    let mut doc = vec![10u8];
    doc.extend(string_bytes(""));
    doc.extend_from_slice(&entries);
    assert!(matches!(parse(doc), Err(NbtReadError::UnexpectedEof)));
}

#[test]
fn failed_parse_leaves_reader_at_start() {
    let mut reader = ByteReader::new(vec![10u8, 0, 0, 1, 0, 1, b'a']);
    assert!(matches!(parse_nbt_stream(&mut reader), Err(NbtReadError::UnexpectedEof)));
    assert_eq!(reader.pos(), 0);
    let mut reader = ByteReader::new(vec![12u8, 0, 0]);
    assert!(matches!(parse_nbt_stream(&mut reader), Err(NbtReadError::UnknownTagType(12))));
    assert_eq!(reader.pos(), 0);
}
