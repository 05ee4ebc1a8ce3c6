use nbt_codec::decode::{
    decode, read_i32, read_i64, read_nbt, read_nbt_within, read_string, read_u8,
};
use nbt_codec::encode::{
    write_header, write_nbt, write_nbt_bounded, write_string, write_u16, write_u8,
};
use nbt_codec::tag::{NBTType, NbtError, MAX_DEPTH};

fn name(s: &str) -> String {
    s.to_string()
}

fn encoded(tag: &NBTType) -> Vec<u8> {
    let mut bytes: Vec<u8> = Vec::new();
    write_nbt(&mut bytes, tag, false).unwrap();
    bytes
}

#[test]
fn test_serializer() {
    let mut inner: Vec<Box<NBTType>> = Vec::new();
    inner.push(Box::new(NBTType::TAG_Byte("sample byte".to_string(), 3)));
    inner.push(Box::new(NBTType::TAG_End));
    let data = NBTType::TAG_Compound("hello test".to_string(), inner);

    let mut bytes: Vec<u8> = Vec::new();
    write_nbt(&mut bytes, &data, false).unwrap();

    let (deserialized_data, _) = read_nbt(bytes.as_slice(), 0, None).unwrap();
    // The first end marker closes the compound and is not kept as a child.
    let expected = NBTType::TAG_Compound(
        "hello test".to_string(),
        vec![Box::new(NBTType::TAG_Byte("sample byte".to_string(), 3))],
    );
    assert_eq!(expected, deserialized_data);
}

#[test]
fn compound_without_end_child_round_trips() {
    let data = NBTType::TAG_Compound(
        name("hello test"),
        vec![Box::new(NBTType::TAG_Byte(name("sample byte"), 3))],
    );
    let bytes = encoded(&data);
    let (back, used) = read_nbt(bytes.as_slice(), 0, None).unwrap();
    assert_eq!(back, data);
    assert_eq!(used, bytes.len());
}

#[test]
fn byte_is_framed_exactly() {
    let bytes = encoded(&NBTType::TAG_Byte(name("x"), 3));
    assert_eq!(bytes, vec![1u8, 0, 1, b'x', 3]);
}

#[test]
fn every_kind_is_framed_exactly() {
    assert_eq!(encoded(&NBTType::TAG_End), vec![0u8]);
    assert_eq!(encoded(&NBTType::TAG_Byte(name("b"), -1)), vec![1u8, 0, 1, b'b', 0xFF]);
    assert_eq!(encoded(&NBTType::TAG_Short(name("s"), -2)), vec![2u8, 0, 1, b's', 0xFF, 0xFE]);
    assert_eq!(
        encoded(&NBTType::TAG_Int(name("i"), 0x0102_0304)),
        vec![3u8, 0, 1, b'i', 1, 2, 3, 4]
    );
    assert_eq!(
        encoded(&NBTType::TAG_Long(name("l"), i64::MIN)),
        vec![4u8, 0, 1, b'l', 0x80, 0, 0, 0, 0, 0, 0, 0]
    );
    assert_eq!(
        encoded(&NBTType::TAG_Float(name("f"), 1.0f32.to_bits())),
        vec![5u8, 0, 1, b'f', 0x3F, 0x80, 0, 0]
    );
    assert_eq!(
        encoded(&NBTType::TAG_Double(name("d"), 1.0f64.to_bits())),
        vec![6u8, 0, 1, b'd', 0x3F, 0xF0, 0, 0, 0, 0, 0, 0]
    );
    assert_eq!(
        encoded(&NBTType::TAG_Byte_Array(name("a"), vec![7, 8])),
        vec![7u8, 0, 1, b'a', 0, 0, 0, 2, 7, 8]
    );
    assert_eq!(
        encoded(&NBTType::TAG_String(name("t"), name("hé"))),
        vec![8u8, 0, 1, b't', 0, 3, b'h', 0xC3, 0xA9]
    );
    assert_eq!(
        encoded(&NBTType::TAG_List(
            name("l"),
            1,
            vec![
                Box::new(NBTType::TAG_Byte(String::new(), 5)),
                Box::new(NBTType::TAG_Byte(String::new(), 6)),
            ]
        )),
        vec![9u8, 0, 1, b'l', 1, 0, 0, 0, 2, 5, 6]
    );
    assert_eq!(
        encoded(&NBTType::TAG_Compound(name("c"), vec![Box::new(NBTType::TAG_Byte(name("x"), 3))])),
        vec![10u8, 0, 1, b'c', 1, 0, 1, b'x', 3, 0]
    );
    assert_eq!(
        encoded(&NBTType::TAG_Int_Array(name("n"), vec![1, -1])),
        vec![11u8, 0, 1, b'n', 0, 0, 0, 2, 0, 0, 0, 1, 0xFF, 0xFF, 0xFF, 0xFF]
    );
    assert_eq!(
        encoded(&NBTType::TAG_Long_Array(name("m"), vec![2])),
        vec![12u8, 0, 1, b'm', 0, 0, 0, 1, 0, 0, 0, 0, 0, 0, 0, 2]
    );
}

#[test]
fn compound_stops_at_first_end() {
    let bytes: Vec<u8> = vec![
        10, 0, 1, b'c', // compound "c"
        1, 0, 1, b'a', 1, // byte "a" = 1
        1, 0, 1, b'b', 2, // byte "b" = 2
        0, // end
        0xAA, 0xBB, // not part of the compound
    ];
    let (tag, used) = decode(bytes.as_slice()).unwrap();
    assert_eq!(
        tag,
        NBTType::TAG_Compound(
            name("c"),
            vec![
                Box::new(NBTType::TAG_Byte(name("a"), 1)),
                Box::new(NBTType::TAG_Byte(name("b"), 2)),
            ]
        )
    );
    assert_eq!(used, 15);
}

#[test]
fn list_elements_carry_no_header() {
    let bytes: Vec<u8> = vec![
        9, 0, 1, b'l', 3, 0, 0, 0, 3, // list "l" of 3 ints
        0, 0, 0, 1, 0, 0, 0, 2, 0xFF, 0xFF, 0xFF, 0xFD, // 12 payload bytes
        0x55,
    ];
    let (tag, used) = decode(bytes.as_slice()).unwrap();
    assert_eq!(
        tag,
        NBTType::TAG_List(
            name("l"),
            3,
            vec![
                Box::new(NBTType::TAG_Int(String::new(), 1)),
                Box::new(NBTType::TAG_Int(String::new(), 2)),
                Box::new(NBTType::TAG_Int(String::new(), -3)),
            ]
        )
    );
    assert_eq!(used, 9 + 12);
}

#[test]
fn forced_type_reads_no_header() {
    let bytes: Vec<u8> = vec![0xFF, 0, 0, 0, 9, 0x77];
    let (tag, used) = read_nbt(bytes.as_slice(), 1, Some(3)).unwrap();
    assert_eq!(tag, NBTType::TAG_Int(String::new(), 9));
    assert_eq!(used, 5);
    let (end, at) = read_nbt(bytes.as_slice(), 1, Some(0)).unwrap();
    assert_eq!(end, NBTType::TAG_End);
    assert_eq!(at, 1);
}

#[test]
fn negative_count_is_refused() {
    for id in [7u8, 11, 12] {
        let bytes: Vec<u8> = vec![id, 0, 1, b'a', 0xFF, 0xFF, 0xFF, 0xFF, 1, 2, 3, 4];
        assert_eq!(decode(bytes.as_slice()), Err(NbtError::InvalidLength));
    }
    let list: Vec<u8> = vec![9, 0, 1, b'l', 1, 0x80, 0, 0, 0, 1, 2, 3, 4];
    assert_eq!(decode(list.as_slice()), Err(NbtError::InvalidLength));
}

#[test]
fn short_input_is_refused() {
    let short: Vec<u8> = vec![2, 0, 1, b's', 0x12];
    assert_eq!(decode(short.as_slice()), Err(NbtError::TruncatedInput));
    let int: Vec<u8> = vec![3, 0, 1, b'i', 1, 2, 3];
    assert_eq!(decode(int.as_slice()), Err(NbtError::TruncatedInput));
    let long: Vec<u8> = vec![4, 0, 1, b'l', 1, 2, 3, 4, 5, 6, 7];
    assert_eq!(decode(long.as_slice()), Err(NbtError::TruncatedInput));
    let bytes: Vec<u8> = vec![7, 0, 1, b'a', 0, 0, 0, 3, 1, 2];
    assert_eq!(decode(bytes.as_slice()), Err(NbtError::TruncatedInput));
    let ints: Vec<u8> = vec![11, 0, 1, b'a', 0, 0, 0, 2, 0, 0, 0, 1, 0, 0, 0];
    assert_eq!(decode(ints.as_slice()), Err(NbtError::TruncatedInput));
    let longs: Vec<u8> = vec![12, 0, 1, b'a', 0, 0, 0, 1, 0, 0, 0, 1, 0, 0, 0];
    assert_eq!(decode(longs.as_slice()), Err(NbtError::TruncatedInput));
    let text: Vec<u8> = vec![8, 0, 1, b't', 0, 4, b'a', b'b', b'c'];
    assert_eq!(decode(text.as_slice()), Err(NbtError::TruncatedInput));
    let open_compound: Vec<u8> = vec![10, 0, 1, b'c', 1, 0, 1, b'a', 1];
    assert_eq!(decode(open_compound.as_slice()), Err(NbtError::TruncatedInput));
    let nothing: Vec<u8> = Vec::new();
    assert_eq!(decode(nothing.as_slice()), Err(NbtError::TruncatedInput));
}

#[test]
fn unknown_tag_id_is_refused() {
    let bytes: Vec<u8> = vec![13];
    assert_eq!(decode(bytes.as_slice()), Err(NbtError::InvalidTagId));
    let more: Vec<u8> = vec![13, 0, 1, b'x', 3];
    assert_eq!(decode(more.as_slice()), Err(NbtError::InvalidTagId));
    let forced: Vec<u8> = vec![1, 2, 3];
    assert_eq!(read_nbt(forced.as_slice(), 0, Some(13)), Err(NbtError::InvalidTagId));
}

#[test]
fn bad_utf8_is_refused() {
    let bad_name: Vec<u8> = vec![1, 0, 2, 0xC3, 0x28, 3];
    assert_eq!(decode(bad_name.as_slice()), Err(NbtError::InvalidUtf8));
    let bad_text: Vec<u8> = vec![8, 0, 1, b't', 0, 1, 0xFF];
    assert_eq!(decode(bad_text.as_slice()), Err(NbtError::InvalidUtf8));
}

#[test]
fn long_text_is_refused() {
    let long = "a".repeat(65536);
    let mut bytes: Vec<u8> = Vec::new();
    let r = write_nbt(&mut bytes, &NBTType::TAG_String(name("t"), long.clone()), false);
    assert_eq!(r, Err(NbtError::StringTooLong));
    let mut sink: Vec<u8> = vec![9];
    assert_eq!(write_string(&mut sink, &long), Err(NbtError::StringTooLong));
    assert_eq!(sink, vec![9u8]);
    let mut head: Vec<u8> = Vec::new();
    assert_eq!(write_header(&mut head, &1, &long), Err(NbtError::StringTooLong));
    assert!(head.is_empty());
    let fits = "b".repeat(65535);
    let tag = NBTType::TAG_String(name("t"), fits);
    let ok = encoded(&tag);
    assert_eq!(ok.len(), 4 + 2 + 65535);
    assert_eq!(&ok[4..6], &[0xFF, 0xFF]);
    assert_eq!(decode(ok.as_slice()).unwrap().0, tag);
}

#[test]
fn empty_name_writes_no_header() {
    let mut bytes: Vec<u8> = Vec::new();
    write_nbt(&mut bytes, &NBTType::TAG_Byte(String::new(), 3), false).unwrap();
    assert_eq!(bytes, vec![3u8]);
    let mut list: Vec<u8> = Vec::new();
    write_nbt(&mut list, &NBTType::TAG_Int(name("ignored"), 1), true).unwrap();
    assert_eq!(list, vec![0u8, 0, 0, 1]);
    let mut head: Vec<u8> = Vec::new();
    write_header(&mut head, &10, &String::new()).unwrap();
    assert!(head.is_empty());
    write_header(&mut head, &10, &name("ab")).unwrap();
    assert_eq!(head, vec![10u8, 0, 2, b'a', b'b']);
}

#[test]
fn deep_nesting_is_refused() {
    // a list of one list of no bytes
    let bytes: Vec<u8> = vec![9, 0, 1, b'l', 9, 0, 0, 0, 1, 1, 0, 0, 0, 0];
    assert_eq!(read_nbt_within(bytes.as_slice(), 0, None, 1), Err(NbtError::TooDeep));
    assert_eq!(read_nbt_within(bytes.as_slice(), 0, None, 0), Err(NbtError::TooDeep));
    let (tag, used) = read_nbt_within(bytes.as_slice(), 0, None, 2).unwrap();
    assert_eq!(
        tag,
        NBTType::TAG_List(
            name("l"),
            9,
            vec![Box::new(NBTType::TAG_List(String::new(), 1, Vec::new()))]
        )
    );
    assert_eq!(used, bytes.len());

    let mut deep: Vec<u8> = Vec::new();
    for _ in 0..(MAX_DEPTH + 1) {
        deep.extend_from_slice(&[10, 0, 1, b'c']);
    }
    for _ in 0..(MAX_DEPTH + 1) {
        deep.push(0);
    }
    assert_eq!(decode(deep.as_slice()), Err(NbtError::TooDeep));
    let ok = &deep[4..deep.len() - 1];
    assert!(decode(ok).is_ok());
}

#[test]
fn whole_tree_round_trips() {
    let tree = NBTType::TAG_Compound(
        name("root"),
        vec![
            Box::new(NBTType::TAG_Byte(name("byte"), -128)),
            Box::new(NBTType::TAG_Short(name("short"), -32768)),
            Box::new(NBTType::TAG_Int(name("int"), i32::MIN)),
            Box::new(NBTType::TAG_Long(name("long"), -1)),
            Box::new(NBTType::TAG_Float(name("float"), (-2.5f32).to_bits())),
            Box::new(NBTType::TAG_Double(name("double"), 1e300f64.to_bits())),
            Box::new(NBTType::TAG_Byte_Array(name("bytes"), vec![0, 255, 7])),
            Box::new(NBTType::TAG_String(name("text"), name("grüße, 世界"))),
            Box::new(NBTType::TAG_String(name("empty text"), String::new())),
            Box::new(NBTType::TAG_List(name("empty list"), 5, Vec::new())),
            Box::new(NBTType::TAG_List(
                name("ends"),
                0,
                vec![Box::new(NBTType::TAG_End), Box::new(NBTType::TAG_End)],
            )),
            Box::new(NBTType::TAG_List(
                name("compounds"),
                10,
                vec![
                    Box::new(NBTType::TAG_Compound(
                        String::new(),
                        vec![Box::new(NBTType::TAG_Int(name("x"), 1))],
                    )),
                    Box::new(NBTType::TAG_Compound(String::new(), Vec::new())),
                ],
            )),
            Box::new(NBTType::TAG_Int_Array(name("ints"), vec![i32::MAX, 0, -7])),
            Box::new(NBTType::TAG_Long_Array(name("longs"), vec![i64::MAX, i64::MIN])),
        ],
    );
    let mut bytes = encoded(&tree);
    let len = bytes.len();
    bytes.extend_from_slice(&[1, 2, 3]);
    let (back, used) = decode(bytes.as_slice()).unwrap();
    assert_eq!(back, tree);
    assert_eq!(used, len);
    match back {
        NBTType::TAG_Compound(_, kids) => match &*kids[4] {
            NBTType::TAG_Float(_, bits) => assert_eq!(f32::from_bits(*bits), -2.5f32),
            _ => panic!("not a float"),
        },
        _ => panic!("not a compound"),
    }
}

#[test]
fn end_marker_round_trips() {
    let bytes = encoded(&NBTType::TAG_End);
    assert_eq!(decode(bytes.as_slice()), Ok((NBTType::TAG_End, 1)));
}

#[test]
fn failed_write_keeps_what_was_there() {
    let tree = NBTType::TAG_Compound(
        name("c"),
        vec![
            Box::new(NBTType::TAG_Byte(name("a"), 1)),
            Box::new(NBTType::TAG_String(name("t"), "x".repeat(70000))),
        ],
    );
    let mut sink: Vec<u8> = vec![0xEE, 0xEF];
    assert_eq!(write_nbt(&mut sink, &tree, false), Err(NbtError::StringTooLong));
    assert_eq!(&sink[..2], &[0xEE, 0xEF]);
}

#[test]
fn fixed_width_fields_are_big_endian() {
    let mut sink: Vec<u8> = vec![1];
    write_u8(&mut sink, &0xAB);
    write_u16(&mut sink, &0x1234);
    assert_eq!(sink, vec![1u8, 0xAB, 0x12, 0x34]);
    let input: Vec<u8> = vec![0xAB, 0x80, 0, 0, 1, 0xFF, 0xFF, 0xFF, 0xFF, 0xFF, 0xFF, 0xFF, 0xFE];
    assert_eq!(read_u8(input.as_slice(), 0), Ok((0xAB, 1)));
    assert_eq!(read_i32(input.as_slice(), 1), Ok((i32::MIN + 1, 5)));
    assert_eq!(read_i64(input.as_slice(), 5), Ok((-2, 13)));
    assert_eq!(read_u8(input.as_slice(), 13), Err(NbtError::TruncatedInput));
    assert_eq!(read_i32(input.as_slice(), 10), Err(NbtError::TruncatedInput));
    assert_eq!(read_i64(input.as_slice(), 6), Err(NbtError::TruncatedInput));
}

#[test]
fn strings_are_length_prefixed_utf8() {
    let mut sink: Vec<u8> = Vec::new();
    write_string(&mut sink, &name("héllo")).unwrap();
    assert_eq!(sink, vec![0u8, 6, b'h', 0xC3, 0xA9, b'l', b'l', b'o']);
    sink.push(0x99);
    assert_eq!(read_string(sink.as_slice(), 0), Ok((name("héllo"), 8)));
    let cut: Vec<u8> = vec![0];
    assert_eq!(read_string(cut.as_slice(), 0), Err(NbtError::TruncatedInput));
}

#[test]
fn full_sink_refuses_the_write() {
    let tag = NBTType::TAG_Byte(name("x"), 3);
    let mut sink: Vec<u8> = vec![9, 9];
    assert_eq!(write_nbt_bounded(&mut sink, &tag, false, 6), Err(NbtError::SinkWriteFailed));
    assert_eq!(sink, vec![9u8, 9]);
    assert_eq!(write_nbt_bounded(&mut sink, &tag, false, 1), Err(NbtError::SinkWriteFailed));
    assert_eq!(sink, vec![9u8, 9]);
    assert_eq!(write_nbt_bounded(&mut sink, &tag, false, 7), Ok(()));
    assert_eq!(sink, vec![9u8, 9, 1, 0, 1, b'x', 3]);
    let long = NBTType::TAG_String(name("t"), "x".repeat(65536));
    assert_eq!(write_nbt_bounded(&mut sink, &long, false, 10), Err(NbtError::StringTooLong));
    assert_eq!(sink.len(), 7);
}
