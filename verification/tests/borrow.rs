use shen_nbt::borrow::read::{java_from_reader, read_borrowed};
use shen_nbt::borrow::BorrowNbtValue as BValue;
use shen_nbt::nbt_version;
use shen_nbt::nbt_version::Dialect;
use shen_nbt::traits::NbtBorrowTrait;
use shen_nbt::{NbtError, NbtReader, RECURSE_LIMIT};

/// A named compound with one string, "name", in it.
const HELLO_WORLD_DATA: [u8; 0x21] = [
    0x0A, // a compound, at 0
    0x00, 0x0B, // the length of its name, at 1
    0x68, 0x65, 0x6C, 0x6C, 0x6F, 0x20, 0x77, 0x6F, 0x72, 0x6C, 0x64, // "hello world", at 3
    0x08, // a string, at 14
    0x00, 0x04, // the length of its name, at 15
    0x6E, 0x61, 0x6D, 0x65, // "name", at 17
    0x00, 0x09, // the length of the string, at 21
    0x42, 0x61, 0x6E, 0x61, 0x6E, 0x72, 0x61, 0x6D, 0x61, // "Bananrama", at 23
    0x00, // the end, at 32
];

/// A length of two bytes and the bytes of `text`.
fn text(text: &str) -> Vec<u8> {
    let mut bytes = (text.len() as u16).to_be_bytes().to_vec();
    bytes.extend_from_slice(text.as_bytes());
    bytes
}

/// A tag and a name.
fn head(tag: u8, name: &str) -> Vec<u8> {
    let mut bytes = vec![tag];
    bytes.extend(text(name));
    bytes
}

/// A compound named "Level" with a member of every kind, 1544 bytes long.
fn big_test_data() -> Vec<u8> {
    let mut d = head(10, "Level");
    d.extend(head(4, "longTest"));
    d.extend(i64::MAX.to_be_bytes());
    d.extend(head(2, "shortTest"));
    d.extend(i16::MAX.to_be_bytes());
    d.extend(head(8, "stringTest"));
    d.extend(text("HELLO WORLD THIS IS A TEST STRING \u{c5}\u{c4}\u{d6}!"));
    d.extend(head(5, "floatTest"));
    d.extend(0x3EFF1832_u32.to_be_bytes());
    d.extend(head(3, "intTest"));
    d.extend(i32::MAX.to_be_bytes());
    d.extend(head(10, "nested compound test"));
    d.extend(head(10, "ham"));
    d.extend(head(8, "name"));
    d.extend(text("Hampus"));
    d.extend(head(5, "value"));
    d.extend(0.75_f32.to_be_bytes());
    d.push(0);
    d.extend(head(10, "egg"));
    d.extend(head(8, "name"));
    d.extend(text("Eggbert"));
    d.extend(head(5, "value"));
    d.extend(0.5_f32.to_be_bytes());
    d.push(0);
    d.push(0);
    d.extend(head(9, "listTest (long)"));
    d.push(4);
    d.extend(5_i32.to_be_bytes());
    for n in 11..16_i64 {
        d.extend(n.to_be_bytes());
    }
    d.extend(head(9, "listTest (compound)"));
    d.push(10);
    d.extend(2_i32.to_be_bytes());
    for n in 0..2 {
        d.extend(head(8, "name"));
        d.extend(text(&format!("Compound tag #{}", n)));
        d.extend(head(4, "created-on"));
        d.extend(1264099775885_i64.to_be_bytes());
        d.push(0);
    }
    d.extend(head(1, "byteTest"));
    d.push(127);
    d.extend(head(
        7,
        "byteArrayTest (the first 1000 values of (n*n*255+n*7)%100, starting with n=0 (0, 62, 34, 16, 8, ...))",
    ));
    d.extend(1000_i32.to_be_bytes());
    for n in 0..1000_u32 {
        d.push(((n * n * 255 + n * 7) % 100) as u8);
    }
    d.extend(head(6, "doubleTest"));
    d.extend(0x3FDF8F6BBBFF6A5E_u64.to_be_bytes());
    d.push(0);
    d
}

#[test]
fn read_tests_hello_world_borrow() {
    let mut reader = NbtReader::new(&HELLO_WORLD_DATA);

    let data = nbt_version::Java::from_reader(&mut reader);
    if let Err(e) = data {
        println!("cursor state:\n{}", reader.show_cursor_fancy(None));
        panic!("{:?}", e);
    }
    let correct_data = BValue::Compound(0, Some(11), vec![(17, 4, BValue::String(23, 9))]);
    assert_eq!(data.unwrap(), correct_data);
}

#[test]
fn big_test() {
    let big_test_data = big_test_data();
    assert_eq!(big_test_data.len(), 1544);
    let mut reader = NbtReader::new(&big_test_data);

    let data = nbt_version::Java::from_reader(&mut reader);
    if let Err(e) = data {
        println!("cursor state:\n{}", reader.show_cursor_fancy(None));
        panic!("{:?}", e);
    }
    let correct_data = BValue::Compound(
        0,
        Some(5),
        vec![
            (11, 8, BValue::Long(19)),
            (30, 9, BValue::Short(39)),
            (44, 10, BValue::String(56, 41)),
            (100, 9, BValue::Float(109)),
            (116, 7, BValue::Int(123)),
            BValue::sub_compound(
                130,
                20,
                150,
                vec![
                    BValue::sub_compound(
                        153,
                        3,
                        156,
                        vec![(159, 4, BValue::String(165, 6)), (174, 5, BValue::Float(179))],
                    ),
                    BValue::sub_compound(
                        187,
                        3,
                        190,
                        vec![(193, 4, BValue::String(199, 7)), (209, 5, BValue::Float(214))],
                    ),
                ],
            ),
            BValue::sub_list(
                223,
                15,
                239,
                5,
                4,
                vec![
                    BValue::Long(243),
                    BValue::Long(251),
                    BValue::Long(259),
                    BValue::Long(267),
                    BValue::Long(275),
                ],
            ),
            (
                286,
                19,
                BValue::List(
                    306,
                    2,
                    10,
                    vec![
                        BValue::nameless_compound(
                            310,
                            vec![(313, 4, BValue::String(319, 15)), (337, 10, BValue::Long(347))],
                        ),
                        BValue::nameless_compound(
                            356,
                            vec![(359, 4, BValue::String(365, 15)), (383, 10, BValue::Long(393))],
                        ),
                    ],
                ),
            ),
            (405, 8, BValue::Byte(413)),
            (417, 101, BValue::ByteArray(522, 1000)),
            (1525, 10, BValue::Double(1535)),
        ],
    );
    let data = data.unwrap();
    println!("data: {:#?}", data);
    assert_eq!(data, correct_data);
    assert_eq!(reader.cursor, 1544);
}

#[test]
fn empty_named_root() {
    let data = [0x0A, 0x00, 0x00, 0x00];
    let (reader, tree) = BValue::from_binary::<nbt_version::Java>(&data).unwrap();
    assert_eq!(tree, BValue::Compound(0, Some(0), vec![]));
    assert_eq!(reader.cursor, 4);
}

#[test]
fn int_list_in_a_field() {
    let mut data = vec![0x0A, 0x00, 0x00];
    data.extend([0x09, 0x00, 0x01, b'l']);
    data.extend([0x03, 0x00, 0x00, 0x00, 0x03]);
    data.extend([0, 0, 0, 1, 0, 0, 0, 2, 0, 0, 0, 3]);
    data.push(0);
    let mut reader = NbtReader::new(&data);
    let tree = java_from_reader(&mut reader, true).unwrap();
    assert_eq!(
        tree,
        BValue::Compound(
            0,
            Some(0),
            vec![(
                6,
                1,
                BValue::List(8, 3, 3, vec![BValue::Int(12), BValue::Int(16), BValue::Int(20)])
            )]
        )
    );
}

#[test]
fn int_array_of_negative_length() {
    let mut data = vec![0x0A, 0x00, 0x00];
    data.extend([0x0B, 0x00, 0x01, b'a']);
    data.extend([0xFF, 0xFF, 0xFF, 0xFF]);
    data.push(0);
    let mut reader = NbtReader::new(&data);
    assert_eq!(java_from_reader(&mut reader, true), Err(NbtError::LenNegative(11, -1)));
}

#[test]
fn list_of_negative_length_names_the_element_tag() {
    let mut data = vec![0x0A];
    data.extend([0x09, 0x00, 0x00, 0x01, 0x80, 0x00, 0x00, 0x00]);
    let mut reader = NbtReader::new(&data);
    assert_eq!(
        java_from_reader(&mut reader, false),
        Err(NbtError::LenNegative(1, i32::MIN))
    );
}

#[test]
fn wrong_root_type() {
    let data = [0x09, 0x01, 0x00, 0x00, 0x00, 0x00];
    let mut reader = NbtReader::new(&data);
    assert_eq!(read_borrowed(&mut reader, Dialect::Java), Err(NbtError::WrongRootType(9)));
    let data = [0x01, 0x00];
    let mut reader = NbtReader::new(&data);
    assert_eq!(read_borrowed(&mut reader, Dialect::BedrockDisk), Err(NbtError::WrongRootType(1)));
    let mut reader = NbtReader::new(&[]);
    assert_eq!(read_borrowed(&mut reader, Dialect::Java), Err(NbtError::CursorOverflow(0, 1, 0)));
}

#[test]
fn unknown_types() {
    let data = [0x0A, 0x0D, 0x00, 0x00];
    let mut reader = NbtReader::new(&data);
    assert_eq!(java_from_reader(&mut reader, false), Err(NbtError::UnknownType(13)));
    let data = [0x0A, 0x09, 0x00, 0x00, 0x0D, 0x00, 0x00, 0x00, 0x00];
    let mut reader = NbtReader::new(&data);
    assert_eq!(java_from_reader(&mut reader, false), Err(NbtError::UnknownType(13)));
}

#[test]
fn nameless_root() {
    let data = [0x0A, 0x01, 0x00, 0x01, b'b', 0x7F, 0x00];
    let mut reader = NbtReader::new(&data);
    let tree = nbt_version::JavaNetAfter1_20_2::from_reader(&mut reader).unwrap();
    assert_eq!(tree, BValue::Compound(0, None, vec![(4, 1, BValue::Byte(5))]));
    assert_eq!(reader.cursor, 7);
}

#[test]
fn bedrock_disk_list_root() {
    // a list of two shorts, little-endian
    let data = [0x09, 0x02, 0x02, 0x00, 0x00, 0x00, 0x01, 0x00, 0x02, 0x00];
    let mut reader = NbtReader::new(&data);
    let tree = nbt_version::BedrockDisk::from_reader(&mut reader).unwrap();
    assert_eq!(tree, BValue::List(2, 2, 2, vec![BValue::Short(6), BValue::Short(8)]));
    assert_eq!(reader.cursor, 10);
}

#[test]
fn bedrock_disk_named_root() {
    let data = [0x0A, 0x01, 0x00, b'r', 0x03, 0x01, 0x00, b'i', 0x04, 0x03, 0x02, 0x01, 0x00];
    let mut reader = NbtReader::new(&data);
    let tree = nbt_version::BedrockDisk::from_reader(&mut reader).unwrap();
    assert_eq!(tree, BValue::Compound(0, Some(1), vec![(7, 1, BValue::Int(8))]));
}

#[test]
fn bedrock_net_lengths() {
    // root name of 1 byte, an int array of 2 (zig-zag 4), a string of 3
    let mut data = vec![0x0A, 0x01, b'r'];
    data.extend([0x0B, 0x01, b'a', 0x04]);
    data.extend([1, 0, 0, 0, 2, 0, 0, 0]);
    data.extend([0x08, 0x01, b's', 0x03, b'a', b'b', b'c']);
    data.push(0);
    let mut reader = NbtReader::new(&data);
    let tree = nbt_version::BedrockNetVarInt::from_reader(&mut reader).unwrap();
    assert_eq!(
        tree,
        BValue::Compound(
            0,
            Some(1),
            vec![(5, 1, BValue::IntArray(7, 2)), (17, 1, BValue::String(19, 3))]
        )
    );
    // zig-zag 3 is -2
    let data = [0x0A, 0x00, 0x07, 0x00, 0x03];
    let mut reader = NbtReader::new(&data);
    assert_eq!(
        nbt_version::BedrockNetVarInt::from_reader(&mut reader),
        Err(NbtError::LenNegative(7, -2))
    );
}

#[test]
fn list_of_end_takes_a_byte_for_each() {
    let data = [0x0A, 0x09, 0x00, 0x00, 0x00, 0x00, 0x00, 0x00, 0x02, 0xAA, 0xBB, 0x00];
    let mut reader = NbtReader::new(&data);
    let tree = java_from_reader(&mut reader, false).unwrap();
    assert_eq!(tree, BValue::Compound(0, None, vec![(4, 0, BValue::List(5, 2, 0, vec![]))]));
    assert_eq!(reader.cursor, 12);
}

/// `depth` compounds inside a nameless root, each the one member "" of the
/// one around it.
fn nested(depth: usize) -> Vec<u8> {
    let mut data = vec![0x0A];
    for _ in 0..depth {
        data.extend([0x0A, 0x00, 0x00]);
    }
    for _ in 0..depth + 1 {
        data.push(0);
    }
    data
}

#[test]
fn depth_at_the_limit() {
    let data = nested(RECURSE_LIMIT - 1);
    let mut reader = NbtReader::new(&data);
    let tree = java_from_reader(&mut reader, false).unwrap();
    assert_eq!(reader.cursor, data.len());
    let owned = nbt_version::JavaNetAfter1_20_2::read_data(&tree, &mut reader);
    assert_eq!(owned.verify_strings(), None);
}

#[test]
fn depth_beyond_the_limit() {
    let data = nested(RECURSE_LIMIT);
    let mut reader = NbtReader::new(&data);
    assert_eq!(
        java_from_reader(&mut reader, false),
        Err(NbtError::NbtDepthTooBig(RECURSE_LIMIT))
    );
    let data = nested(100_000);
    let mut reader = NbtReader::new(&data);
    assert_eq!(
        java_from_reader(&mut reader, false),
        Err(NbtError::NbtDepthTooBig(RECURSE_LIMIT))
    );
}

#[test]
fn nested_lists_beyond_the_limit() {
    let mut data = vec![0x0A, 0x09, 0x00, 0x00];
    for _ in 0..2000 {
        data.extend([0x09, 0x00, 0x00, 0x00, 0x01]);
    }
    let mut reader = NbtReader::new(&data);
    assert_eq!(
        java_from_reader(&mut reader, false),
        Err(NbtError::NbtDepthTooBig(RECURSE_LIMIT))
    );
}

#[test]
fn every_truncation_is_an_error() {
    let data = big_test_data();
    for cut in 1..data.len() + 1 {
        let short = &data[..data.len() - cut];
        let mut reader = NbtReader::new(short);
        let read = java_from_reader(&mut reader, true);
        assert!(matches!(read, Err(NbtError::CursorOverflow(_, _, _))), "cut {}", cut);
    }
    for cut in 1..HELLO_WORLD_DATA.len() + 1 {
        let short = &HELLO_WORLD_DATA[..HELLO_WORLD_DATA.len() - cut];
        for d in [Dialect::Java, Dialect::JavaNetAfter1_20_2] {
            let mut reader = NbtReader::new(short);
            assert!(read_borrowed(&mut reader, d).is_err() || d == Dialect::JavaNetAfter1_20_2);
        }
    }
}

#[test]
fn truncation_in_the_little_endian_dialects() {
    let disk = [0x0A, 0x01, 0x00, b'r', 0x03, 0x01, 0x00, b'i', 0x04, 0x03, 0x02, 0x01, 0x00];
    for cut in 1..disk.len() + 1 {
        let mut reader = NbtReader::new(&disk[..disk.len() - cut]);
        assert!(read_borrowed(&mut reader, Dialect::BedrockDisk).is_err());
    }
    let net = [0x0A, 0x01, b'r', 0x0B, 0x01, b'a', 0x04, 1, 0, 0, 0, 2, 0, 0, 0, 0x00];
    for cut in 1..net.len() + 1 {
        let mut reader = NbtReader::new(&net[..net.len() - cut]);
        assert!(read_borrowed(&mut reader, Dialect::BedrockNetVarInt).is_err());
    }
    let java_net = [0x0A, 0x01, 0x00, 0x01, b'b', 0x7F, 0x00];
    for cut in 1..java_net.len() + 1 {
        let mut reader = NbtReader::new(&java_net[..java_net.len() - cut]);
        assert!(read_borrowed(&mut reader, Dialect::JavaNetAfter1_20_2).is_err());
    }
}

#[test]
fn accessors() {
    assert_eq!(BValue::Long(7).start_idx(), 7);
    assert_eq!(BValue::Long(7).as_value_idx(), Some(7));
    assert_eq!(BValue::String(7, 2).as_value_idx(), None);
    assert_eq!(BValue::IntArray(7, 2).as_array_idx(), Some((7, 2)));
    assert_eq!(BValue::String(7, 2).as_array_idx(), None);
    assert_eq!(BValue::String(7, 2).as_string_idx(), Some((7, 2)));
    assert_eq!(BValue::List(7, 2, 1, vec![]).as_list_idx(), Some((7, 2, 1)));
    assert_eq!(BValue::Byte(1).as_list_idx(), None);
    let compound = BValue::named_compound(3, 4, vec![(1, 2, BValue::Byte(5))]);
    let members = vec![(1, 2, BValue::Byte(5))];
    assert_eq!(compound.as_compound_idx(), Some((3, Some(4), &members)));
    assert_eq!(BValue::Byte(1).as_compound_idx(), None);
    assert_eq!(compound.start_idx(), 3);
}
