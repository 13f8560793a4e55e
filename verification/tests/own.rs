use shen_nbt::borrow::own::{fits_buffer, own_value, own_value_with, try_own_value};
use shen_nbt::borrow::read::{java_from_reader, read_borrowed};
use shen_nbt::borrow::BorrowNbtValue as BValue;
use shen_nbt::nbt_version;
use shen_nbt::nbt_version::Dialect;
use shen_nbt::traits::{NbtBorrowTrait, NbtTypeConversion};
use shen_nbt::{Mutf8String, NbtError, NbtReader, NbtValue};

fn name(text: &str) -> Mutf8String {
    Mutf8String::from_text(text)
}

#[test]
fn hello_world_owned() {
    let data: [u8; 0x21] = [
        0x0A, 0x00, 0x0B, 0x68, 0x65, 0x6C, 0x6C, 0x6F, 0x20, 0x77, 0x6F, 0x72, 0x6C, 0x64, 0x08,
        0x00, 0x04, 0x6E, 0x61, 0x6D, 0x65, 0x00, 0x09, 0x42, 0x61, 0x6E, 0x61, 0x6E, 0x72, 0x61,
        0x6D, 0x61, 0x00,
    ];
    let mut reader = NbtReader::new(&data);
    let tree = nbt_version::Java::from_reader(&mut reader).unwrap();
    let owned = nbt_version::Java::read_data(&tree, &mut reader);
    let correct_data = NbtValue::Compound(
        Some(name("hello world")),
        vec![(name("name"), NbtValue::String(name("Bananrama")))],
    );
    assert_eq!(owned, correct_data);
    assert_eq!(owned.verify_strings(), None);
}

#[test]
fn empty_root_owned() {
    let data = [0x0A, 0x00, 0x00, 0x00];
    let mut reader = NbtReader::new(&data);
    let tree = java_from_reader(&mut reader, true).unwrap();
    assert_eq!(own_value(&tree, &mut reader), NbtValue::Compound(Some(name("")), vec![]));
}

#[test]
fn int_list_owned() {
    let mut data = vec![0x0A, 0x00, 0x00];
    data.extend([0x09, 0x00, 0x01, b'l']);
    data.extend([0x03, 0x00, 0x00, 0x00, 0x03]);
    data.extend([0, 0, 0, 1, 0, 0, 0, 2, 0, 0, 0, 3]);
    data.push(0);
    let mut reader = NbtReader::new(&data);
    let tree = java_from_reader(&mut reader, true).unwrap();
    assert_eq!(
        own_value(&tree, &mut reader),
        NbtValue::Compound(
            Some(name("")),
            vec![(
                name("l"),
                NbtValue::List(vec![NbtValue::Int(1), NbtValue::Int(2), NbtValue::Int(3)])
            )]
        )
    );
}

/// A nameless root with one member of every kind but a compound, in the
/// byte order given.
fn every_kind(little: bool) -> Vec<u8> {
    fn n16(v: u16, little: bool) -> [u8; 2] {
        if little { v.to_le_bytes() } else { v.to_be_bytes() }
    }
    fn n32(v: u32, little: bool) -> [u8; 4] {
        if little { v.to_le_bytes() } else { v.to_be_bytes() }
    }
    fn n64(v: u64, little: bool) -> [u8; 8] {
        if little { v.to_le_bytes() } else { v.to_be_bytes() }
    }
    let mut d = vec![0x0A];
    if little {
        d.extend(n16(0, little));
    }
    let mut member = |tag: u8, name: u8, payload: Vec<u8>| {
        d.push(tag);
        d.extend(n16(1, little));
        d.push(name);
        d.extend(payload);
    };
    member(1, b'a', vec![0x80]);
    member(2, b'b', n16(-2_i16 as u16, little).to_vec());
    member(3, b'c', n32(-3_i32 as u32, little).to_vec());
    member(4, b'd', n64(-4_i64 as u64, little).to_vec());
    member(5, b'e', n32(1.5_f32.to_bits(), little).to_vec());
    member(6, b'f', n64((-2.25_f64).to_bits(), little).to_vec());
    let mut bytes = n32(3, little).to_vec();
    bytes.extend([1, 0xFF, 0x7F]);
    member(7, b'g', bytes);
    let mut text = n16(2, little).to_vec();
    text.extend(b"hi");
    member(8, b'h', text);
    let mut list = vec![8];
    list.extend(n32(2, little));
    list.extend(n16(1, little));
    list.push(b'x');
    list.extend(n16(0, little));
    member(9, b'i', list);
    let mut ints = n32(2, little).to_vec();
    ints.extend(n32(7, little));
    ints.extend(n32(-7_i32 as u32, little));
    member(11, b'j', ints);
    let mut longs = n32(1, little).to_vec();
    longs.extend(n64(i64::MIN as u64, little));
    member(12, b'k', longs);
    d.push(0);
    d
}

fn every_kind_owned(root: Option<Mutf8String>) -> NbtValue {
    NbtValue::Compound(
        root,
        vec![
            (name("a"), NbtValue::Byte(-128)),
            (name("b"), NbtValue::Short(-2)),
            (name("c"), NbtValue::Int(-3)),
            (name("d"), NbtValue::Long(-4)),
            (name("e"), NbtValue::Float(1.5_f32.to_bits())),
            (name("f"), NbtValue::Double((-2.25_f64).to_bits())),
            (name("g"), NbtValue::ByteArray(vec![1, -1, 127])),
            (name("h"), NbtValue::String(name("hi"))),
            (
                name("i"),
                NbtValue::List(vec![NbtValue::String(name("x")), NbtValue::String(name(""))]),
            ),
            (name("j"), NbtValue::IntArray(vec![7, -7])),
            (name("k"), NbtValue::LongArray(vec![i64::MIN])),
        ],
    )
}

#[test]
fn both_byte_orders_decode_to_the_same_values() {
    let java = every_kind(false);
    let mut reader = NbtReader::new(&java);
    let tree = read_borrowed(&mut reader, Dialect::JavaNetAfter1_20_2).unwrap();
    assert_eq!(reader.cursor, java.len());
    let java_owned = own_value_with(&tree, &mut reader, Dialect::JavaNetAfter1_20_2);
    assert_eq!(java_owned, every_kind_owned(None));

    let bedrock = every_kind(true);
    let mut reader = NbtReader::new(&bedrock);
    let tree = read_borrowed(&mut reader, Dialect::BedrockDisk).unwrap();
    assert_eq!(reader.cursor, bedrock.len());
    let bedrock_owned = own_value_with(&tree, &mut reader, Dialect::BedrockDisk);
    assert_eq!(bedrock_owned, every_kind_owned(Some(name(""))));
}

#[test]
fn nested_lists_and_compounds_owned() {
    // { "l": [ [1b, 2b], [] ], "c": { "e": [ {}, { "z": 9s } ] } }
    let mut d = vec![0x0A];
    d.extend([0x09, 0x00, 0x01, b'l', 0x09, 0, 0, 0, 2]);
    d.extend([0x01, 0, 0, 0, 2, 1, 2]);
    d.extend([0x01, 0, 0, 0, 0]);
    d.extend([0x0A, 0x00, 0x01, b'c']);
    d.extend([0x09, 0x00, 0x01, b'e', 0x0A, 0, 0, 0, 2]);
    d.push(0);
    d.extend([0x02, 0x00, 0x01, b'z', 0, 9, 0]);
    d.push(0);
    d.push(0);
    let mut reader = NbtReader::new(&d);
    let tree = java_from_reader(&mut reader, false).unwrap();
    assert_eq!(reader.cursor, d.len());
    let owned = nbt_version::JavaNetAfter1_20_2::read_data(&tree, &mut reader);
    assert_eq!(
        owned,
        NbtValue::Compound(
            None,
            vec![
                (
                    name("l"),
                    NbtValue::List(vec![
                        NbtValue::List(vec![NbtValue::Byte(1), NbtValue::Byte(2)]),
                        NbtValue::List(vec![]),
                    ])
                ),
                (
                    name("c"),
                    NbtValue::Compound(
                        None,
                        vec![(
                            name("e"),
                            NbtValue::List(vec![
                                NbtValue::Compound(None, vec![]),
                                NbtValue::Compound(None, vec![(name("z"), NbtValue::Short(9))]),
                            ])
                        )]
                    )
                ),
            ]
        )
    );
}

#[test]
fn bedrock_net_root_name_owned() {
    let data = [0x0A, 0x02, b'r', b'n', 0x01, 0x01, b'b', 0x05, 0x00];
    let mut reader = NbtReader::new(&data);
    let tree = nbt_version::BedrockNetVarInt::from_reader(&mut reader).unwrap();
    assert_eq!(tree, BValue::Compound(0, Some(2), vec![(6, 1, BValue::Byte(7))]));
    let owned = nbt_version::BedrockNetVarInt::read_data(&tree, &mut reader);
    assert_eq!(
        owned,
        NbtValue::Compound(Some(name("rn")), vec![(name("b"), NbtValue::Byte(5))])
    );
}

#[test]
fn strings_are_checked_one_by_one() {
    let good = NbtValue::String(name("plain"));
    assert_eq!(good.verify_strings(), None);
    // 0xC0 0x80 is NUL in Modified UTF-8
    let nul = NbtValue::String(Mutf8String::from_bytes(vec![0xC0, 0x80]));
    assert_eq!(nul.verify_strings(), None);
    let bad = || Mutf8String::from_bytes(vec![0xFF, 0xFE]);
    let tree = NbtValue::Compound(
        Some(bad()),
        vec![
            (name("fine"), NbtValue::String(bad())),
            (bad(), NbtValue::List(vec![NbtValue::String(bad()), NbtValue::Int(1)])),
            (name("also fine"), NbtValue::String(name("ok"))),
        ],
    );
    assert_eq!(
        tree.verify_strings(),
        Some(vec![
            NbtError::Mutf8Error,
            NbtError::Mutf8Error,
            NbtError::Mutf8Error,
            NbtError::Mutf8Error
        ])
    );
    assert_eq!(NbtValue::Int(3).verify_strings(), None);
}

#[test]
fn mutf8_decoding() {
    assert_eq!(name("Bananrama").decode(), "Bananrama");
    assert_eq!(name("Bananrama").decode_general(), "Bananrama");
    assert_eq!(name("").decode(), "");
    assert_eq!(name("\0 nul").decode(), name("\0 nul").decode_general());
    // NUL as two bytes, and a surrogate pair for U+1F600
    let text = Mutf8String::from_bytes(vec![b'a', 0xC0, 0x80, 0xED, 0xA0, 0xBD, 0xED, 0xB8, 0x80]);
    assert_eq!(text.decode(), "a\0\u{1F600}");
    assert!(text.verify().is_none());
    let bad = Mutf8String::from_bytes(vec![0xFF]);
    assert_eq!(bad.decode(), "");
    assert_eq!(bad.decode_general(), "");
    assert!(bad.verify().is_some());
    assert_eq!(name("å").as_bytes(), &[0xC3, 0xA5]);
    assert_eq!(name("å").decode(), "å");
}

#[test]
fn mutf8_from_reader() {
    let data = [1, 2, 3, 4, 5];
    let mut reader = NbtReader::new(&data);
    assert_eq!(
        Mutf8String::from_reader(&mut reader, 1, 3),
        Ok(Mutf8String::from_bytes(vec![2, 3, 4]))
    );
    assert_eq!(reader.cursor, 4);
    assert_eq!(
        Mutf8String::from_reader(&mut reader, 6, 0),
        Err(NbtError::CursorOverflow(4, 6, 5))
    );
    assert_eq!(
        Mutf8String::from_reader(&mut reader, 3, 3),
        Err(NbtError::CursorOverflow(3, 3, 5))
    );
}

#[test]
fn true_and_false() {
    assert_eq!(NbtValue::value_true(), NbtValue::Byte(1));
    assert_eq!(NbtValue::value_false(), NbtValue::Byte(0));
}

#[test]
fn tags() {
    assert!(0_u8.is_valid_nbt_type());
    assert!(12_u8.is_valid_nbt_type());
    assert!(!13_u8.is_valid_nbt_type());
    assert!(!0_u8.is_valid_nbt_data_type());
    assert!(1_u8.is_valid_nbt_data_type());
    assert!(!255_u8.is_valid_nbt_data_type());
    assert!(9_u8.is_list_or_compound());
    assert!(10_u8.is_list_or_compound());
    assert!(!11_u8.is_list_or_compound());
}

#[test]
fn values_by_kind() {
    assert_eq!(NbtValue::Byte(-3).as_i18(), Ok(-3));
    assert_eq!(NbtValue::Short(-3).as_i16(), Ok(-3));
    assert_eq!(NbtValue::Int(-3).as_i32(), Ok(-3));
    assert_eq!(NbtValue::Long(-3).as_i64(), Ok(-3));
    assert_eq!(NbtValue::Float(7).as_f32(), Ok(7));
    assert_eq!(NbtValue::Double(7).as_f64(), Ok(7));
    assert_eq!(NbtValue::ByteArray(vec![1]).as_i8_array(), Ok(&vec![1]));
    assert_eq!(NbtValue::IntArray(vec![1]).as_i32_array(), Ok(&vec![1]));
    assert_eq!(NbtValue::LongArray(vec![1]).as_i64_array(), Ok(&vec![1]));
    assert_eq!(NbtValue::String(name("s")).as_string(), Ok(&name("s")));
    assert_eq!(NbtValue::List(vec![NbtValue::Int(1)]).as_list(), Ok(&vec![NbtValue::Int(1)]));
    let members = vec![(name("k"), NbtValue::Int(1))];
    assert_eq!(
        NbtValue::Compound(Some(name("n")), vec![(name("k"), NbtValue::Int(1))]).as_compound(),
        Ok((Some(&name("n")), &members))
    );
    assert_eq!(NbtValue::Int(1).as_i18(), Err(NbtError::IncorrectType(1, 3)));
    assert_eq!(NbtValue::Byte(1).as_i16(), Err(NbtError::IncorrectType(2, 1)));
    assert_eq!(NbtValue::Byte(1).as_i32(), Err(NbtError::IncorrectType(3, 1)));
    assert_eq!(NbtValue::Byte(1).as_i64(), Err(NbtError::IncorrectType(4, 1)));
    assert_eq!(NbtValue::Byte(1).as_f32(), Err(NbtError::IncorrectType(5, 1)));
    assert_eq!(NbtValue::Byte(1).as_f64(), Err(NbtError::IncorrectType(6, 1)));
    assert_eq!(NbtValue::List(vec![]).as_i8_array(), Err(NbtError::IncorrectType(7, 9)));
    assert_eq!(NbtValue::List(vec![]).as_string(), Err(NbtError::IncorrectType(8, 9)));
    assert_eq!(NbtValue::Long(1).as_list(), Err(NbtError::IncorrectType(9, 4)));
    assert_eq!(NbtValue::Long(1).as_compound(), Err(NbtError::IncorrectType(10, 4)));
    assert_eq!(NbtValue::Long(1).as_i32_array(), Err(NbtError::IncorrectType(11, 4)));
    assert_eq!(NbtValue::Long(1).as_i64_array(), Err(NbtError::IncorrectType(12, 4)));
    assert!(NbtValue::Byte(1).is_i8() && !NbtValue::Int(1).is_i8());
    assert!(NbtValue::Short(1).is_i16() && !NbtValue::Int(1).is_i16());
    assert!(NbtValue::Int(1).is_i32() && !NbtValue::Long(1).is_i32());
    assert!(NbtValue::Long(1).is_i64() && !NbtValue::Int(1).is_i64());
    assert!(NbtValue::Float(1).is_f32() && !NbtValue::Double(1).is_f32());
    assert!(NbtValue::Double(1).is_f64() && !NbtValue::Float(1).is_f64());
    assert!(NbtValue::ByteArray(vec![]).is_i8_array() && !NbtValue::List(vec![]).is_i8_array());
    assert!(NbtValue::IntArray(vec![]).is_i32_array() && !NbtValue::Int(1).is_i32_array());
    assert!(NbtValue::LongArray(vec![]).is_i64_array() && !NbtValue::Int(1).is_i64_array());
    assert!(NbtValue::String(name("")).is_string() && !NbtValue::Int(1).is_string());
    assert!(NbtValue::List(vec![]).is_list() && !NbtValue::Int(1).is_list());
    assert!(NbtValue::Compound(None, vec![]).is_compound() && !NbtValue::Int(1).is_compound());
}

#[test]
fn names_of_tags() {
    assert_eq!(0_u8.as_nbt_type_name(), "NBT_End(0)");
    assert_eq!(1_u8.as_nbt_type_name(), "NBT_Byte(1)");
    assert_eq!(7_u8.as_nbt_type_name(), "NBT_ByteArray(7)");
    assert_eq!(10_u8.as_nbt_type_name(), "NBT_Compound(10)");
    assert_eq!(12_u8.as_nbt_type_name(), "NBT_LongArray(12)");
    assert_eq!(13_u8.as_nbt_type_name(), "未知类型(13)");
    assert_eq!(200_u8.as_nbt_type_name(), "未知类型(200)");
    assert_eq!(255_u8.as_nbt_type_name(), "未知类型(255)");
}

#[test]
fn decoded_in_one_call() {
    let data = [0x0A, 0x00, 0x01, b'r', 0x03, 0x00, 0x01, b'i', 0xFF, 0xFF, 0xFF, 0xFE, 0x00];
    assert_eq!(
        NbtValue::from_binary::<nbt_version::Java>(&data),
        Ok(NbtValue::Compound(Some(name("r")), vec![(name("i"), NbtValue::Int(-2))]))
    );
    assert_eq!(
        NbtValue::from_binary::<nbt_version::BedrockDisk>(&data[..12]),
        Err(NbtError::CursorOverflow(3, 256, 12))
    );
    assert_eq!(
        NbtValue::from_binary::<nbt_version::JavaNetAfter1_20_2>(&[0x0A, 0x00]),
        Ok(NbtValue::Compound(None, vec![]))
    );
    assert_eq!(
        NbtValue::from_binary::<nbt_version::BedrockNetVarInt>(&[0x08]),
        Err(NbtError::WrongRootType(8))
    );
}

#[test]
fn trees_that_do_not_fit_their_buffer() {
    let data = [1, 2, 3, 4];
    assert!(fits_buffer(&BValue::Int(0), &data, Dialect::Java));
    assert!(!fits_buffer(&BValue::Int(1), &data, Dialect::Java));
    assert!(!fits_buffer(&BValue::Long(0), &data, Dialect::Java));
    assert!(fits_buffer(&BValue::ByteArray(4, 0), &data, Dialect::Java));
    assert!(!fits_buffer(&BValue::ByteArray(5, 0), &data, Dialect::Java));
    assert!(!fits_buffer(&BValue::IntArray(0, usize::MAX), &data, Dialect::Java));
    assert!(!fits_buffer(&BValue::String(usize::MAX, 2), &data, Dialect::Java));
    let list = BValue::List(0, 2, 1, vec![BValue::Byte(3), BValue::Byte(4)]);
    assert!(!fits_buffer(&list, &data, Dialect::Java));
    let compound = BValue::Compound(0, None, vec![(3, 2, BValue::Byte(0))]);
    assert!(!fits_buffer(&compound, &data, Dialect::Java));
    let named = BValue::Compound(0, Some(1), vec![(3, 1, BValue::Byte(0))]);
    assert!(fits_buffer(&named, &[0x0A, 0x00, 0x01, b'n'], Dialect::Java));
    assert!(!fits_buffer(&named, &[0x0A, 0x00, 0x01], Dialect::Java));
    assert!(!fits_buffer(&BValue::Compound(usize::MAX, Some(0), vec![]), &data, Dialect::Java));

    let mut reader = NbtReader::new(&data);
    assert_eq!(try_own_value(&list, &mut reader, Dialect::Java), None);
    let list = BValue::List(0, 2, 2, vec![BValue::Short(2), BValue::Short(0)]);
    assert_eq!(
        try_own_value(&list, &mut reader, Dialect::Java),
        Some(NbtValue::List(vec![NbtValue::Short(0x0304), NbtValue::Short(0x0102)]))
    );
    assert_eq!(
        try_own_value(&list, &mut reader, Dialect::BedrockDisk),
        Some(NbtValue::List(vec![NbtValue::Short(0x0403), NbtValue::Short(0x0201)]))
    );
}

#[test]
fn own_tests_hello_world_borrow() {
    let data: [u8; 0x21] = [
        0x0A, // a compound, at 0
        0x00, 0x0B, // the length of its name, at 1
        0x68, 0x65, 0x6C, 0x6C, 0x6F, 0x20, 0x77, 0x6F, 0x72, 0x6C, 0x64, // "hello world", at 3
        0x08, // a string, at 14
        0x00, 0x04, // the length of its name, at 15
        0x6E, 0x61, 0x6D, 0x65, // "name", at 17
        0x00, 0x09, // the length of the string, at 21
        0x42, 0x61, 0x6E, 0x61, 0x6E, 0x72, 0x61, 0x6D, 0x61, // "Bananrama", at 23
        0x00, // the end, at 32
    ];

    let mut reader = NbtReader::new(&data);

    let data = nbt_version::Java::from_reader(&mut reader).unwrap();
    println!("{:#?}", data);

    let owned_data = nbt_version::Java::read_data(&data, &mut reader);
    println!("{:?}", owned_data);
    assert_eq!(
        owned_data,
        NbtValue::Compound(
            Some(name("hello world")),
            vec![(name("name"), NbtValue::String(name("Bananrama")))]
        )
    );
}

#[test]
fn tests_hello_world_borrow() {
    let mut data: [u8; 0x21] = [
        0x0A, // a compound
        0x00, 0x0B, // the length of its name (11)
        0x68, 0x65, 0x6C, 0x6C, 0x6F, 0x20, 0x77, 0x6F, 0x72, 0x6C, 0x64, // "hello world"
        0x08, // a string
        0x00, 0x04, // the length of its name (4)
        0x6E, 0x61, 0x6D, 0x65, // "name"
        0x00, 0x09, // the length of the string (9)
        0x42, 0x61, 0x6E, 0x61, 0x6E, 0x72, 0x61, 0x6D, 0x61, // "Bananrama"
        0x00, // the end
    ];

    let mut reader = NbtReader::new(&mut data);

    let data = nbt_version::Java::from_reader(&mut reader);
    if let Err(e) = data {
        println!("cursor state:\n{}", reader.show_cursor_fancy(None));
        panic!("{:?}", e);
    }

    let correct_data = NbtValue::Compound(
        Some(name("hello world")),
        vec![(name("name"), NbtValue::String(name("Bananrama")))],
    );
    assert_eq!(nbt_version::Java::read_data(&data.unwrap(), &mut reader), correct_data);
}

#[test]
fn just_true_false() {
    assert_eq!(NbtValue::value_true(), NbtValue::Byte(1));
    assert_eq!(NbtValue::value_false(), NbtValue::Byte(0));
}

#[test]
fn just_string() {
    assert_eq!(
        NbtValue::String(Mutf8String::from_text("hello")),
        NbtValue::String(Mutf8String::from_bytes(b"hello".to_vec()))
    );
}

#[test]
fn just_list() {
    assert_eq!(NbtValue::List(Vec::new()), NbtValue::List(vec![]));
    assert_eq!(NbtValue::List(Vec::new()).as_list(), Ok(&vec![]));
}

#[test]
fn text_of_a_decoding() {
    assert_eq!(shen_nbt::mutf8::text_or_empty(Ok(String::from("text"))), "text");
    let failed = Mutf8String::from_bytes(vec![0xFF]).verify().unwrap();
    assert_eq!(shen_nbt::mutf8::text_or_empty(Err(failed)), "");
    assert!(shen_nbt::mutf8::is_plain_ascii(b"plain\0"));
    assert!(!shen_nbt::mutf8::is_plain_ascii(&[b'a', 0x80]));
    assert!(shen_nbt::mutf8::is_plain_ascii(&[]));
}
