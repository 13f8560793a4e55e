use shen_nbt::borrow::own::own_value_with;
use shen_nbt::borrow::read::read_borrowed;
use shen_nbt::nbt_version::{BedrockDisk, BedrockNetVarInt, Dialect, Java, JavaNetAfter1_20_2};
use shen_nbt::writer::{
    var_i32_to_bytes, var_i64_to_bytes, zigzag_var_i32_to_bytes, zigzag_var_i64_to_bytes,
};
use shen_nbt::{Mutf8String, NbtError, NbtReader, NbtValue};

fn name(text: &str) -> Mutf8String {
    Mutf8String::from_text(text)
}

#[test]
fn variable_length_bytes() {
    assert_eq!(var_i32_to_bytes(0), vec![0x00]);
    assert_eq!(var_i32_to_bytes(127), vec![0x7F]);
    assert_eq!(var_i32_to_bytes(128), vec![0x80, 0x01]);
    assert_eq!(var_i32_to_bytes(300), vec![0xAC, 0x02]);
    assert_eq!(var_i32_to_bytes(i32::MAX), vec![0xFF, 0xFF, 0xFF, 0xFF, 0x07]);
    assert_eq!(var_i32_to_bytes(-1), vec![0xFF, 0xFF, 0xFF, 0xFF, 0x0F]);
    assert_eq!(var_i64_to_bytes(300), vec![0xAC, 0x02]);
    assert_eq!(
        var_i64_to_bytes(-1),
        vec![0xFF, 0xFF, 0xFF, 0xFF, 0xFF, 0xFF, 0xFF, 0xFF, 0xFF, 0x01]
    );
    assert_eq!(zigzag_var_i32_to_bytes(0), vec![0x00]);
    assert_eq!(zigzag_var_i32_to_bytes(-1), vec![0x01]);
    assert_eq!(zigzag_var_i32_to_bytes(1), vec![0x02]);
    assert_eq!(zigzag_var_i32_to_bytes(150), vec![0xAC, 0x02]);
    assert_eq!(zigzag_var_i32_to_bytes(i32::MIN), vec![0xFF, 0xFF, 0xFF, 0xFF, 0x0F]);
    assert_eq!(zigzag_var_i64_to_bytes(-2), vec![0x03]);
    assert_eq!(
        zigzag_var_i64_to_bytes(i64::MIN),
        vec![0xFF, 0xFF, 0xFF, 0xFF, 0xFF, 0xFF, 0xFF, 0xFF, 0xFF, 0x01]
    );
}

#[test]
fn variable_length_round_trip() {
    for value in [0, 1, 127, 128, 300, 65535, i32::MAX, -1, -300, i32::MIN] {
        let bytes = var_i32_to_bytes(value);
        let mut reader = NbtReader::new(&bytes);
        assert_eq!(reader.read_var_i32(), Ok(value));
        assert_eq!(reader.cursor, bytes.len());
    }
    for value in [0, 1, 300, i64::MAX, -1, i64::MIN] {
        let bytes = var_i64_to_bytes(value);
        let mut reader = NbtReader::new(&bytes);
        assert_eq!(reader.read_var_i64(), Ok(value));
        assert_eq!(reader.cursor, bytes.len());
    }
    for value in [0, 1, -1, 150, -150, 0x3FFF_FFFF, -0x4000_0000] {
        let bytes = zigzag_var_i32_to_bytes(value);
        assert_eq!(NbtReader::new(&bytes).read_zigzag_var_i32(), Ok(value));
    }
    for value in [0, 1, -1, 150, -150, i64::MAX / 2, i64::MIN / 2] {
        let bytes = zigzag_var_i64_to_bytes(value);
        assert_eq!(NbtReader::new(&bytes).read_zigzag_var_i64(), Ok(value));
    }
}

#[test]
fn hello_world_written() {
    let tree = NbtValue::Compound(
        Some(name("hello world")),
        vec![(name("name"), NbtValue::String(name("Bananrama")))],
    );
    let expect: [u8; 0x21] = [
        0x0A, 0x00, 0x0B, 0x68, 0x65, 0x6C, 0x6C, 0x6F, 0x20, 0x77, 0x6F, 0x72, 0x6C, 0x64, 0x08,
        0x00, 0x04, 0x6E, 0x61, 0x6D, 0x65, 0x00, 0x09, 0x42, 0x61, 0x6E, 0x61, 0x6E, 0x72, 0x61,
        0x6D, 0x61, 0x00,
    ];
    assert_eq!(tree.to_binary::<Java>(), Ok(expect.to_vec()));
    assert_eq!(
        NbtValue::Compound(Some(name("")), vec![]).to_binary::<Java>(),
        Ok(vec![0x0A, 0x00, 0x00, 0x00])
    );
    assert_eq!(
        NbtValue::Compound(None, vec![]).to_binary::<Java>(),
        Ok(vec![0x0A, 0x00, 0x00, 0x00])
    );
    assert_eq!(
        NbtValue::Compound(Some(name("dropped")), vec![]).to_binary::<JavaNetAfter1_20_2>(),
        Ok(vec![0x0A, 0x00])
    );
    let mut buff = vec![0xEE];
    assert_eq!(NbtValue::Compound(None, vec![]).write_to::<JavaNetAfter1_20_2>(&mut buff), Ok(()));
    assert_eq!(buff, vec![0xEE, 0x0A, 0x00]);
}

#[test]
fn what_cannot_be_written() {
    assert_eq!(NbtValue::Int(1).to_binary::<Java>(), Err(NbtError::WrongRootType(3)));
    assert_eq!(NbtValue::Int(1).to_binary::<BedrockDisk>(), Err(NbtError::WrongRootType(3)));
    assert_eq!(NbtValue::List(vec![]).to_binary::<Java>(), Err(NbtError::WrongRootType(9)));
    assert_eq!(
        NbtValue::List(vec![]).to_binary::<BedrockNetVarInt>(),
        Err(NbtError::WrongRootType(9))
    );
    let mut buff = vec![0xEE];
    assert_eq!(NbtValue::Int(1).write_to::<Java>(&mut buff), Err(NbtError::WrongRootType(3)));
    assert_eq!(buff, vec![0xEE]);
    let mixed = NbtValue::Compound(
        None,
        vec![
            (name("fine"), NbtValue::List(vec![NbtValue::Int(1), NbtValue::Int(2)])),
            (
                name("outer"),
                NbtValue::List(vec![
                    NbtValue::List(vec![NbtValue::Byte(1)]),
                    NbtValue::List(vec![NbtValue::Byte(1), NbtValue::Long(2), NbtValue::Byte(3)]),
                ]),
            ),
            (name("later"), NbtValue::List(vec![NbtValue::Int(1), NbtValue::Short(2)])),
        ],
    );
    assert_eq!(mixed.to_binary::<JavaNetAfter1_20_2>(), Err(NbtError::ListTypeNotSame(vec![1, 4, 1])));
}

fn sample(root: Option<Mutf8String>) -> NbtValue {
    NbtValue::Compound(
        root,
        vec![
            (name("byte"), NbtValue::Byte(-128)),
            (name("short"), NbtValue::Short(-2)),
            (name("int"), NbtValue::Int(i32::MIN)),
            (name("long"), NbtValue::Long(-4)),
            (name("float"), NbtValue::Float(1.5_f32.to_bits())),
            (name("double"), NbtValue::Double((-2.25_f64).to_bits())),
            (name("bytes"), NbtValue::ByteArray(vec![1, -1, 127, -128])),
            (name("text"), NbtValue::String(name("h\u{e5}llo"))),
            (name(""), NbtValue::String(name(""))),
            (name("empty"), NbtValue::List(vec![])),
            (
                name("lists"),
                NbtValue::List(vec![
                    NbtValue::List(vec![NbtValue::Short(1), NbtValue::Short(-1)]),
                    NbtValue::List(vec![]),
                    NbtValue::List(vec![NbtValue::Compound(None, vec![])]),
                ]),
            ),
            (
                name("compound"),
                NbtValue::Compound(
                    None,
                    vec![
                        (name("ints"), NbtValue::IntArray(vec![7, -7, i32::MAX])),
                        (name("longs"), NbtValue::LongArray(vec![i64::MIN, 0, i64::MAX])),
                        (name("inner"), NbtValue::Compound(None, vec![])),
                    ],
                ),
            ),
        ],
    )
}

#[test]
fn written_trees_are_read_back() {
    for d in [Dialect::Java, Dialect::BedrockDisk, Dialect::BedrockNetVarInt] {
        let tree = sample(Some(name("root")));
        let bytes = tree.to_binary_with(d).unwrap();
        let mut reader = NbtReader::new(&bytes);
        let borrowed = read_borrowed(&mut reader, d).unwrap();
        assert_eq!(reader.cursor, bytes.len());
        assert_eq!(own_value_with(&borrowed, &mut reader, d), tree);
    }
    let tree = sample(None);
    let bytes = tree.to_binary::<JavaNetAfter1_20_2>().unwrap();
    let mut reader = NbtReader::new(&bytes);
    let borrowed = read_borrowed(&mut reader, Dialect::JavaNetAfter1_20_2).unwrap();
    assert_eq!(reader.cursor, bytes.len());
    assert_eq!(own_value_with(&borrowed, &mut reader, Dialect::JavaNetAfter1_20_2), tree);
}

#[test]
fn a_list_as_root() {
    let tree = NbtValue::List(vec![
        NbtValue::Compound(None, vec![(name("a"), NbtValue::Int(1))]),
        NbtValue::Compound(None, vec![]),
    ]);
    let bytes = tree.to_binary::<BedrockDisk>().unwrap();
    assert_eq!(
        bytes,
        vec![0x09, 0x0A, 0x02, 0x00, 0x00, 0x00, 0x03, 0x01, 0x00, b'a', 1, 0, 0, 0, 0x00, 0x00]
    );
    let mut reader = NbtReader::new(&bytes);
    let borrowed = read_borrowed(&mut reader, Dialect::BedrockDisk).unwrap();
    assert_eq!(own_value_with(&borrowed, &mut reader, Dialect::BedrockDisk), tree);
    assert_eq!(NbtValue::from_binary::<BedrockDisk>(&bytes), Ok(tree));
}

#[test]
fn the_dialects_in_bytes() {
    let tree = NbtValue::Compound(
        Some(name("r")),
        vec![
            (name("i"), NbtValue::Int(0x01020304)),
            (name("a"), NbtValue::IntArray(vec![-1, 2])),
            (name("s"), NbtValue::String(name("hi"))),
        ],
    );
    assert_eq!(
        tree.to_binary::<Java>().unwrap(),
        vec![
            0x0A, 0x00, 0x01, b'r', 0x03, 0x00, 0x01, b'i', 0x01, 0x02, 0x03, 0x04, 0x0B, 0x00,
            0x01, b'a', 0x00, 0x00, 0x00, 0x02, 0xFF, 0xFF, 0xFF, 0xFF, 0x00, 0x00, 0x00, 0x02,
            0x08, 0x00, 0x01, b's', 0x00, 0x02, b'h', b'i', 0x00,
        ]
    );
    assert_eq!(
        tree.to_binary::<BedrockDisk>().unwrap(),
        vec![
            0x0A, 0x01, 0x00, b'r', 0x03, 0x01, 0x00, b'i', 0x04, 0x03, 0x02, 0x01, 0x0B, 0x01,
            0x00, b'a', 0x02, 0x00, 0x00, 0x00, 0xFF, 0xFF, 0xFF, 0xFF, 0x02, 0x00, 0x00, 0x00,
            0x08, 0x01, 0x00, b's', 0x02, 0x00, b'h', b'i', 0x00,
        ]
    );
    assert_eq!(
        tree.to_binary::<BedrockNetVarInt>().unwrap(),
        vec![
            0x0A, 0x01, b'r', 0x03, 0x01, b'i', 0x04, 0x03, 0x02, 0x01, 0x0B, 0x01, b'a', 0x04,
            0xFF, 0xFF, 0xFF, 0xFF, 0x02, 0x00, 0x00, 0x00, 0x08, 0x01, b's', 0x02, b'h', b'i',
            0x00,
        ]
    );
}

#[test]
fn every_truncation_of_what_was_written_is_an_error() {
    for d in [Dialect::Java, Dialect::BedrockDisk, Dialect::BedrockNetVarInt] {
        let bytes = sample(Some(name("root"))).to_binary_with(d).unwrap();
        for keep in 0..bytes.len() {
            let mut reader = NbtReader::new(&bytes[..keep]);
            assert!(read_borrowed(&mut reader, d).is_err(), "kept {}", keep);
        }
    }
    let bytes = sample(None).to_binary_with(Dialect::JavaNetAfter1_20_2).unwrap();
    for keep in 0..bytes.len() {
        let mut reader = NbtReader::new(&bytes[..keep]);
        assert!(read_borrowed(&mut reader, Dialect::JavaNetAfter1_20_2).is_err());
    }
}

#[test]
fn tags_of_values() {
    assert_eq!(NbtValue::Byte(0).tag(), 1);
    assert_eq!(NbtValue::Double(0).tag(), 6);
    assert_eq!(NbtValue::String(name("")).tag(), 8);
    assert_eq!(NbtValue::List(vec![]).tag(), 9);
    assert_eq!(NbtValue::Compound(None, vec![]).tag(), 10);
    assert_eq!(NbtValue::LongArray(vec![]).tag(), 12);
}

#[test]
fn a_failed_write_keeps_what_was_there() {
    let mixed = NbtValue::Compound(
        Some(name("r")),
        vec![
            (name("a"), NbtValue::Int(1)),
            (name("l"), NbtValue::List(vec![NbtValue::Int(1), NbtValue::Short(2)])),
        ],
    );
    let mut buff = vec![1, 2, 3];
    assert_eq!(mixed.write_to::<Java>(&mut buff), Err(NbtError::ListTypeNotSame(vec![3, 2])));
    assert_eq!(&buff[..3], &[1, 2, 3]);
}
