use shen_nbt::NbtReader;

/// `len` bytes that count up from zero.
fn gen_datas(len: usize) -> Vec<u8> {
    let mut datas = Vec::with_capacity(len);
    for i in 0..len {
        datas.push(i as u8);
    }
    datas
}

#[test]
fn basic_init() {
    let mut data = vec![0x01, 0x02, 0x03, 0x04];
    let reader = NbtReader::new(&mut data);
    assert_eq!(reader.cursor, 0);
    let same_data = vec![0x01, 0x02, 0x03, 0x04];
    assert_eq!(reader.data, &same_data);
}

#[test]
fn read_x8() {
    let mut data: Vec<u8> = vec![0x01, 0x02, i8::MIN as u8, u8::MAX];
    let mut reader = NbtReader::new(data.as_mut_slice());
    assert_eq!(reader.read_i8().unwrap(), 0x01);
    assert_eq!(reader.cursor, 1);
    assert_eq!(reader.read_u8().unwrap(), 0x02);
    assert_eq!(reader.cursor, 2);
    assert_eq!(reader.read_i8().unwrap(), i8::MIN);
    assert_eq!(reader.cursor, 3);
    assert_eq!(reader.read_u8().unwrap(), u8::MAX);
}

#[test]
fn read_x16() {
    let mut data = vec![0x01, 0x02, 0x03, 0x04];
    data.extend(i16::MIN.to_be_bytes());
    data.extend(i16::MAX.to_be_bytes());
    let mut reader = NbtReader::new(&mut data);
    assert_eq!(reader.read_be_i16().unwrap(), 0x0102);
    assert_eq!(reader.cursor, 2);
    assert_eq!(reader.read_be_u16().unwrap(), 0x0304);
    assert_eq!(reader.cursor, 4);
    assert_eq!(reader.read_be_i16().unwrap(), i16::MIN);
    assert_eq!(reader.cursor, 6);
    assert_eq!(reader.read_be_i16().unwrap(), i16::MAX);
    assert_eq!(reader.cursor, 8);
}

#[test]
fn read_x32() {
    let mut data = vec![0x01, 0x02, 0x03, 0x04, 0x01, 0x02, 0x03, 0x04];
    let mut reader = NbtReader::new(&mut data);
    assert_eq!(reader.read_be_i32().unwrap(), 0x01020304);
    assert_eq!(reader.cursor, 4);
    assert_eq!(reader.read_be_u32().unwrap(), 0x01020304);
    assert_eq!(reader.cursor, 8);
}

#[test]
fn read_x64() {
    let mut data = vec![
        0x01, 0x02, 0x03, 0x04, 0x01, 0x02, 0x03, 0x04, 0x01, 0x02, 0x03, 0x04, 0x01, 0x02,
        0x03, 0x04,
    ];
    let mut reader = NbtReader::new(&mut data);
    assert_eq!(reader.read_be_i64().unwrap(), 0x0102030401020304);
    assert_eq!(reader.cursor, 8);
    assert_eq!(reader.read_be_u64().unwrap(), 0x0102030401020304);
    assert_eq!(reader.cursor, 16);
}

#[test]
fn read_fxx() {
    let mut data = Vec::with_capacity(12);
    data.extend_from_slice(&std::f32::consts::PI.to_be_bytes());
    data.extend_from_slice(&std::f64::consts::PI.to_be_bytes());
    println!("{:?}", data);
    let mut reader = NbtReader::new(&mut data);
    assert_eq!(f32::from_bits(reader.read_be_f32().unwrap()), std::f32::consts::PI);
    assert_eq!(reader.cursor, 4);
    assert_eq!(f64::from_bits(reader.read_be_f64().unwrap()), std::f64::consts::PI);
    assert_eq!(reader.cursor, 12);
}

#[test]
fn read_string() {
    let mut data = Vec::with_capacity(20);
    data.extend("Hello world!啊？".as_bytes());
    let len = data.len();
    println!("{:?}", data);
    let mut reader = NbtReader::new(&mut data);
    assert_eq!(reader.read_string(len).unwrap(), "Hello world!啊？");
    assert_eq!(reader.cursor, 18);
}

#[test]
fn tests_read_x16() {
    let mut data = vec![0x01, 0x02, 0x03, 0x04];
    let mut reader = NbtReader::new(&mut data);
    let value = reader.read_be_i16_unsafe();
    reader.roll_back(2).unwrap();
    let safe_value = reader.read_be_i16().unwrap();
    assert_eq!(value, safe_value);
    assert_eq!(reader.cursor, 2);
    let value = reader.read_be_u16_unsafe();
    reader.roll_back(2).unwrap();
    let safe_value = reader.read_be_u16().unwrap();
    assert_eq!(value, safe_value);
    assert_eq!(reader.cursor, 4);
}

#[test]
fn tests_read_x32() {
    let mut data = vec![0x01, 0x02, 0x03, 0x04, 0x01, 0x02, 0x03, 0x04];
    let mut reader = NbtReader::new(&mut data);
    let value = reader.read_be_i32_unsafe();
    reader.roll_back(4).unwrap();
    let safe_value = reader.read_be_i32().unwrap();
    assert_eq!(value, safe_value);
    assert_eq!(reader.cursor, 4);
    let value = reader.read_be_u32_unsafe();
    reader.roll_back(4).unwrap();
    let safe_value = reader.read_be_u32().unwrap();
    assert_eq!(value, safe_value);
    assert_eq!(reader.cursor, 8);
}

#[test]
fn tests_read_x64() {
    let mut data = vec![
        0x01, 0x02, 0x03, 0x04, 0x01, 0x02, 0x03, 0x04, 0x01, 0x02, 0x03, 0x04, 0x01, 0x02,
        0x03, 0x04,
    ];
    let mut reader = NbtReader::new(&mut data);
    let value = reader.read_be_i64_unsafe();
    reader.roll_back(8).unwrap();
    let safe_value = reader.read_be_i64().unwrap();
    assert_eq!(value, safe_value);
    assert_eq!(reader.cursor, 8);
    let value = reader.read_be_u64_unsafe();
    reader.roll_back(8).unwrap();
    let safe_value = reader.read_be_u64().unwrap();
    assert_eq!(value, safe_value);
    assert_eq!(reader.cursor, 16);
}

#[test]
fn tests_read_fxx() {
    let mut data = Vec::with_capacity(12);
    data.extend_from_slice(&std::f32::consts::PI.to_be_bytes());
    data.extend_from_slice(&std::f64::consts::PI.to_be_bytes());
    println!("{:?}", data);
    let mut reader = NbtReader::new(&mut data);
    let value = f32::from_bits(reader.read_be_f32_unsafe());
    reader.roll_back(4).unwrap();
    let safe_value = f32::from_bits(reader.read_be_f32().unwrap());
    assert_eq!(value, safe_value);
    assert_eq!(reader.cursor, 4);
    let value = f64::from_bits(reader.read_be_f64_unsafe());
    reader.roll_back(8).unwrap();
    let safe_value = f64::from_bits(reader.read_be_f64().unwrap());
    assert_eq!(value, safe_value);
    assert_eq!(reader.cursor, 12);
}

#[test]
fn read_array() {
    let mut data = gen_datas(100);
    let mut reader = NbtReader::new(&mut data);
    let value = reader.read_i8_array_unsafe(100);
    reader.roll_back(100).unwrap();
    let safe_value = reader.read_i8_array(100);
    assert_eq!(value, safe_value);
    assert_eq!(reader.cursor, 100);
}

#[test]
fn read_i32_array() {
    let mut value = gen_datas(4 * 100);
    let mut reader = NbtReader::new(&mut value);
    let value = reader.read_be_i32_array_unsafe(100);
    reader.roll_back(100 * 4).unwrap();
    let safe_value = reader.read_be_i32_array(100);
    assert_eq!(value, safe_value);
    assert_eq!(reader.cursor, 100 * 4);
}

#[test]
fn read_i64_array() {
    let mut value = gen_datas(8 * 100);
    let mut reader = NbtReader::new(&mut value);
    let value = reader.read_be_i64_array_unsafe(100);
    reader.roll_back(100 * 8).unwrap();
    let safe_value = reader.read_be_i64_array(100);
    assert_eq!(value, safe_value);
    assert_eq!(reader.cursor, 100 * 8);
}

#[test]
fn fancy_cursor_display() {
    let datas = (1..100_u8).collect::<Vec<u8>>();
    let mut reader = NbtReader::new(&datas);
    let fancy = reader.show_cursor_fancy(None);
    let expect =
        "[0x01, 0x02, 0x03, 0x04, 0x05, 0x06, 0x07, 0x08, 0x09, 0x0A, ....]\n ^^^^ pos: 0";
    assert_eq!(fancy, expect);

    let _ = reader.roll_down(5);
    let fancy = reader.show_cursor_fancy(None);
    let expect = "[0x01, 0x02, 0x03, 0x04, 0x05, 0x06, 0x07, 0x08, 0x09, 0x0A, ....]\n                     ^^^^ pos: 5";
    assert_eq!(fancy, expect);
}

use shen_nbt::NbtError;

#[test]
fn reads_past_the_end() {
    let data = [1, 2, 3];
    let mut reader = NbtReader::new(&data);
    assert_eq!(reader.read_be_i32(), Err(NbtError::CursorOverflow(0, 4, 3)));
    assert_eq!(reader.read_le_u64(), Err(NbtError::CursorOverflow(0, 8, 3)));
    assert_eq!(reader.read_be_u16(), Ok(0x0102));
    assert_eq!(reader.read_le_i16(), Err(NbtError::CursorOverflow(2, 2, 3)));
    assert_eq!(reader.read_u8(), Ok(3));
    assert_eq!(reader.read_u8(), Err(NbtError::CursorOverflow(3, 1, 3)));
    assert_eq!(reader.read_i8(), Err(NbtError::CursorOverflow(3, 1, 3)));
    assert_eq!(reader.cursor, 3);
    assert!(!reader.check_cursor());
    assert_eq!(reader.read_u8_array(1), Err(NbtError::CursorOverflow(3, 1, 3)));
    assert_eq!(reader.read_string(usize::MAX), Err(NbtError::CursorOverflow(3, usize::MAX, 3)));
}

#[test]
fn rolls() {
    let data = [1, 2, 3];
    let mut reader = NbtReader::new(&data);
    assert_eq!(reader.roll_back(1), Err(NbtError::CursorOverflow(0, 1, 3)));
    assert_eq!(reader.roll_down(4), Err(NbtError::CursorOverflow(0, 4, 3)));
    assert_eq!(reader.roll_down(3), Ok(()));
    assert_eq!(reader.cursor, 3);
    assert_eq!(reader.roll_back(2), Ok(()));
    assert_eq!(reader.cursor, 1);
    assert!(reader.check_cursor());
    assert_eq!(reader.roll_to(4), Err(NbtError::CursorOverflow(1, 4, 3)));
    assert_eq!(reader.roll_to(3), Ok(()));
    reader.roll_top();
    assert_eq!(reader.cursor, 0);
    reader.roll_bottom();
    assert_eq!(reader.cursor, 3);
    assert_eq!(reader.roll_down(usize::MAX), Err(NbtError::CursorOverflow(3, usize::MAX, 3)));
}

#[test]
fn little_endian_reads() {
    let data = [0x01, 0x02, 0x03, 0x04, 0x05, 0x06, 0x07, 0x88];
    let mut reader = NbtReader::new(&data);
    assert_eq!(reader.read_le_u16(), Ok(0x0201));
    reader.roll_top();
    assert_eq!(reader.read_le_i32(), Ok(0x04030201));
    reader.roll_top();
    assert_eq!(reader.read_le_u32(), Ok(0x04030201));
    reader.roll_top();
    assert_eq!(reader.read_le_u64(), Ok(0x8807060504030201));
    reader.roll_top();
    assert_eq!(reader.read_le_i64(), Ok(0x8807060504030201_u64 as i64));
    reader.roll_top();
    assert_eq!(reader.read_be_i64(), Ok(0x0102030405060788));
    reader.roll_top();
    assert_eq!(reader.read_le_f32(), Ok(0x04030201));
    assert_eq!(reader.read_le_i16_array(2), vec![0x0605, 0x8807_u16 as i16]);
    reader.roll_top();
    assert_eq!(reader.read_le_i32_array(2), vec![0x04030201, 0x88070605_u32 as i32]);
    reader.roll_top();
    assert_eq!(reader.read_le_i64_array(1), vec![0x8807060504030201_u64 as i64]);
    reader.roll_top();
    assert_eq!(reader.read_be_i16_array_unsafe(4), vec![0x0102, 0x0304, 0x0506, 0x0788]);
    reader.roll_top();
    assert_eq!(reader.read_le_f64(), Ok(0x8807060504030201));
}

#[test]
fn same_integer_in_both_byte_orders() {
    for value in [0_i32, 1, -1, 0x01020304, i32::MIN, i32::MAX, -123456789] {
        let be = value.to_be_bytes();
        let le = value.to_le_bytes();
        assert_eq!(NbtReader::new(&be).read_be_i32(), Ok(value));
        assert_eq!(NbtReader::new(&le).read_le_i32(), Ok(value));
    }
    for value in [0_i64, -1, i64::MIN, i64::MAX, 0x0102030405060708] {
        let be = value.to_be_bytes();
        let le = value.to_le_bytes();
        assert_eq!(NbtReader::new(&be).read_be_i64(), Ok(value));
        assert_eq!(NbtReader::new(&le).read_le_i64(), Ok(value));
    }
    for value in [0_i16, -1, i16::MIN, i16::MAX, 0x0102] {
        let be = value.to_be_bytes();
        let le = value.to_le_bytes();
        assert_eq!(NbtReader::new(&be).read_be_i16(), Ok(value));
        assert_eq!(NbtReader::new(&le).read_le_i16(), Ok(value));
    }
}

#[test]
fn variable_length_integers() {
    assert_eq!(NbtReader::new(&[0x00]).read_var_i32(), Ok(0));
    assert_eq!(NbtReader::new(&[0x7F]).read_var_i32(), Ok(127));
    assert_eq!(NbtReader::new(&[0x80, 0x01]).read_var_i32(), Ok(128));
    assert_eq!(NbtReader::new(&[0xAC, 0x02]).read_var_i32(), Ok(300));
    assert_eq!(NbtReader::new(&[0xFF, 0xFF, 0xFF, 0xFF, 0x07]).read_var_i32(), Ok(i32::MAX));
    assert_eq!(NbtReader::new(&[0xFF, 0xFF, 0xFF, 0xFF, 0x0F]).read_var_i32(), Ok(-1));
    assert_eq!(NbtReader::new(&[0x80, 0x80, 0x80, 0x80, 0x08]).read_var_i32(), Ok(i32::MIN));
    let mut reader = NbtReader::new(&[0x80, 0x80]);
    assert_eq!(reader.read_var_i32(), Err(NbtError::CursorOverflow(2, 1, 2)));
    assert_eq!(reader.cursor, 2);
    let mut reader = NbtReader::new(&[0x81, 0x80, 0x80, 0x80, 0x80, 0x00]);
    assert_eq!(reader.read_var_i32(), Err(NbtError::VarIntTooBig(1)));
    assert_eq!(reader.cursor, 5);
    assert_eq!(NbtReader::new(&[]).read_var_i32(), Err(NbtError::CursorOverflow(0, 1, 0)));

    assert_eq!(NbtReader::new(&[0xAC, 0x02]).read_var_i64(), Ok(300));
    let all = [0xFF, 0xFF, 0xFF, 0xFF, 0xFF, 0xFF, 0xFF, 0xFF, 0xFF, 0x01];
    assert_eq!(NbtReader::new(&all).read_var_i64(), Ok(-1));
    let max = [0xFF, 0xFF, 0xFF, 0xFF, 0xFF, 0xFF, 0xFF, 0xFF, 0x7F];
    assert_eq!(NbtReader::new(&max).read_var_i64(), Ok(i64::MAX));
    let long = [0x82, 0x80, 0x80, 0x80, 0x80, 0x80, 0x80, 0x80, 0x80, 0x80, 0x00];
    assert_eq!(NbtReader::new(&long).read_var_i64(), Err(NbtError::VarlongTooBig(2)));
    assert_eq!(NbtReader::new(&[0x80]).read_var_i64(), Err(NbtError::CursorOverflow(1, 1, 1)));
}

#[test]
fn zigzag_integers() {
    assert_eq!(NbtReader::new(&[0x00]).read_zigzag_var_i32(), Ok(0));
    assert_eq!(NbtReader::new(&[0x01]).read_zigzag_var_i32(), Ok(-1));
    assert_eq!(NbtReader::new(&[0x02]).read_zigzag_var_i32(), Ok(1));
    assert_eq!(NbtReader::new(&[0x03]).read_zigzag_var_i32(), Ok(-2));
    assert_eq!(NbtReader::new(&[0xAC, 0x02]).read_zigzag_var_i32(), Ok(150));
    assert_eq!(
        NbtReader::new(&[0xFE, 0xFF, 0xFF, 0xFF, 0x07]).read_zigzag_var_i32(),
        Ok(0x3FFF_FFFF)
    );
    assert_eq!(NbtReader::new(&[0x03]).read_zigzag_var_i64(), Ok(-2));
    assert_eq!(NbtReader::new(&[0xAC, 0x02]).read_zigzag_var_i64(), Ok(150));
    assert_eq!(NbtReader::new(&[0x80]).read_zigzag_var_i32(), Err(NbtError::CursorOverflow(1, 1, 1)));
    assert_eq!(shen_nbt::reader::zigzag32(-1), 0);
    assert_eq!(shen_nbt::reader::zigzag32(i32::MIN), -0x4000_0000);
    assert_eq!(shen_nbt::reader::zigzag64(5), -3);
}

#[test]
fn cursor_display_windows() {
    let data = [0xAB, 0xCD, 0xEF];
    let mut reader = NbtReader::new(&data);
    assert_eq!(reader.show_cursor_fancy(None), "[0xAB, 0xCD, 0xEF]\n ^^^^ pos: 0");
    reader.roll_bottom();
    assert_eq!(reader.show_cursor_fancy(Some(2)), "[...., 0xEF]\n         ^^^^ pos: 3");
    let data = (0..200_u8).collect::<Vec<u8>>();
    let mut reader = NbtReader::new(&data);
    reader.roll_to(120).unwrap();
    assert_eq!(
        reader.show_cursor_fancy(Some(4)),
        "[...., 0x76, 0x77, 0x78, 0x79, ....]\n             ^^^^ pos: 120"
    );
    assert_eq!(NbtReader::new(&[]).show_cursor_fancy(Some(0)), "[]\n ^^^^ pos: 0");
}
