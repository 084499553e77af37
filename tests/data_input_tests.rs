use rucene_core::data_input::zigzag_decode_i32;
use rucene_core::data_input::zigzag_decode_i64;
use rucene_core::data_input::BytesInput;
use rucene_core::data_input::DataInput;
use rucene_core::error::ErrorKind;

fn input(bytes: &[u8]) -> BytesInput {
    BytesInput::new(bytes.to_vec())
}

fn vint_bytes(mut v: u32) -> Vec<u8> {
    let mut out = Vec::new();
    while v >= 0x80 {
        out.push((v & 0x7f) as u8 | 0x80);
        v >>= 7;
    }
    out.push(v as u8);
    out
}

fn vlong_bytes(mut v: u64) -> Vec<u8> {
    let mut out = Vec::new();
    let mut n = 0;
    while v >= 0x80 && n < 9 {
        out.push((v & 0x7f) as u8 | 0x80);
        v >>= 7;
        n += 1;
    }
    out.push(v as u8);
    out
}

#[test]
fn vint_300() {
    let mut inp = input(&[0xAC, 0x02]);
    assert_eq!(inp.read_vint(), Ok(300));
    assert_eq!(inp.available(), 0);
    assert_eq!(vint_bytes(300), vec![0xAC, 0x02]);
}

#[test]
fn vint_single_byte_and_max() {
    assert_eq!(input(&[0x7f]).read_vint(), Ok(127));
    assert_eq!(input(&[0xff, 0xff, 0xff, 0xff, 0x07]).read_vint(), Ok(i32::MAX));
    assert_eq!(input(&[0xff, 0xff, 0xff, 0xff, 0x0f]).read_vint(), Ok(-1));
}

#[test]
fn vint_fifth_byte_high_bits_fail() {
    for last in [0x10u8, 0x20, 0x40, 0x80, 0xf0] {
        assert_eq!(input(&[0x80, 0x80, 0x80, 0x80, last]).read_vint(), Err(ErrorKind::IllegalState));
    }
}

#[test]
fn vint_truncated() {
    assert_eq!(input(&[]).read_vint(), Err(ErrorKind::UnexpectedEOF));
    assert_eq!(input(&[0x80, 0x80]).read_vint(), Err(ErrorKind::UnexpectedEOF));
}

#[test]
fn zint_round_trip() {
    for n in [0i32, -1, 1, 63, -64, 300, -300, i32::MIN, i32::MAX] {
        let zz = ((n << 1) ^ (n >> 31)) as u32;
        assert_eq!(input(&vint_bytes(zz)).read_zint(), Ok(n));
        assert_eq!(zigzag_decode_i32(zz), n);
    }
}

#[test]
fn zlong_round_trip() {
    for n in [0i64, -1, 1, 300, -300, i64::MIN, i64::MAX, i32::MIN as i64 - 5] {
        let zz = ((n << 1) ^ (n >> 63)) as u64;
        let mut inp = input(&vlong_bytes(zz));
        assert_eq!(inp.read_zlong(), Ok(n));
        assert_eq!(inp.available(), 0);
        assert_eq!(zigzag_decode_i64(zz), n);
    }
}

#[test]
fn vlong_sign_byte() {
    let mut bytes = vec![0xffu8; 9];
    bytes.push(0x01);
    assert_eq!(input(&bytes).read_vlong_ex(true), Ok(-1));
    assert_eq!(input(&bytes).read_vlong_ex(false), Err(ErrorKind::IllegalState));
    assert_eq!(input(&bytes).read_vlong(), Err(ErrorKind::IllegalState));
    bytes[9] = 0x02;
    assert_eq!(input(&bytes).read_vlong_ex(true), Err(ErrorKind::IllegalState));
    let mut max = vec![0xffu8; 8];
    max.push(0x7f);
    assert_eq!(input(&max).read_vlong(), Ok(i64::MAX));
    assert_eq!(input(&[0xAC, 0x02]).read_vlong(), Ok(300));
}

#[test]
fn fixed_width() {
    let mut inp = input(&[0x12, 0x34, 0xff, 0xff, 0xff, 0xfe, 0x80, 0, 0, 0, 0, 0, 0, 1, 0x05]);
    assert_eq!(inp.read_short(), Ok(0x1234));
    assert_eq!(inp.read_int(), Ok(-2));
    assert_eq!(inp.read_long(), Ok(i64::MIN + 1));
    assert_eq!(inp.read_byte(), Ok(5));
    assert_eq!(inp.read_byte(), Err(ErrorKind::UnexpectedEOF));
    assert_eq!(input(&[1, 2, 3]).read_int(), Err(ErrorKind::UnexpectedEOF));
    assert_eq!(input(&[0xff, 0xfe]).read_short(), Ok(-2));
}

#[test]
fn read_bytes_bounds() {
    let mut buf = [0u8; 4];
    assert_eq!(input(&[1, 2, 3]).read_bytes(&mut buf, 2, 3), Err(ErrorKind::IllegalArgument));
    assert_eq!(input(&[1]).read_bytes(&mut buf, 1, 2), Err(ErrorKind::UnexpectedEOF));
    let mut inp = input(&[7, 8, 9]);
    assert_eq!(inp.read_bytes(&mut buf, 1, 2), Ok(()));
    assert_eq!(buf, [0, 7, 8, 0]);
    assert_eq!(inp.available(), 1);
}

#[test]
fn strings() {
    let mut inp = input(&[3, b'a', b'b', b'c', 0]);
    assert_eq!(inp.read_string(), Ok("abc".to_string()));
    assert_eq!(inp.read_string(), Ok(String::new()));
    assert_eq!(input(&[0xff, 0xff, 0xff, 0xff, 0x0f]).read_string(), Err(ErrorKind::IllegalState));
    assert_eq!(input(&[5, b'a', b'b']).read_string(), Err(ErrorKind::UnexpectedEOF));
    assert_eq!(input(&[2, 0xc3, 0x28]).read_string(), Err(ErrorKind::IllegalState));
    assert_eq!(input(&[2, 0xc3, 0xa9]).read_string(), Ok("\u{e9}".to_string()));
}

#[test]
fn maps_and_sets() {
    let mut inp = input(&[2, 1, b'k', 1, b'v', 1, b'k', 1, b'w']);
    let m = inp.read_map_of_strings().unwrap();
    assert_eq!(m.len(), 1);
    assert_eq!(m.get("k").map(|s| s.as_str()), Some("w"));
    let mut inp = input(&[3, 1, b'a', 1, b'b', 1, b'a']);
    let s = inp.read_set_of_strings().unwrap();
    assert_eq!(s.len(), 2);
    assert!(s.contains("a") && s.contains("b"));
    assert_eq!(input(&[0]).read_map_of_strings().unwrap().len(), 0);
    assert_eq!(input(&[0xff, 0xff, 0xff, 0xff, 0x0f]).read_set_of_strings().err(), Some(ErrorKind::IllegalState));
    assert_eq!(input(&[0xff, 0xff, 0xff, 0xff, 0x0f]).read_map_of_strings().err(), Some(ErrorKind::IllegalState));
    assert_eq!(input(&[1, 1]).read_set_of_strings().err(), Some(ErrorKind::UnexpectedEOF));
}

#[test]
fn skip() {
    let data: Vec<u8> = (0..3000u32).map(|i| (i % 251) as u8).collect();
    let mut inp = BytesInput::new(data);
    assert_eq!(inp.skip_bytes(2500), Ok(()));
    assert_eq!(inp.read_byte(), Ok((2500 % 251) as u8));
    assert_eq!(inp.skip_bytes(1000), Err(ErrorKind::UnexpectedEOF));
}

#[test]
fn read_bytes_bad_range_leaves_buffer() {
    let mut buf = [9u8; 4];
    let mut inp = input(&[1, 2, 3, 4, 5]);
    assert_eq!(inp.read_bytes(&mut buf, 3, 2), Err(ErrorKind::IllegalArgument));
    assert_eq!(buf, [9, 9, 9, 9]);
    assert_eq!(inp.available(), 5);
}

#[test]
fn map_and_set_leave_rest() {
    let mut inp = input(&[1, 1, b'k', 1, b'v', 0x2a]);
    let m = inp.read_map_of_strings().unwrap();
    assert_eq!(m.get("k").map(|s| s.as_str()), Some("v"));
    assert_eq!(inp.read_byte(), Ok(0x2a));
    let mut inp = input(&[2, 1, b'x', 0, 0x2b]);
    let s = inp.read_set_of_strings().unwrap();
    assert!(s.contains("x") && s.contains(""));
    assert_eq!(inp.read_byte(), Ok(0x2b));
    assert_eq!(input(&[1, 1, b'k', 5]).read_map_of_strings().err(), Some(ErrorKind::UnexpectedEOF));
}
