use nbt::borrow::OptionalNbt;
use nbt::mutf8::Mutf8Str;
use nbt::Error;

fn push_u16(out: &mut Vec<u8>, v: u16) {
    out.extend_from_slice(&v.to_be_bytes());
}

fn push_i32(out: &mut Vec<u8>, v: i32) {
    out.extend_from_slice(&v.to_be_bytes());
}

fn push_str(out: &mut Vec<u8>, s: &str) {
    push_u16(out, s.len() as u16);
    out.extend_from_slice(s.as_bytes());
}

fn hello_world_bytes() -> Vec<u8> {
    let mut data = Vec::new();
    data.push(10u8);
    push_str(&mut data, "hello world");
    data.push(8u8);
    push_str(&mut data, "name");
    push_str(&mut data, "Bananrama");
    data.push(0u8);
    data
}

fn int_list_bytes(count: i32) -> Vec<u8> {
    let mut data = Vec::new();
    data.push(10u8);
    push_u16(&mut data, 0);
    data.push(9u8);
    push_u16(&mut data, 0);
    data.push(3u8);
    push_i32(&mut data, count);
    for i in 0..count {
        push_i32(&mut data, i);
    }
    data.push(0u8);
    data
}

#[test]
fn hello_world() {
    let data = hello_world_bytes();
    let nbt = OptionalNbt::read(&data).unwrap().unwrap();
    assert_eq!(
        nbt.string("name").unwrap().as_bytes(),
        Mutf8Str::from_str("Bananrama").as_str().as_bytes()
    );
    assert_eq!(nbt.name().to_str(), "hello world");
}

#[test]
fn inttest_1023() {
    let data = int_list_bytes(1023);
    let nbt = OptionalNbt::read(&data).unwrap().unwrap();
    let ints = nbt.list("").unwrap().ints().unwrap();
    for (i, &item) in ints.iter().enumerate() {
        assert_eq!(i as i32, item);
    }
    assert_eq!(ints.len(), 1023);
}

#[test]
fn inttest_1024() {
    let data = int_list_bytes(1024);
    let nbt = OptionalNbt::read(&data).unwrap().unwrap();
    let ints = nbt.list("").unwrap().ints().unwrap();
    for (i, &item) in ints.iter().enumerate() {
        assert_eq!(i as i32, item);
    }
    assert_eq!(ints.len(), 1024);
}

#[test]
fn inttest_1021() {
    let data = int_list_bytes(1021);
    let nbt = OptionalNbt::read(&data).unwrap().unwrap();
    let ints = nbt.list("").unwrap().ints().unwrap();
    for (i, &item) in ints.iter().enumerate() {
        assert_eq!(i as i32, item);
    }
    assert_eq!(ints.len(), 1021);
}

#[test]
fn longtest_1023() {
    let mut data = Vec::new();
    data.push(10u8);
    push_u16(&mut data, 0);
    data.push(9u8);
    push_u16(&mut data, 0);
    data.push(4u8);
    push_i32(&mut data, 1023);
    for i in 0..1023i64 {
        data.extend_from_slice(&i.to_be_bytes());
    }
    data.push(0u8);

    let nbt = OptionalNbt::read(&data).unwrap().unwrap();
    let ints = nbt.list("").unwrap().longs().unwrap();
    for (i, &item) in ints.iter().enumerate() {
        assert_eq!(i as i64, item);
    }
    assert_eq!(ints.len(), 1023);
}

#[test]
fn round_trip_hello_world() {
    let data = hello_world_bytes();
    let nbt = OptionalNbt::read(&data).unwrap();
    let mut out = Vec::new();
    nbt.write(&mut out);
    assert_eq!(out, data);
}

#[test]
fn round_trip_every_tag_type() {
    let mut data = Vec::new();
    data.push(10u8);
    push_str(&mut data, "root");
    data.push(1u8);
    push_str(&mut data, "b");
    data.push(0xFEu8);
    data.push(2u8);
    push_str(&mut data, "s");
    push_u16(&mut data, 0x8001);
    data.push(3u8);
    push_str(&mut data, "i");
    push_i32(&mut data, -7);
    data.push(4u8);
    push_str(&mut data, "l");
    data.extend_from_slice(&(-9i64).to_be_bytes());
    data.push(5u8);
    push_str(&mut data, "f");
    data.extend_from_slice(&3.5f32.to_be_bytes());
    data.push(6u8);
    push_str(&mut data, "d");
    data.extend_from_slice(&(-2.25f64).to_be_bytes());
    data.push(7u8);
    push_str(&mut data, "ba");
    push_i32(&mut data, 3);
    data.extend_from_slice(&[1, 2, 3]);
    data.push(8u8);
    push_str(&mut data, "st");
    push_str(&mut data, "text");
    // a list of two strings
    data.push(9u8);
    push_str(&mut data, "ls");
    data.push(8u8);
    push_i32(&mut data, 2);
    push_str(&mut data, "a");
    push_str(&mut data, "bb");
    // a zero-length list with a nonzero declared element type
    data.push(9u8);
    push_str(&mut data, "le");
    data.push(6u8);
    push_i32(&mut data, 0);
    // a nested compound
    data.push(10u8);
    push_str(&mut data, "c");
    data.push(1u8);
    push_str(&mut data, "x");
    data.push(1u8);
    data.push(0u8);
    // duplicate key: a second entry also named "b"
    data.push(1u8);
    push_str(&mut data, "b");
    data.push(9u8);
    // int and long arrays
    data.push(11u8);
    push_str(&mut data, "ia");
    push_i32(&mut data, 2);
    push_i32(&mut data, 5);
    push_i32(&mut data, -6);
    data.push(12u8);
    push_str(&mut data, "la");
    push_i32(&mut data, 1);
    data.extend_from_slice(&(-1i64).to_be_bytes());
    data.push(0u8);

    let nbt = OptionalNbt::read(&data).unwrap();
    let mut out = Vec::new();
    nbt.write(&mut out);
    assert_eq!(out, data);

    // duplicate names: lookup returns the first match
    let doc = nbt.unwrap();
    assert_eq!(doc.tag().byte("b"), Some(-2));
}

#[test]
fn depth_guard_at_bound() {
    // the root compound is one container; 511 nested lists reach the bound
    // of 512 exactly
    let mut data = Vec::new();
    data.push(10u8);
    push_u16(&mut data, 0);
    data.push(9u8);
    push_u16(&mut data, 0);
    for _ in 0..510 {
        data.push(9u8);
        push_i32(&mut data, 1);
    }
    data.push(9u8);
    push_i32(&mut data, 0);
    data.push(0u8);
    let nbt = OptionalNbt::read(&data);
    assert!(nbt.is_ok());

    let mut out = Vec::new();
    nbt.unwrap().write(&mut out);
    assert_eq!(out, data);
}

#[test]
fn depth_guard_past_bound() {
    // one more nested list than the bound allows
    let mut data = Vec::new();
    data.push(10u8);
    push_u16(&mut data, 0);
    data.push(9u8);
    push_u16(&mut data, 0);
    for _ in 0..511 {
        data.push(9u8);
        push_i32(&mut data, 1);
    }
    data.push(9u8);
    push_i32(&mut data, 0);
    data.push(0u8);
    assert_eq!(OptionalNbt::read(&data), Err(Error::MaxDepthExceeded));
}

#[test]
fn truncation_yields_unexpected_eof() {
    let mut data = hello_world_bytes();
    data.push(9u8);
    data.truncate(data.len() - 1);
    for k in 0..data.len() {
        assert_eq!(OptionalNbt::read(&data[..k]), Err(Error::UnexpectedEof));
    }
}

#[test]
fn absent_document() {
    let data = [0u8];
    let nbt = OptionalNbt::read(&data).unwrap();
    assert!(nbt.is_none());
    assert!(!nbt.is_some());
    let mut out = Vec::new();
    nbt.write(&mut out);
    assert_eq!(out, vec![0u8]);
}

#[test]
fn type_mismatch_accessors() {
    let mut data = Vec::new();
    data.push(10u8);
    push_u16(&mut data, 0);
    data.push(5u8);
    push_str(&mut data, "f");
    data.extend_from_slice(&1.5f32.to_be_bytes());
    data.push(3u8);
    push_str(&mut data, "i");
    push_i32(&mut data, 42);
    data.push(0u8);
    let nbt = OptionalNbt::read(&data).unwrap().unwrap();
    assert_eq!(nbt.int32("f"), None);
    assert_eq!(nbt.tag().float_bits("i"), None);
    assert_eq!(nbt.int32("i"), Some(42));
    assert_eq!(nbt.tag().float_bits("f"), Some(1.5f32.to_bits()));
    assert_eq!(nbt.tag().double_bits("f"), None);
}

#[test]
fn invalid_root_type() {
    assert_eq!(OptionalNbt::read(&[5u8, 0, 0]), Err(Error::InvalidRootType(5)));
}

#[test]
fn invalid_tag_type_in_compound() {
    let mut data = Vec::new();
    data.push(10u8);
    push_u16(&mut data, 0);
    data.push(13u8);
    data.push(0u8);
    assert_eq!(OptionalNbt::read(&data), Err(Error::InvalidTagType(13)));
}

#[test]
fn invalid_list_type() {
    // a list declaring a nonzero length with the end sentinel element type
    let mut data = Vec::new();
    data.push(10u8);
    push_u16(&mut data, 0);
    data.push(9u8);
    push_u16(&mut data, 0);
    data.push(0u8);
    push_i32(&mut data, 1);
    data.push(0u8);
    assert_eq!(OptionalNbt::read(&data), Err(Error::InvalidListType));
}

#[test]
fn negative_count_rejected() {
    let mut data = Vec::new();
    data.push(10u8);
    push_u16(&mut data, 0);
    data.push(9u8);
    push_u16(&mut data, 0);
    data.push(3u8);
    push_i32(&mut data, -1);
    data.push(0u8);
    assert_eq!(OptionalNbt::read(&data), Err(Error::UnexpectedEof));
}

#[test]
fn malformed_string_rejected() {
    let mut data = Vec::new();
    data.push(10u8);
    push_u16(&mut data, 0);
    data.push(8u8);
    push_u16(&mut data, 0);
    push_u16(&mut data, 1);
    data.push(0xFFu8);
    data.push(0u8);
    assert_eq!(OptionalNbt::read(&data), Err(Error::MalformedString));
}

#[test]
fn trailing_bytes_are_ignored() {
    let mut data = hello_world_bytes();
    data.extend_from_slice(&[1, 2, 3]);
    let nbt = OptionalNbt::read(&data).unwrap().unwrap();
    assert_eq!(nbt.name().to_str(), "hello world");
}
