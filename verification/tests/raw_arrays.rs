use nbt::raw_list::{RawIntArray, RawLongArray};
use nbt::Error;

#[test]
fn int_array_view() {
    let mut bytes = Vec::new();
    for i in 0..4i32 {
        bytes.extend_from_slice(&(i * 1000).to_be_bytes());
    }
    let a = RawIntArray::new(&bytes, 4).unwrap();
    assert_eq!(a.len(), 4);
    assert_eq!(a.get(0), Some(0));
    assert_eq!(a.get(3), Some(3000));
    assert_eq!(a.get(4), None);
    assert_eq!(a.to_vec(), vec![0, 1000, 2000, 3000]);
}

#[test]
fn int_array_too_short() {
    let bytes = [0u8; 7];
    assert!(matches!(RawIntArray::new(&bytes, 2), Err(Error::UnexpectedEof)));
}

#[test]
fn long_array_view() {
    let mut bytes = Vec::new();
    for i in 0..3i64 {
        bytes.extend_from_slice(&(-i).to_be_bytes());
    }
    let a = RawLongArray::new(&bytes, 3).unwrap();
    assert_eq!(a.len(), 3);
    assert_eq!(a.get(1), Some(-1));
    assert_eq!(a.get(3), None);
    assert_eq!(a.to_vec(), vec![0, -1, -2]);
}
