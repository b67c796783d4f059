use nbt::mutf8::{is_plain_ascii, Mutf8Str};

#[test]
fn same_as_utf8() {
    let str = "Hello, world!";
    // 16-bit Unicode characters are the same in UTF-8 and MUTF-8:
    assert_eq!(
        Mutf8Str::from_str(str).as_str().as_bytes(),
        Mutf8Str::from_slice(str.as_bytes()).unwrap().as_bytes()
    );
    assert_eq!(Mutf8Str::from_str(str).as_str().to_str(), str);
}

#[test]
fn surrogate_pairs() {
    let str = "\u{10401}";
    let mutf8_data = &[0xED, 0xA0, 0x81, 0xED, 0xB0, 0x81];
    // 'mutf8_data' is a byte slice containing a 6-byte surrogate pair which
    // becomes a 4-byte UTF-8 character.
    assert_eq!(Mutf8Str::from_slice(mutf8_data).unwrap().to_str(), str);
}

#[test]
fn null_bytes() {
    let str = "\0";
    let mutf8_data = vec![0xC0, 0x80];
    // 'str' is a null character which becomes a two-byte MUTF-8 representation.
    assert_eq!(Mutf8Str::from_slice(&mutf8_data).unwrap().to_str(), str);
}

#[test]
fn encode_null_and_supplementary() {
    assert_eq!(Mutf8Str::from_str("\0").as_str().as_bytes(), &[0xC0, 0x80]);
    assert_eq!(
        Mutf8Str::from_str("\u{10401}").as_str().as_bytes(),
        &[0xED, 0xA0, 0x81, 0xED, 0xB0, 0x81]
    );
    assert_eq!(Mutf8Str::from_str("\0").as_str().to_str(), "\0");
    assert_eq!(Mutf8Str::from_str("\u{10401}").as_str().to_str(), "\u{10401}");
}

#[test]
fn invalid_sequences_rejected() {
    // a standalone zero byte never appears in the modified encoding
    assert!(Mutf8Str::from_slice(&[0x00]).is_none());
    // a four-byte sequence is never produced by the modified encoding
    assert!(Mutf8Str::from_slice(&[0xF0, 0x90, 0x90, 0x81]).is_none());
    // a lone high surrogate half is rejected
    assert!(Mutf8Str::from_slice(&[0xED, 0xA0, 0x81]).is_none());
    // an overlong two-byte form other than the NUL pair is rejected
    assert!(Mutf8Str::from_slice(&[0xC1, 0x81]).is_none());
    // a truncated two-byte sequence is rejected
    assert!(Mutf8Str::from_slice(&[0xC3]).is_none());
}

#[test]
fn two_and_three_byte_forms() {
    let s = "caf\u{e9} \u{4e16}\u{754c}";
    let enc = Mutf8Str::from_str(s);
    assert_eq!(enc.as_str().as_bytes(), s.as_bytes());
    assert_eq!(enc.as_str().to_str(), s);
    assert_eq!(enc.as_str().to_string_lossy(), s);
    assert_eq!(enc.into_string(), s);
}

#[test]
fn ascii_scan() {
    assert!(is_plain_ascii(b""));
    assert!(is_plain_ascii(b"hello world, a longer ascii buffer!"));
    assert!(!is_plain_ascii(&[0x41, 0x42, 0x80]));
    let mut long = vec![0x61u8; 100];
    assert!(is_plain_ascii(&long));
    long[99] = 0xFF;
    assert!(!is_plain_ascii(&long));
}

#[test]
fn lossy_and_lengths() {
    let s = Mutf8Str::from_str("abc");
    assert_eq!(s.len(), 3);
    assert_eq!(s.as_str().len(), 3);
    assert_eq!(s.as_str().to_string_lossy(), "abc");
    let owned = s.as_str().to_owned_string();
    assert_eq!(owned.len(), 3);
}
