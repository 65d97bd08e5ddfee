use wordfun::{AsciiError, AsciiString};

#[test]
fn test_from_str() {
    assert_eq!(AsciiString::try_from("word").unwrap().to_str(), "word");
    assert_eq!(AsciiString::try_from("WORD").unwrap().to_str(), "word");
    assert!(AsciiString::try_from("y'all").is_err());
    assert!(AsciiString::try_from("common idiom").is_err());
}

#[test]
fn try_from_bytes_lowercases_letters() {
    let s = AsciiString::try_from_bytes(b"MiXed".to_vec()).unwrap();
    assert_eq!(s.to_str(), "mixed");
    assert_eq!(s.len(), 5);
    assert!(!s.is_empty());
    assert_eq!(s.as_bytes(), b"mixed");
    assert_eq!(s.clone().into_bytes(), b"mixed".to_vec());
}

#[test]
fn try_from_bytes_rejects_what_is_no_letter() {
    for bad in [&b"a b"[..], b"a1", b"@", b"[", b"`", b"{", b"caf\xc3\xa9", b"\x00"] {
        assert_eq!(AsciiString::try_from_bytes(bad.to_vec()), Err(AsciiError::NotAsciiLetter));
    }
    assert_eq!(AsciiString::try_from("é"), Err(AsciiError::NotAsciiLetter));
    assert!(AsciiString::try_from_bytes(b"AZaz".to_vec()).is_ok());
    assert!(AsciiString::try_from("").unwrap().is_empty());
}

#[test]
fn unchecked_takes_lowercase_letters() {
    let s = AsciiString::unchecked(b"word");
    assert_eq!(s.to_str(), "word");
    assert_eq!(s, AsciiString::try_from("WORD").unwrap());
}
