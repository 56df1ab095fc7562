use tcg_loader::string::{EfiChar, EfiString};

#[test]
fn from_bytes_appends_terminator() {
    let s = EfiString::from_bytes(b"abc").unwrap();
    let v = s.as_str();
    assert_eq!(v.len(), 3);
    assert!(!v.is_empty());
    assert_eq!(v.unit_at(0), 'a' as u16);
    assert_eq!(v.unit_at(1), 'b' as u16);
    assert_eq!(v.unit_at(2), 'c' as u16);
    assert_eq!(v.unit_at(3), 0);
}

#[test]
fn from_bytes_absorbs_trailing_nul() {
    let s = EfiString::from_bytes(b"ab\0").unwrap();
    let v = s.as_str();
    assert_eq!(v.len(), 2);
    assert_eq!(v.unit_at(2), 0);
}

#[test]
fn from_bytes_rejects_interior_nul() {
    let e = EfiString::from_bytes(b"a\0b").unwrap_err();
    assert_eq!(e.position(), 1);
}

#[test]
fn from_bytes_empty_is_empty_string() {
    let s = EfiString::from_bytes(b"").unwrap();
    assert!(s.as_str().is_empty());
    assert_eq!(s.as_str().len(), 0);
}

#[test]
fn push_str_appends_before_terminator() {
    let mut s = EfiString::from_bytes(b"ab").unwrap();
    s.push_str("cd");
    let v = s.as_str();
    assert_eq!(v.len(), 4);
    assert_eq!(v.unit_at(2), 'c' as u16);
    assert_eq!(v.unit_at(3), 'd' as u16);
    assert_eq!(v.unit_at(4), 0);
}

#[test]
fn push_str_encodes_supplementary_characters_as_surrogates() {
    let mut s = EfiString::new();
    s.push_str("\u{1F642}");
    let v = s.as_str();
    assert_eq!(v.len(), 2);
    assert_eq!(v.unit_at(0), 0xD83D);
    assert_eq!(v.unit_at(1), 0xDE42);
    assert_eq!(v.unit_at(2), 0);
}

#[test]
fn replace_unit_translates_every_occurrence() {
    let mut s = EfiString::from_bytes(b"a/b/c").unwrap();
    s.replace_unit('/' as u16, '\\' as u16);
    let v = s.as_str();
    assert_eq!(v.unit_at(1), '\\' as u16);
    assert_eq!(v.unit_at(3), '\\' as u16);
    assert_eq!(v.unit_at(0), 'a' as u16);
}

#[test]
fn same_as_compares_units() {
    let a = EfiString::from_bytes(b"abc").unwrap();
    let b = EfiString::from_bytes(b"abc").unwrap();
    let c = EfiString::from_bytes(b"abd").unwrap();
    assert!(a.as_str().same_as(b.as_str()));
    assert!(!a.as_str().same_as(c.as_str()));
}

#[test]
fn to_owned_copies_units() {
    let a = EfiString::from_bytes(b"xy").unwrap();
    let b = a.as_str().to_owned();
    assert!(a.as_str().same_as(b.as_str()));
}

#[test]
fn efi_char_widens_bytes() {
    let c = EfiChar::from_u8(b'/');
    assert_eq!(c.code(), 0x2F);
}
