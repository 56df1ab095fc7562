use tcg_loader::params::{
    addr_high, addr_low, BootParams, FormatError, BP_SIZE, HDR_MAGIC, HDR_VERSION, JUMP_LEN,
    SETUP_HEADER, VID_MODE,
};

fn blank_image() -> Vec<u8> {
    vec![0u8; 1024]
}

fn set_u32(image: &mut Vec<u8>, off: usize, v: u32) {
    let b = v.to_le_bytes();
    for k in 0..4 {
        image[off + k] = b[k];
    }
}

fn set_u16(image: &mut Vec<u8>, off: usize, v: u16) {
    let b = v.to_le_bytes();
    for k in 0..2 {
        image[off + k] = b[k];
    }
}

fn supported_image() -> Vec<u8> {
    let mut image = blank_image();
    image[JUMP_LEN] = 106;  // header size 17 + 106 = 123, the full header
    set_u32(&mut image, HDR_MAGIC, 0x53726448);
    set_u16(&mut image, HDR_VERSION, 0x206);
    image
}

#[test]
fn splitting_yields_low_and_high_words() {
    let a: u64 = 0x1234_5678_9ABC_DEF0;
    assert_eq!(addr_low(a), 0x9ABC_DEF0);
    assert_eq!(addr_high(a), 0x1234_5678);
}

#[test]
fn split_addresses_round_trip() {
    for a in [0u64, 1, 0xFFFF_FFFF, 0x1_0000_0000, 0x1234_5678_9ABC_DEF0, u64::MAX] {
        let low = addr_low(a);
        let high = addr_high(a);
        assert!(a >= 0x1_0000_0000 || high == 0);
        assert_eq!(((high as u64) << 32) | (low as u64), a);
    }
}

#[test]
fn wrong_magic_is_rejected_whatever_the_version() {
    for version in [0u16, 0x100, 0x206, 0x300, 0xFFFF] {
        let mut image = supported_image();
        set_u32(&mut image, HDR_MAGIC, 0x11111111);
        set_u16(&mut image, HDR_VERSION, version);
        let mut bp = BootParams::new();
        bp.copy_setup_header(&image);
        let e = bp.validate_header().unwrap_err();
        assert!(matches!(e, FormatError::NotSupported));
    }
}

#[test]
fn old_version_is_rejected() {
    let mut image = supported_image();
    set_u16(&mut image, HDR_VERSION, 0x205);
    let mut bp = BootParams::new();
    bp.copy_setup_header(&image);
    let e = bp.validate_header().unwrap_err();
    assert!(matches!(e, FormatError::TooOld));
}

#[test]
fn supported_header_is_accepted() {
    let image = supported_image();
    let mut bp = BootParams::new();
    bp.copy_setup_header(&image);
    assert!(bp.validate_header().is_ok());
    assert_eq!(bp.read_u32(HDR_MAGIC), 0x53726448);
    assert_eq!(bp.read_u16(HDR_VERSION), 0x206);
}

#[test]
fn copies_exactly_the_computed_header_size() {
    // A length byte of 10 asks for 17 + 10 = 27 bytes: the copy stops
    // before the version field at offset 0x15 into the header.
    let mut image = blank_image();
    for k in 0..200 {
        image[SETUP_HEADER + k] = 0xEE;
    }
    image[JUMP_LEN] = 10;
    let mut bp = BootParams::new();
    bp.copy_setup_header(&image);
    for k in 0..27 {
        assert_eq!(bp.read_u8(SETUP_HEADER + k), image[SETUP_HEADER + k]);
    }
    for k in 27..123 {
        assert_eq!(bp.read_u8(SETUP_HEADER + k), 0);
    }
}

#[test]
fn oversized_length_byte_is_capped_at_the_known_maximum() {
    let mut image = supported_image();
    image[JUMP_LEN] = 0xFF;  // 17 + 255, capped at 123
    for k in 0..256 {
        image[SETUP_HEADER + k] = 0xAA;
    }
    let mut bp = BootParams::new();
    bp.copy_setup_header(&image);
    assert_eq!(bp.read_u8(SETUP_HEADER + 122), 0xAA);
    assert_eq!(bp.read_u8(SETUP_HEADER + 123), 0);
}

#[test]
fn reads_and_writes_are_little_endian() {
    let mut bp = BootParams::new();
    bp.write_u32(0x100, 0x0403_0201);
    assert_eq!(bp.read_u8(0x100), 1);
    assert_eq!(bp.read_u8(0x101), 2);
    assert_eq!(bp.read_u8(0x102), 3);
    assert_eq!(bp.read_u8(0x103), 4);
    assert_eq!(bp.read_u32(0x100), 0x0403_0201);
    bp.write_u16(VID_MODE, 0xFFFD);
    assert_eq!(bp.read_u16(VID_MODE), 0xFFFD);
    assert_eq!(bp.read_u8(BP_SIZE - 1), 0);
}
