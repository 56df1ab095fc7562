use tcg_loader::config::{Config, LoadError};
use tcg_loader::string::EfiString;

#[test]
fn parses_all_three_keys() {
    let conf = Config::load(b"kernel=vmlinuz\ncommand_line=quiet\ninitrd=a.img\ninitrd=b.img\n")
        .unwrap();
    let expected = EfiString::from_bytes(b"vmlinuz").unwrap();
    assert!(conf.kernel().same_as(expected.as_str()));
    assert_eq!(conf.command_line().as_slice(), b"quiet");
    assert_eq!(conf.initrd().len(), 2);
    let a = EfiString::from_bytes(b"a.img").unwrap();
    let b = EfiString::from_bytes(b"b.img").unwrap();
    assert!(conf.initrd()[0].as_str().same_as(a.as_str()));
    assert!(conf.initrd()[1].as_str().same_as(b.as_str()));
}

#[test]
fn translates_forward_slashes_in_paths() {
    let conf = Config::load(b"kernel=boot/vmlinuz\n").unwrap();
    let expected = EfiString::from_bytes(b"boot\\vmlinuz").unwrap();
    assert!(conf.kernel().same_as(expected.as_str()));
}

#[test]
fn keeps_separator_bytes_inside_values() {
    let conf = Config::load(b"command_line=root=/dev/sda1\n").unwrap();
    assert_eq!(conf.command_line().as_slice(), b"root=/dev/sda1");
}

#[test]
fn later_kernel_value_replaces_earlier() {
    let conf = Config::load(b"kernel=a\nkernel=b\n").unwrap();
    let expected = EfiString::from_bytes(b"b").unwrap();
    assert!(conf.kernel().same_as(expected.as_str()));
}

#[test]
fn skips_empty_lines() {
    let conf = Config::load(b"\n\nkernel=a\n\n").unwrap();
    let expected = EfiString::from_bytes(b"a").unwrap();
    assert!(conf.kernel().same_as(expected.as_str()));
}

#[test]
fn rejects_line_without_separator() {
    let e = Config::load(b"nonsense\n").unwrap_err();
    assert!(matches!(e, LoadError::SyntaxError(1)));
}

#[test]
fn rejects_line_beginning_with_separator() {
    let e = Config::load(b"=value\n").unwrap_err();
    assert!(matches!(e, LoadError::SyntaxError(1)));
}

#[test]
fn reports_one_based_line_numbers() {
    let e = Config::load(b"kernel=a\n\nnonsense\n").unwrap_err();
    assert!(matches!(e, LoadError::SyntaxError(3)));
}

#[test]
fn rejects_unknown_keys_with_their_bytes() {
    let e = Config::load(b"kernel=a\nfoo=bar\n").unwrap_err();
    match e {
        LoadError::UnknownKey(k, line) => {
            assert_eq!(k.as_slice(), b"foo");
            assert_eq!(line, 2);
        },
        _ => panic!("expected an unknown-key error"),
    }
}

#[test]
fn keeps_non_ascii_bytes_in_values() {
    let conf = Config::load(b"command_line=caf\xC3\xA9\n").unwrap();
    assert_eq!(conf.command_line().as_slice(), b"caf\xC3\xA9");
}

#[test]
fn encodes_non_ascii_paths_as_utf16() {
    // U+00E9 is two UTF-8 bytes but a single UTF-16 unit.
    let conf = Config::load(b"kernel=\xC3\xA9\n").unwrap();
    let k = conf.kernel();
    assert_eq!(k.len(), 1);
    assert_eq!(k.unit_at(0), 0xE9);
    assert_eq!(k.unit_at(1), 0);
}

#[test]
fn encodes_supplementary_path_characters_as_surrogates() {
    // U+1F642 is four UTF-8 bytes and a UTF-16 surrogate pair.
    let conf = Config::load(b"kernel=\xF0\x9F\x99\x82\n").unwrap();
    let k = conf.kernel();
    assert_eq!(k.len(), 2);
    assert_eq!(k.unit_at(0), 0xD83D);
    assert_eq!(k.unit_at(1), 0xDE42);
    assert_eq!(k.unit_at(2), 0);
}

#[test]
fn rejects_values_that_are_not_utf8() {
    for bad in [
        b"kernel=\xFF\n".as_slice(),  // no such leading byte
        b"kernel=\x80a\n",  // lone continuation byte
        b"kernel=\xC3\n",  // truncated sequence
        b"kernel=\xC0\x80\n",  // overlong encoding
        b"kernel=\xED\xA0\x80\n",  // encoded surrogate
        b"command_line=a\xF5\x80\x80\x80\n",  // beyond the last scalar
    ] {
        let e = Config::load(bad).unwrap_err();
        assert!(matches!(e, LoadError::UnsupportedChar(1)), "{bad:?}");
    }
}

#[test]
fn invalid_value_wins_over_an_unknown_key() {
    let e = Config::load(b"foo=\xFF\n").unwrap_err();
    assert!(matches!(e, LoadError::UnsupportedChar(1)));
}

#[test]
fn unknown_key_wins_over_its_value_bytes() {
    // The value holds non-ASCII bytes; the error is still the unknown key.
    let e = Config::load(b"foo=\xC3\xA9\n").unwrap_err();
    match e {
        LoadError::UnknownKey(k, line) => {
            assert_eq!(k.as_slice(), b"foo");
            assert_eq!(line, 1);
        },
        _ => panic!("expected an unknown-key error"),
    }
}

#[test]
fn rejects_nul_bytes_in_values() {
    let e = Config::load(b"kernel=a\0b\n").unwrap_err();
    assert!(matches!(e, LoadError::UnsupportedChar(1)));
}

#[test]
fn drops_a_final_line_without_terminator() {
    let conf = Config::load(b"kernel=a\ncommand_line=quiet").unwrap();
    assert_eq!(conf.command_line().len(), 0);
}

#[test]
fn empty_text_gives_empty_configuration() {
    let conf = Config::load(b"").unwrap();
    assert!(conf.kernel().is_empty());
    assert_eq!(conf.command_line().len(), 0);
    assert_eq!(conf.initrd().len(), 0);
}

#[test]
fn empty_kernel_value_gives_empty_path() {
    let conf = Config::load(b"kernel=\n").unwrap();
    assert!(conf.kernel().is_empty());
}
