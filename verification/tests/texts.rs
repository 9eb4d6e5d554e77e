//! Text helpers, held against std.

use kexec_menu::path::bytes_go_before;
use kexec_menu::text::{
    chars_of, copy_bytes, parse_number, push_bytes, push_decimal, same_bytes, same_text,
    text_from_utf16, text_from_utf8, text_of, trim_chars, trim_text,
};

#[test]
fn every_character_is_trimmed_as_in_std() {
    for n in 0..0x11_0000u32 {
        if let Some(c) = char::from_u32(n) {
            let s: String = [c, 'x', c].iter().collect();
            if s.trim().len() != s.len() || n < 0x3100 {
                assert_eq!(trim_text(&s), s.trim(), "{n:#x}");
            }
        }
    }
    assert_eq!(trim_text(" \t a b \r\n"), "a b");
    assert_eq!(trim_text(" \u{a0}\u{2003} "), "");
    assert_eq!(trim_chars(&[' ', 'a', ' ']), vec!['a']);
}

#[test]
fn numbers_are_read_as_in_std() {
    let texts = [
        "", "0", "7", "+7", "-1", "-0", "+", "007", "65535", "65536", "99999999999999999999999", "1a", " 1",
        "1 ", "+ 1", "++1", "18446744073709551615", "18446744073709551616", "٣",
    ];
    for t in texts {
        assert_eq!(parse_number(t, u64::MAX), t.parse::<u64>().ok(), "{t:?}");
        let small = t.parse::<u16>().ok().map(u64::from);
        assert_eq!(parse_number(t, 65535), small, "{t:?}");
    }
}

#[test]
fn numbers_are_written_in_decimal() {
    for n in [0, 7, 10, 99, 100, 65535, u64::MAX] {
        let mut s = String::from("n=");
        push_decimal(&mut s, n);
        assert_eq!(s, format!("n={n}"));
    }
}

#[test]
fn utf8_is_accepted_as_in_std() {
    let samples: [&[u8]; 9] = [
        b"", b"plain", "é×↑".as_bytes(), "\u{10ffff}".as_bytes(), b"\xff", b"\xc3", b"\xc0\x80", b"\xed\xa0\x80",
        b"a\x00b",
    ];
    for b in samples {
        assert_eq!(text_from_utf8(b), std::str::from_utf8(b).ok().map(String::from), "{b:?}");
    }
}

#[test]
fn utf16_is_accepted_as_in_std() {
    let samples: [&[u16]; 9] = [
        &[], &[0x61, 0xe9], &[0xd83d, 0xde00], &[0xd83d], &[0xde00], &[0xde00, 0xd83d], &[0xd83d, 0x61],
        &[0xdbff, 0xdfff], &[0xd800, 0xdc00, 0xd7ff, 0xe000],
    ];
    for u in samples {
        assert_eq!(text_from_utf16(u), String::from_utf16(u).ok(), "{u:x?}");
    }
}

#[test]
fn characters_and_texts_convert() {
    assert_eq!(chars_of("aé×"), vec!['a', 'é', '×']);
    assert_eq!(text_of(&['a', 'é', '×']), "aé×");
    assert!(same_text("é", "é") && !same_text("é", "e") && !same_text("a", "ab"));
}

#[test]
fn bytes_are_copied_and_compared() {
    let mut v = copy_bytes(b"ab");
    push_bytes(&mut v, b"cd");
    assert_eq!(v, b"abcd");
    assert!(same_bytes(&v, b"abcd") && !same_bytes(&v, b"abc") && !same_bytes(&v, b"abce"));
    assert!(bytes_go_before(b"ab", b"abc") && bytes_go_before(b"a", b"b"));
    assert!(!bytes_go_before(b"b", b"a") && !bytes_go_before(b"a", b"a"));
}
