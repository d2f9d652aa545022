use speech2text::text::{
    from_chars, is_white_space, parse_i32, parse_u32, parse_usize, push_decimal, push_hexadecimal,
    split_at_any, to_chars, trimmed,
};

#[test]
fn white_space_is_that_of_unicode() {
    for n in 0..0x11_0000u32 {
        if let Some(c) = char::from_u32(n) {
            assert_eq!(is_white_space(c), c.is_whitespace(), "{n:x}");
        }
    }
}

#[test]
fn characters_come_and_go() {
    let chars = to_chars("a\u{2581}声b");
    assert_eq!(chars, vec!['a', '\u{2581}', '声', 'b']);
    assert_eq!(from_chars(&chars, 1, 3), "\u{2581}声");
    assert_eq!(from_chars(&chars, 2, 2), "");
}

#[test]
fn trimming_takes_white_space_off_both_ends() {
    for s in ["", " ", "  a b ", "\u{3000}声 音\t\r\n", "x", "\u{a0}\u{85}y\u{2003}", "a\u{200b}"] {
        assert_eq!(trimmed(s), s.trim());
        assert_eq!(trimmed(&trimmed(s)), trimmed(s));
    }
}

#[test]
fn numbers_are_read_as_usual() {
    for s in [
        "", "+", "-", "0", "7", "+7", "-7", "007", "12a", " 1", "1 ", "2147483647", "2147483648",
        "-2147483648", "-2147483649", "4294967295", "4294967296", "18446744073709551615",
        "18446744073709551616", "99999999999999999999999999", "+-1", "--1", "1_0", "-0", "\u{ff11}",
    ] {
        assert_eq!(parse_i32(s), s.parse::<i32>().ok(), "{s}");
        assert_eq!(parse_u32(s), s.parse::<u32>().ok(), "{s}");
        assert_eq!(parse_usize(s), s.parse::<usize>().ok(), "{s}");
    }
    assert_eq!(parse_i32("-2147483648"), Some(i32::MIN));
    assert_eq!(parse_usize("-0"), None);
}

#[test]
fn splitting_keeps_empty_pieces() {
    assert_eq!(split_at_any("a,b,,c", &[',']), vec!["a", "b", "", "c"]);
    assert_eq!(split_at_any("", &[',']), vec![""]);
    let raw = "[1, 2\t3]\n4";
    let wanted: Vec<&str> = raw.split([',', ' ', '\t', '\n', '[', ']']).collect();
    assert_eq!(split_at_any(raw, &[',', ' ', '\t', '\n', '[', ']']), wanted);
}

#[test]
fn numbers_are_written_as_usual() {
    for n in [0u64, 1, 9, 10, 15, 16, 255, 256, 16_000, u64::MAX] {
        let mut s = String::from("=");
        push_decimal(&mut s, n);
        assert_eq!(s, format!("={n}"));
        let mut h = String::from("0x");
        push_hexadecimal(&mut h, n);
        assert_eq!(h, format!("0x{n:x}"));
    }
}

#[test]
fn a_number_written_is_read_back() {
    for n in [0u64, 7, 10, 4_000_000_000] {
        let mut s = String::new();
        push_decimal(&mut s, n);
        assert_eq!(parse_usize(&s), Some(n as usize));
    }
}
