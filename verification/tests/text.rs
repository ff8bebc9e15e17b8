use usbfwd::text::{
    chars, find_char, has_prefix, lines, parse_i64, parse_nat, part, precedes, push_column,
    push_dec, push_dec_int, push_dec_padded, push_hex, same, same_chars, split, string, to_lower,
    trim, trim_end, trim_start, words,
};

fn written(f: impl FnOnce(&mut String)) -> String {
    let mut s = String::new();
    f(&mut s);
    s
}

#[test]
fn numbers_are_written_like_numbers() {
    assert_eq!(written(|s| push_dec(s, 0)), "0");
    assert_eq!(written(|s| push_dec(s, u64::MAX)), "18446744073709551615");
    assert_eq!(written(|s| push_dec_int(s, i64::MIN)), "-9223372036854775808");
    assert_eq!(written(|s| push_dec_padded(s, 7, 3)), "007");
    assert_eq!(written(|s| push_dec_padded(s, 1234, 3)), "1234");
    assert_eq!(written(|s| push_hex(s, 0x28de, 4)), "28de");
    assert_eq!(written(|s| push_hex(s, 0xa, 2)), "0a");
    assert_eq!(written(|s| push_column(s, "ab", 4)), "ab  ");
    assert_eq!(written(|s| push_column(s, "abcdef", 4)), "abcdef");
}

#[test]
fn numbers_are_read_like_numbers() {
    let nat = |s: &str, radix: u64, max: u64| parse_nat(&chars(s), radix, max);
    assert_eq!(nat("65535", 10, 0xffff), Some(65535));
    assert_eq!(nat("65536", 10, 0xffff), None);
    assert_eq!(nat("+7", 10, 255), Some(7));
    assert_eq!(nat("", 10, 255), None);
    assert_eq!(nat("+", 10, 255), None);
    assert_eq!(nat("-7", 10, 255), None);
    assert_eq!(nat("1304", 16, 0xffff), Some(0x1304));
    assert_eq!(nat("FF", 16, 0xffff), Some(0xff));
    assert_eq!(nat("18446744073709551616", 10, u64::MAX), None);
    let int = |s: &str| parse_i64(&chars(s));
    assert_eq!(int("-9223372036854775808"), Some(i64::MIN));
    assert_eq!(int("9223372036854775808"), None);
    assert_eq!(int("--1"), None);
}

#[test]
fn white_space_is_what_unicode_says() {
    let t = |s: &str| string(trim(&chars(s)));
    for s in [" a b ", "\t\na b\r\u{b}", "\u{2003}a b\u{3000}", "a b\u{85}"] {
        assert_eq!(t(s), s.trim(), "{s:?}");
        assert_eq!(string(trim_start(&chars(s))), s.trim_start());
        assert_eq!(string(trim_end(&chars(s))), s.trim_end());
        let cs = chars(s);
        let w: Vec<String> = words(&cs).iter().map(|p| string(p)).collect();
        assert_eq!(w, s.split_whitespace().collect::<Vec<_>>());
    }
    assert_eq!(t("\u{200b}"), "\u{200b}", "no white space, for all its name");

    let mut white = Vec::new();
    for c in '\0'..=char::MAX {
        if trim(&[c]).is_empty() {
            white.push(c as u32);
        }
    }
    let mut expected: Vec<u32> = (0x09..=0x0d).collect();
    expected.extend_from_slice(&[0x20, 0x85, 0xa0, 0x1680]);
    expected.extend(0x2000..=0x200a);
    expected.extend_from_slice(&[0x2028, 0x2029, 0x202f, 0x205f, 0x3000]);
    assert_eq!(white, expected);
}

#[test]
fn lines_and_pieces_are_cut_like_std_cuts_them() {
    for s in ["", "a", "a\n", "a\r\nb\n\n", "\n", "a\rb", "x\r"] {
        let cs = chars(s);
        let l: Vec<String> = lines(&cs).iter().map(|p| string(p)).collect();
        assert_eq!(l, s.lines().collect::<Vec<_>>(), "{s:?}");
    }
    for s in ["", ",", "a,b", ",a,,b,"] {
        let cs = chars(s);
        let p: Vec<String> = split(&cs, ',').iter().map(|p| string(p)).collect();
        assert_eq!(p, s.split(',').collect::<Vec<_>>(), "{s:?}");
    }
}

#[test]
fn texts_are_compared_by_their_characters() {
    assert!(same("a", "a") && !same("a", "b") && !same("a", "aa"));
    let a = chars("status");
    assert!(same_chars(&a, &chars("status")));
    assert!(has_prefix(&a, &chars("stat")) && !has_prefix(&a, &chars("statusx")));
    assert_eq!(find_char(&a, 'a'), 2);
    assert_eq!(find_char(&a, 'x'), 6);
    assert_eq!(string(part(&a, 1, 3)), "ta");
    assert!(precedes(&chars("10-1"), &chars("2-1")));
    assert!(precedes(&chars("a"), &chars("aa")));
    assert!(!precedes(&a, &a));
    assert_eq!(string(&to_lower(&chars("L4+Ä"))), "l4+Ä");
}
