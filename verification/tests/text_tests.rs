use track_overlay::text::{
    char_of_digit, chars_of, copy_range, decimal_chars, find_char, is_whitespace, next_line,
    push_padded, push_signed, push_zeros, string_of, trim_chars,
};

#[test]
fn whitespace_matches_std() {
    for u in 0u32..0x3100 {
        if let Some(c) = char::from_u32(u) {
            assert_eq!(is_whitespace(c), c.is_whitespace(), "U+{:04X}", u);
        }
    }
}

#[test]
fn trimming_matches_std() {
    for s in ["", "  ", " a b ", "\u{3000}x\u{85}", "\t\r\nz\n", "plain"] {
        let t = trim_chars(&chars_of(s));
        assert_eq!(string_of(&t), s.trim());
    }
}

#[test]
fn lines_are_split_at_newlines_without_carriage_returns() {
    let s = chars_of("ab\r\ncd\n\nlast");
    let (e, l) = next_line(&s, 0);
    assert_eq!((e, string_of(&l)), (3, "ab".to_string()));
    let (e, l) = next_line(&s, 4);
    assert_eq!((e, string_of(&l)), (6, "cd".to_string()));
    let (e, l) = next_line(&s, 7);
    assert_eq!((e, string_of(&l)), (7, "".to_string()));
    let (e, l) = next_line(&s, 8);
    assert_eq!((e, string_of(&l)), (12, "last".to_string()));
}

#[test]
fn finding_and_copying_characters() {
    let s = chars_of("a,b,c");
    assert_eq!(find_char(&s, 0, ','), 1);
    assert_eq!(find_char(&s, 2, ','), 3);
    assert_eq!(find_char(&s, 4, ','), 5);
    assert_eq!(string_of(&copy_range(&s, 2, 5)), "b,c");
}

#[test]
fn numbers_are_written_in_decimal() {
    assert_eq!(decimal_chars(0), vec!['0']);
    assert_eq!(string_of(&decimal_chars(u64::MAX)), u64::MAX.to_string());
    assert_eq!(char_of_digit(7), '7');
    let mut s = String::from("x");
    push_padded(&mut s, 42, 5);
    assert_eq!(s, "x00042");
    push_padded(&mut s, 123456, 2);
    assert_eq!(s, "x00042123456");
    let mut s = String::new();
    push_signed(&mut s, -7, 2);
    push_signed(&mut s, 7, 3);
    push_signed(&mut s, -12, 4);
    assert_eq!(s, format!("{:02}{:03}{:04}", -7, 7, -12));
    let mut s = String::new();
    push_zeros(&mut s, 3);
    assert_eq!(s, "000");
}
