use lilyabc_browser::text::{chars_of, lines, parse_u32, push_decimal, string_of, trim, trim_start};

fn number(s: &str) -> Option<u32> {
    parse_u32(&chars_of(s))
}

#[test]
fn numbers_are_read_as_the_standard_library_reads_them() {
    for s in [
        "0", "7", "007", "+5", "4294967295", "4294967296", "99999999999999999999", "", "+", "-", "-1", "++1", "1 ",
        " 1", "1_0", "1a", "٣", "+0",
    ] {
        assert_eq!(number(s), s.parse::<u32>().ok(), "{s:?}");
    }
}

#[test]
fn decimal_notation_reads_back() {
    for n in [0u64, 1, 9, 10, 99, 100, 12345, 4294967295] {
        let mut s = String::from("n=");
        push_decimal(&mut s, n);
        assert_eq!(s, format!("n={n}"));
        assert_eq!(number(&s[2..]), Some(n as u32));
    }
    let mut s = String::new();
    push_decimal(&mut s, u64::MAX);
    assert_eq!(s, "18446744073709551615");
}

#[test]
fn white_space_is_that_of_unicode() {
    for n in 0..=0x10ffffu32 {
        if let Some(c) = char::from_u32(n) {
            let s = [c, 'x', c];
            assert_eq!(trim(&s).len() == 1, c.is_whitespace());
            assert_eq!(trim_start(&s).len() == 2, c.is_whitespace());
        }
    }
}

#[test]
fn trimming() {
    assert_eq!(string_of(trim(&chars_of("\t a b \u{a0}\n"))), "a b");
    assert_eq!(string_of(trim(&chars_of("  "))), "");
    assert_eq!(string_of(trim_start(&chars_of("  a "))), "a ");
}

#[test]
fn lines_are_split_as_the_standard_library_splits_them() {
    for s in ["", "\n", "a", "a\n", "a\nb", "a\r\nb\r\n", "a\r", "\r\n\r", "a\r\r\nb", "\n\n", "ä\nö\r\n"] {
        let chars = chars_of(s);
        let mine: Vec<String> = lines(&chars).into_iter().map(string_of).collect();
        let std: Vec<String> = s.lines().map(|l| l.to_string()).collect();
        assert_eq!(mine, std, "{s:?}");
    }
}
