use homelab_s3::text::{control_char, parse_number, push_decimal, to_chars, trim_chars, white_space};

#[test]
fn character_classes_are_those_of_unicode() {
    for c in '\0'..=char::MAX {
        assert_eq!(white_space(c), c.is_whitespace());
        assert_eq!(control_char(c), c.is_control());
    }
}

#[test]
fn numbers_are_read_as_the_standard_library_reads_them() {
    let texts = vec![
        "0", "+0", "00", "9", "10", "+", "", "-", "-0", "+-1", "1+", " 1", "1_000", "65535",
        "65536", "4294967295", "4294967296", "18446744073709551615", "18446744073709551616",
        "99999999999999999999999", "\u{663}",
    ];
    for t in texts {
        assert_eq!(parse_number(&to_chars(t), usize::MAX), t.parse::<usize>().ok());
        assert_eq!(
            parse_number(&to_chars(t), 65535),
            t.parse::<u16>().ok().map(|n| n as usize)
        );
    }
}

#[test]
fn numbers_are_written_as_the_standard_library_writes_them() {
    for n in [0, 1, 9, 10, 99, 100, 12345, usize::MAX] {
        let mut s = "n=".to_string();
        push_decimal(&mut s, n);
        assert_eq!(s, format!("n={n}"));
        assert_eq!(parse_number(&to_chars(&s[2..]), usize::MAX), Some(n));
    }
}

#[test]
fn white_space_is_trimmed_at_both_ends() {
    for t in ["", " ", " a ", "\t a b\u{a0}", "a", "\u{2003}\u{85}x y\u{3000}", "\u{200b}a"] {
        assert_eq!(trim_chars(&to_chars(t)), to_chars(t.trim()));
    }
}
