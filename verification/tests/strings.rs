use caller_utils::strings;

#[test]
fn spaces_are_those_of_char() {
    for code in 0u32..0x11_0000 {
        if let Some(c) = char::from_u32(code) {
            assert_eq!(strings::is_space(c), c.is_whitespace(), "{:x}", code);
        }
    }
}

#[test]
fn trimming_and_stripping() {
    let samples = vec!["", " ", "  a b \t", "\u{3000}x\u{a0}", "sss", "boss", "%%name%", "// x"];
    for s in samples {
        assert_eq!(strings::trim(s), s.trim());
        assert_eq!(strings::strip_prefixes(s, "%"), s.trim_start_matches('%'));
        assert_eq!(strings::strip_suffixes(s, "s"), s.trim_end_matches('s'));
        assert_eq!(strings::strip_prefixes(s, "//"), s.trim_start_matches("//"));
    }
}

#[test]
fn searching() {
    assert_eq!(strings::find("a, b, c", ", "), Some(1));
    assert_eq!(strings::find("äöü, b", ", "), Some(3));
    assert_eq!(strings::find("abc", ", "), None);
    assert!(strings::contains("the world is", "world "));
    assert!(!strings::contains("the world", "world "));
    assert!(strings::starts_with("record x", "record "));
    assert!(strings::ends_with("import x;", ";"));
    assert!(!strings::ends_with("", ";"));
    assert!(strings::same("äb", "äb"));
    assert!(!strings::same("äb", "äbc"));
}

#[test]
fn splitting_and_joining() {
    let samples = vec!["", ", ", "a", "a, b", ",, , ,", "a, , b", "x-signature-y"];
    for s in samples {
        let pieces: Vec<String> = s.split(", ").map(|p| p.to_string()).collect();
        assert_eq!(strings::split(s, ", "), pieces);
        assert_eq!(strings::join(&pieces, ", "), s);
        let by_char: Vec<String> = s.split(',').map(|p| p.to_string()).collect();
        assert_eq!(strings::split_char(s, ','), by_char);
    }
}

#[test]
fn lines_are_those_of_str() {
    let samples = vec!["", "\n", "a", "a\n", "a\nb", "a\r\nb\r\n", "a\r", "\r\n\r\n", "a\n\nb"];
    for s in samples {
        let expected: Vec<String> = s.lines().map(|l| l.to_string()).collect();
        assert_eq!(strings::lines(s), expected, "{:?}", s);
    }
}

#[test]
fn words() {
    assert_eq!(strings::second_word("world types-a {"), Some("types-a".to_string()));
    assert_eq!(strings::second_word("  world\t\tx  "), Some("x".to_string()));
    assert_eq!(strings::second_word("world "), None);
    assert_eq!(strings::second_word(""), None);
}

#[test]
fn replacing_and_numbers() {
    assert_eq!(strings::replace_char("a\nb\n", '\n', "\n    "), "a\n    b\n    ");
    assert_eq!(strings::replace_char("", '\n', "x"), "");
    assert_eq!(strings::decimal(0), "0");
    assert_eq!(strings::decimal(10), "10");
    assert_eq!(strings::decimal(usize::MAX), format!("{}", usize::MAX));
}
