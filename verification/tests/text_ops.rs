use newerr::text::{blank, chars_of, replace_chars, same_text, string_of};

#[test]
fn blank_agrees_with_trim() {
    let samples = [
        "", " ", "\t\n", "\u{a0}\u{3000}", "\u{2009}", "\u{200b}", "a", " x ", "\u{85}", "\u{180e}",
        "\u{feff}", "\u{202f}\u{205f}\u{1680}\u{2028}\u{2029}\u{b}\u{c}\r",
    ];
    for s in samples {
        assert_eq!(blank(&chars_of(s)), s.trim().is_empty(), "{:?}", s);
    }
    for c in '\0'..='\u{3100}' {
        let s = c.to_string();
        assert_eq!(blank(&chars_of(&s)), s.trim().is_empty(), "{:?}", c);
    }
}

#[test]
fn replace_agrees_with_std() {
    let cases = [
        ("aaaa", "aa", "b"),
        ("aaa", "aa", "b"),
        ("abcabc", "bc", ""),
        ("{{x}}{{x}", "{{x}}", "{{x}}"),
        ("no match", "zz", "y"),
        ("ñañaña", "ña", "ü"),
        ("", "a", "b"),
        ("ab", "abc", "d"),
    ];
    for (s, p, r) in cases {
        let got = string_of(&replace_chars(&chars_of(s), &chars_of(p), &chars_of(r)));
        assert_eq!(got, s.replace(p, r), "{s:?} {p:?} {r:?}");
    }
}

#[test]
fn texts_compare_by_characters() {
    assert!(same_text("abc", "abc"));
    assert!(!same_text("abc", "abd"));
    assert!(!same_text("ab", "abc"));
    assert!(same_text("", ""));
    assert_eq!(string_of(&chars_of("héllo")), "héllo");
}
