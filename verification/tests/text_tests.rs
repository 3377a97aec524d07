use ghost_core::text::{is_whitespace, push_int, trim_chars, TrimSet};

#[test]
fn whitespace_matches_std() {
    for u in 0u32..=0x10FFFF {
        if let Some(c) = char::from_u32(u) {
            assert_eq!(is_whitespace(c), c.is_whitespace(), "U+{:04X}", u);
        }
    }
}

#[test]
fn trim_matches_std() {
    for s in ["  a b  ", "\u{3000}x\u{85}", "", "   ", "\"\"q\"", "no"] {
        let cs: Vec<char> = s.chars().collect();
        let t: String = trim_chars(&cs, TrimSet::Whitespace).into_iter().collect();
        assert_eq!(t, s.trim());
        let q: String = trim_chars(&cs, TrimSet::Only('"')).into_iter().collect();
        assert_eq!(q, s.trim_matches('"'));
    }
}

#[test]
fn decimal_matches_display() {
    for x in [0i64, 7, 10, -1, -10, 128, 2147483647, -2147483648, i64::MAX, i64::MIN] {
        let mut out = Vec::new();
        push_int(&mut out, x);
        let s: String = out.into_iter().collect();
        assert_eq!(s, x.to_string());
    }
}
