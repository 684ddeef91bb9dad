use beekem_regressions::sweep::seeds;
use beekem_regressions::text::{contains, decimal_text, first_line_of, hex_text, join, place, Place};

#[test]
fn numerals() {
    assert_eq!(decimal_text(0), "0");
    assert_eq!(decimal_text(7), "7");
    assert_eq!(decimal_text(1090), "1090");
    assert_eq!(decimal_text(u64::MAX), u64::MAX.to_string());
    assert_eq!(hex_text(0), "0x0");
    assert_eq!(hex_text(0x5107_0000), "0x51070000");
    assert_eq!(hex_text(0xdeadbeef), format!("{:#x}", 0xdeadbeefu64));
    assert_eq!(hex_text(u64::MAX), format!("{:#x}", u64::MAX));
}

#[test]
fn joining() {
    let none: Vec<String> = vec![];
    assert_eq!(join(&none, "; "), "");
    assert_eq!(join(&vec!["a".to_string()], "; "), "a");
    assert_eq!(join(&vec!["a".to_string(), "".to_string(), "ç".to_string()], "; "), "a; ; ç");
}

#[test]
fn searching() {
    for (whole, part) in [
        ("", ""),
        ("abc", ""),
        ("", "a"),
        ("abc", "abc"),
        ("abc", "bc"),
        ("abc", "ac"),
        ("aab", "ab"),
        ("größe", "öß"),
        ("abc", "abcd"),
    ] {
        assert_eq!(contains(whole, part), whole.contains(part), "{whole:?} {part:?}");
    }
}

#[test]
fn first_lines() {
    for s in ["", "a", "a\nb", "\na", "a\r\nb", "\r\nb", "a\rb\nc", "a\r", "a\r\r\nb", "é\nx", "\n"] {
        assert_eq!(first_line_of(s), s.lines().next().unwrap_or(""), "{s:?}");
    }
}

#[test]
fn order_of_texts() {
    let all = ["", "a", "ab", "b", "B", "ß", "zz", "z", "\u{1F600}", "\u{FFFD}"];
    for a in all {
        for b in all {
            let expected = if a < b {
                Place::Before
            } else if a == b {
                Place::Same
            } else {
                Place::After
            };
            assert_eq!(place(a, b), expected, "{a:?} {b:?}");
        }
    }
}

#[test]
fn sweeps_reach_the_largest_seed() {
    assert_eq!(seeds(u64::MAX - 1, 2), vec![u64::MAX - 1, u64::MAX]);
    assert_eq!(seeds(u64::MAX, 1), vec![u64::MAX]);
    assert!(seeds(u64::MAX, 0).is_empty());
    assert_eq!(seeds(7, 3), vec![7, 8, 9]);
}
