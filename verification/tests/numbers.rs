use imageindex::ieee::{at_least32, less32, less64};
use imageindex::number::{decimal, hex16, parse_number, zero_filled_decimal};
use imageindex::text::{
    after_prefix, has_text, join, lines_of, parts_of, same_text_ignoring_ascii_case, text_less,
    trimmed, without_trailing, CharClass,
};

#[test]
fn numbers_are_written_and_read_back() {
    assert_eq!(decimal(0), "0");
    assert_eq!(decimal(u64::MAX), "18446744073709551615");
    assert_eq!(zero_filled_decimal(7, 3), "007");
    assert_eq!(zero_filled_decimal(1234, 3), "1234");
    assert_eq!(hex16(0xabc), "0000000000000abc");
    assert_eq!(hex16(u64::MAX), "ffffffffffffffff");
    for n in [0, 9, 10, 20000, u64::MAX] {
        assert_eq!(parse_number(&decimal(n), u64::MAX), Some(n));
        assert_eq!(parse_number(&zero_filled_decimal(n, 30), u64::MAX), Some(n));
    }
}

#[test]
fn numbers_that_are_none() {
    for s in ["", "+", "-1", "1 ", "1.0", "x", "++1", "\u{661}"] {
        assert_eq!(parse_number(s, 100), None);
    }
    assert_eq!(parse_number("+007", 7), Some(7));
    assert_eq!(parse_number("8", 7), None);
    assert_eq!(parse_number("18446744073709551616", u64::MAX), None);
}

#[test]
fn bit_patterns_order_like_floats() {
    let xs = [
        f32::NEG_INFINITY,
        -1.5,
        -f32::MIN_POSITIVE,
        -0.0,
        0.0,
        1e-40,
        0.363,
        0.9,
        1.0,
        f32::INFINITY,
        f32::NAN,
        -f32::NAN,
    ];
    for a in xs {
        for b in xs {
            assert_eq!(less32(a.to_bits(), b.to_bits()), a < b);
            assert_eq!(at_least32(a.to_bits(), b.to_bits()), a >= b);
            assert_eq!(less64((a as f64).to_bits(), (b as f64).to_bits()), a < b);
        }
    }
}

#[test]
fn lines_of_a_text() {
    assert_eq!(lines_of(""), Vec::<String>::new());
    assert_eq!(lines_of("a\r\nb\n\nc\r"), vec!["a", "b", "", "c\r"]);
    assert_eq!(lines_of("a\n"), vec!["a"]);
}

#[test]
fn parts_of_a_text() {
    assert_eq!(parts_of("", ','), vec![""]);
    assert_eq!(parts_of("a,,b,", ','), vec!["a", "", "b", ""]);
    assert_eq!(join(&parts_of("a,b", ','), ", "), "a, b");
    assert_eq!(join(&Vec::new(), ", "), "");
}

#[test]
fn texts_are_trimmed_and_compared() {
    assert_eq!(trimmed("\u{2003} a b\t\r\n"), "a b");
    assert_eq!(trimmed(" \u{a0} "), "");
    assert_eq!(without_trailing("http://x//", CharClass::Slash), "http://x");
    assert!(same_text_ignoring_ascii_case("NoNe", "none"));
    assert!(!same_text_ignoring_ascii_case("\u{c4}", "\u{e4}"));
    assert_eq!(after_prefix("TEXT: x", "TEXT:"), Some(" x".to_string()));
    assert_eq!(after_prefix("TEX", "TEXT:"), None);
    assert!(text_less("Z", "a") && text_less("a", "ab") && text_less("a", "\u{e4}"));
    assert!(!text_less("a", "a") && !text_less("b", "a"));
    assert!(has_text(&vec!["x".to_string()], "x") && !has_text(&Vec::new(), "x"));
}

#[test]
fn white_space_is_this() {
    let listed = |x: u32| {
        matches!(
            x,
            0x9..=0xd
                | 0x20
                | 0x85
                | 0xa0
                | 0x1680
                | 0x2000..=0x200a
                | 0x2028
                | 0x2029
                | 0x202f
                | 0x205f
                | 0x3000
        )
    };
    for c in '\0'..=char::MAX {
        assert_eq!(trimmed(&c.to_string()).is_empty(), listed(c as u32));
    }
    assert_eq!(trimmed("\u{e9}"), "\u{e9}");
}
