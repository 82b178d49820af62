//! Characters and numbers, against the standard library.
use datafusion_jev::number::{is_within, whole};
use datafusion_jev::text::{
    contains, decimal_text, eq_ignore_ascii_case, is_blank, is_white_space, lower_text, same_text,
};

#[test]
fn white_space_is_that_of_the_standard_library() {
    for u in 0..=0x10ffff_u32 {
        if let Some(c) = char::from_u32(u) {
            assert_eq!(is_white_space(c), c.is_whitespace(), "{u:x}");
        }
    }
    for s in ["", " \n\t", "a", " a ", "\u{85}\u{2003}"] {
        assert_eq!(is_blank(s), s.trim().is_empty(), "{s:?}");
    }
}

#[test]
fn decimals_are_those_of_the_standard_library() {
    for n in [0, 1, 9, 10, 99, 100, 12_345, usize::MAX] {
        assert_eq!(decimal_text(n), n.to_string());
    }
}

#[test]
fn texts_compare_as_they_do_in_the_standard_library() {
    let samples = ["", "a", "A", "ab", "aB", "é", "É", "prompt_jev", "x prompt_jev y", "ﬁ"];
    for a in samples {
        assert_eq!(lower_text(a), a.to_lowercase());
        for b in samples {
            assert_eq!(same_text(a, b), a == b);
            assert_eq!(eq_ignore_ascii_case(a, b), a.eq_ignore_ascii_case(b));
            assert_eq!(contains(a, b), a.contains(b), "{a:?} {b:?}");
        }
    }
}

#[test]
fn whole_numbers_have_the_bits_of_their_floats() {
    for n in [1, 2, 3, 7, 8, 9, 10, 254, 1_000_003, (1 << 52) - 1] {
        assert_eq!(whole(n), (n as f64).to_bits(), "{n}");
    }
}

#[test]
fn ranges_are_those_of_the_floats() {
    let floats = [
        0.0,
        -0.0,
        f64::MIN_POSITIVE,
        f64::from_bits(1),
        -f64::from_bits(1),
        0.5,
        1.0 - f64::EPSILON / 2.0,
        1.0,
        1.0 + f64::EPSILON,
        -1.0,
        2.0,
        8.999,
        9.0,
        9.001,
        f64::MAX,
        f64::MIN,
        f64::INFINITY,
        f64::NEG_INFINITY,
        f64::NAN,
        -f64::NAN,
    ];
    for x in floats {
        for upper in [1_u64, 2, 9] {
            let expected = x.is_finite() && x >= 0.0 && x <= upper as f64;
            assert_eq!(is_within(x.to_bits(), upper), expected, "{x} {upper}");
        }
    }
}
