use pve_meta_traefik::text::{chars_of, comes_before, contains_text, decimal_text, equal_name};
use pve_meta_traefik::text::{equal_text, is_port_number, replace_text, signed_text, split_text};
use pve_meta_traefik::text::{text_between, trim_text, trim_trailing};

#[test]
fn names_are_equal_whatever_the_case_of_ascii_letters() {
    assert!(equal_name("LoadBalancer", "loadbalancer"));
    assert!(!equal_name("servers", "server"));
    assert!(!equal_name("[", "{"));
    assert!(!equal_name("\u{c4}", "\u{e4}"));
    assert!(equal_text("a", "a"));
    assert!(!equal_text("a", "A"));
}

#[test]
fn texts_are_in_the_order_of_their_code_points() {
    let mut words = vec!["b", "", "\u{10000}", "\u{ffff}", "a", "aa", "Z", "\u{e9}"];
    words.sort_by(|a, b| {
        if comes_before(a, b) {
            std::cmp::Ordering::Less
        } else if comes_before(b, a) {
            std::cmp::Ordering::Greater
        } else {
            std::cmp::Ordering::Equal
        }
    });
    let mut sorted = words.clone();
    sorted.sort();
    assert_eq!(words, sorted);
    assert!(!comes_before("a", "a"));
}

#[test]
fn every_occurrence_is_replaced_once() {
    assert_eq!(replace_text("${ip}-${ip}", "${ip}", "1"), "1-1");
    assert_eq!(replace_text("aaa", "aa", "b"), "ba");
    assert_eq!(replace_text("aXa", "X", "XX"), "aXXa");
    assert_eq!(replace_text("", "x", "y"), "");
    assert!(contains_text("ab${ip}", "${ip}"));
    assert!(!contains_text("${ip", "${ip}"));
}

#[test]
fn pieces_stand_between_separators() {
    assert_eq!(split_text("a;b;", ';'), vec!["a", "b", ""]);
    assert_eq!(split_text("", ';'), vec![""]);
    assert_eq!(trim_trailing("a//b//", '/'), "a//b");
    assert_eq!(trim_trailing("///", '/'), "");
}

#[test]
fn white_space_is_trimmed_on_both_sides() {
    assert_eq!(trim_text("\t\u{85}a \u{3000}b\u{a0}\u{1680}"), "a \u{3000}b");
    assert_eq!(trim_text("\u{200b}"), "\u{200b}");
    assert_eq!(trim_text(" \n"), "");
    for code in 0..0x11_0000u32 {
        if let Some(c) = char::from_u32(code) {
            let text = c.to_string();
            assert_eq!(trim_text(&text), text.trim(), "{code:x}");
        }
    }
}

#[test]
fn numbers_have_their_numerals() {
    assert_eq!(decimal_text(0), "0");
    assert_eq!(decimal_text(u64::MAX), "18446744073709551615");
    assert_eq!(signed_text(-1), "-1");
    assert_eq!(signed_text(i64::MIN), "-9223372036854775808");
    assert_eq!(signed_text(12), "12");
}

#[test]
fn port_numbers_are_those_of_sixteen_bits() {
    for text in ["0", "80", "65535", "+1", "00000000000000000000000080"] {
        assert!(is_port_number(text), "{text}");
        assert!(text.parse::<u16>().is_ok(), "{text}");
    }
    for text in ["", "+", "-1", "65536", "99999999999999999999999", "1 ", "0x1", "++1", "\u{661}"] {
        assert!(!is_port_number(text), "{text}");
        assert!(text.parse::<u16>().is_err(), "{text}");
    }
}

#[test]
fn characters_are_taken_apart_and_put_together() {
    let chars = chars_of("a\u{e9}\u{1f600}z");
    assert_eq!(chars, vec!['a', '\u{e9}', '\u{1f600}', 'z']);
    assert_eq!(text_between(&chars, 1, 3), "\u{e9}\u{1f600}");
    assert_eq!(text_between(&chars, 2, 2), "");
}
