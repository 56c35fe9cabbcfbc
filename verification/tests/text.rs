//! Characters, words, lines, numbers and their order.

use commentlint::number::parse_number;
use commentlint::order::{bytes_precede, text_precedes};
use commentlint::score::Score;
use commentlint::table::Table;
use commentlint::text::{is_whitespace, join, same_text, trim_text, words_of};

#[test]
fn white_space_is_that_of_unicode() {
    for p in 0..=0x10ffff_u32 {
        if let Some(c) = char::from_u32(p) {
            assert_eq!(is_whitespace(c), c.is_whitespace(), "{:x}", p);
        }
    }
}

#[test]
fn words_and_trimming_follow_white_space() {
    let cases = ["", " ", "one", " one\ttwo\n", "a\u{a0}b\u{3000}c", "  mid  dle  "];
    for text in cases {
        let want: Vec<String> = text.split_whitespace().map(|w| w.to_string()).collect();
        assert_eq!(words_of(text), want);
        assert_eq!(trim_text(text), text.trim());
        assert_eq!(join(&want, ' '), want.join(" "));
    }
}

#[test]
fn texts_are_ordered_by_their_bytes() {
    let cases = ["", "a", "aa", "ab", "b", "é", "z", "\u{ffff}", "\u{10000}"];
    for a in cases {
        for b in cases {
            assert_eq!(text_precedes(a, b), a < b, "{} {}", a, b);
            assert_eq!(bytes_precede(a.as_bytes(), b.as_bytes()), a.as_bytes() < b.as_bytes());
            assert_eq!(same_text(a, b), a == b);
        }
    }
}

#[test]
fn numbers_are_read_as_std_reads_them() {
    let cases = [
        "", "+", "-1", "0", "007", "+12", "++1", "1 2", "18446744073709551615", "18446744073709551616",
        "99999999999999999999999", "12a", " 30 ", "\t5\n", "1.5",
    ];
    for text in cases {
        assert_eq!(parse_number(text), text.trim().parse::<u64>().ok(), "{:?}", text);
    }
}

fn score(x: f64) -> Score {
    Score { bits: x.to_bits() }
}

#[test]
fn scores_compare_as_floats_do() {
    let cases = [
        0.0, -0.0, 0.5, 0.7, 1.0, -1.0, 1.5, f64::MIN_POSITIVE, 5e-324, -5e-324, f64::INFINITY,
        f64::NEG_INFINITY, f64::NAN, -f64::NAN, 0.1 + 0.2, 0.3,
    ];
    for a in cases {
        for b in cases {
            assert_eq!(score(a).is_below(score(b)), a < b, "{} {}", a, b);
            assert_eq!(score(a) == score(b), a == b, "{} {}", a, b);
        }
        assert_eq!(score(a).is_in_unit(), (0.0..=1.0).contains(&a), "{}", a);
    }
}

#[test]
fn tables_are_walked_in_the_order_of_ids() {
    let mut table: Table<bool> = Table::new();
    assert!(table.is_empty());
    table.insert("b".to_string(), true);
    table.insert("a".to_string(), false);
    table.insert("c".to_string(), true);
    table.insert("b".to_string(), false);
    assert_eq!(table.len(), 3);
    let ids: Vec<&str> = (0..table.len()).map(|i| table.id_at(i)).collect();
    assert_eq!(ids, vec!["a", "b", "c"]);
    assert_eq!(table.get("b"), Some(&false));
    assert!(*table.value_at(2));
    table.remove("a");
    table.remove("zz");
    assert!(!table.contains("a"));
    assert_eq!(table.len(), 2);
    assert_eq!(table.get("a"), None);
}
