//! Text, words and numbers.

use ccfind::numbers::{fixed_text, parse_i32, parse_i64, signed_text, unsigned_text};
use ccfind::text::{byte_offset, chars_of, clip, cut_at, same, space, text_of, truncate};
use ccfind::words::{
    contains_text, find, is_blank, join, lines, matches_at, position, single_space, trim, trim_end,
    words,
};

const SAMPLES: [&str; 16] = [
    "",
    " ",
    "a",
    "a b",
    "  a\tb\u{a0}c  ",
    "line one\nline two\r\nline three",
    "\n\n",
    "\r",
    "a\r\n",
    "a\rb\nc\r",
    "caf\u{e9} \u{2003} na\u{ef}ve \u{1f600}",
    "\u{85}x\u{2028}",
    "tool_use src/main.rs pr-review-toolkit",
    "one\n\ntwo\n",
    "\u{feff}bom",
    "aaaa",
];

#[test]
fn white_space_is_that_of_std() {
    for n in 0..=0x10ffffu32 {
        if let Some(c) = char::from_u32(n) {
            assert_eq!(space(c), c.is_whitespace(), "{:x}", n);
        }
    }
}

#[test]
fn trimming_is_that_of_std() {
    for s in SAMPLES {
        assert_eq!(trim(s), s.trim());
        assert_eq!(trim_end(s), s.trim_end());
        assert_eq!(is_blank(s), s.trim().is_empty());
    }
}

#[test]
fn words_are_those_of_std() {
    for s in SAMPLES {
        let expected: Vec<String> = s.split_whitespace().map(String::from).collect();
        assert_eq!(words(s), expected);
        assert_eq!(single_space(s), expected.join(" "));
        assert_eq!(join(&expected, "\n"), expected.join("\n"));
    }
}

#[test]
fn single_spacing_twice_changes_nothing() {
    for s in SAMPLES {
        let once = single_space(s);
        assert_eq!(single_space(&once), once);
    }
}

#[test]
fn lines_are_those_of_std() {
    for s in SAMPLES {
        let expected: Vec<String> = s.lines().map(String::from).collect();
        assert_eq!(lines(s), expected, "{:?}", s);
    }
}

#[test]
fn finding_is_that_of_std() {
    for s in SAMPLES {
        for t in ["", "a", "aa", "line", "\u{e9}", "main.rs", "zz"] {
            assert_eq!(contains_text(s, t), s.contains(t), "{:?} {:?}", s, t);
            let expected = s.find(t).map(|b| s[..b].chars().count());
            if !t.is_empty() {
                assert_eq!(find(&chars_of(s), &chars_of(t), 0), expected);
            }
        }
    }
    assert_eq!(find(&chars_of("abcabc"), &chars_of("bc"), 2), Some(4));
    assert!(matches_at(&chars_of("abcabc"), &chars_of("bc"), 4));
    assert!(!matches_at(&chars_of("abcabc"), &chars_of("bc"), 0));
    assert_eq!(position(&chars_of("a/b"), '/', 0), 1);
    assert_eq!(position(&chars_of("a/b"), '/', 2), 3);
}

#[test]
fn parts_of_texts() {
    let cs = chars_of("a\u{e9}b");
    assert_eq!(cs, vec!['a', '\u{e9}', 'b']);
    assert_eq!(text_of(&cs, 1, 3), "\u{e9}b");
    assert_eq!(ccfind::text::concat("ab", "c"), "abc");
    assert!(same("ab", "ab"));
    assert!(!same("ab", "abc"));
    assert_eq!(byte_offset(&cs, 2), 3);
    assert_eq!(cut_at(&cs, 2), 1);
    assert_eq!(cut_at(&cs, 3), 2);
    assert_eq!(cut_at(&cs, 100), 3);
}

#[test]
fn truncation_respects_characters() {
    assert_eq!(truncate("hello", 5), "hello");
    assert_eq!(truncate("hello!", 5), "hello\u{2026}");
    assert_eq!(truncate("h\u{e9}llo", 2), "h\u{2026}");
    assert_eq!(truncate("h\u{e9}llo", 3), "h\u{e9}\u{2026}");
    assert_eq!(truncate("\u{1f600}", 3), "\u{2026}");
    assert_eq!(truncate("", 0), "");
}

#[test]
fn truncated_texts_are_bounded() {
    for s in SAMPLES {
        for max in 0..20 {
            let t = truncate(s, max);
            assert!(t.len() <= max + 3);
            if s.len() <= max {
                assert_eq!(t, s);
            }
        }
    }
}

#[test]
fn shortening_twice_changes_nothing() {
    for s in SAMPLES {
        for max in 0..20 {
            let t = truncate(s, max);
            assert_eq!(truncate(&t, max), t);
            let c = clip(s, max);
            assert_eq!(clip(&c, max), c);
            assert!(c.chars().count() <= max + 1);
        }
    }
}

#[test]
fn clipping_counts_characters_and_cuts_bytes() {
    // Four characters of two bytes each are left alone at a limit of four.
    assert_eq!(clip("\u{e9}\u{e9}\u{e9}\u{e9}", 4), "\u{e9}\u{e9}\u{e9}\u{e9}");
    // Five of them are over the limit, and the cut is at four bytes.
    assert_eq!(clip("\u{e9}\u{e9}\u{e9}\u{e9}\u{e9}", 4), "\u{e9}\u{e9}\u{2026}");
    assert_eq!(clip("a\u{e9}\u{e9}\u{e9}\u{e9}", 4), "a\u{e9}\u{2026}");
    assert_eq!(clip("abcde", 4), "abcd\u{2026}");
}

#[test]
fn numbers_are_written_as_std_writes_them() {
    for n in [0i64, 1, -1, 9, 10, -10, 42, i64::MAX, i64::MIN, 1000000] {
        assert_eq!(signed_text(n), n.to_string());
    }
    for n in [0u128, 7, 10, 99, 100, u64::MAX as u128, u128::MAX] {
        assert_eq!(unsigned_text(n), n.to_string());
    }
}

#[test]
fn numbers_are_read_as_std_reads_them() {
    for s in [
        "", "-", "+", "0", "-0", "+7", "007", "12a", " 1", "1 ", "--1", "+-1", "2147483647",
        "2147483648", "-2147483648", "-2147483649", "9223372036854775807", "9223372036854775808",
        "-9223372036854775808", "-9223372036854775809", "99999999999999999999999", "\u{661}",
        "00000000000000000000000000000012",
    ] {
        assert_eq!(parse_i64(s), s.parse::<i64>().ok(), "{:?}", s);
        assert_eq!(parse_i32(s), s.parse::<i32>().ok(), "{:?}", s);
    }
}

#[test]
fn written_numbers_are_read_back() {
    for n in [0i64, 5, -5, i64::MAX, i64::MIN, 1700000000] {
        assert_eq!(parse_i64(&signed_text(n)), Some(n));
    }
}

#[test]
fn fixed_point_is_that_of_doubles() {
    let mut b: u64 = 1;
    let mut samples: Vec<u64> = vec![0, 512, 1535, 1536, 1537, 2560, 52429, 104857, 157286];
    while b < u64::MAX / 3 {
        samples.push(b);
        samples.push(b - 1);
        samples.push(b + 1);
        samples.push(b / 2 * 3);
        b = b * 3 / 2 + 1;
    }
    samples.push(u64::MAX);
    samples.push((1 << 53) + 1);
    samples.push((1 << 60) + 65);
    for b in samples {
        for (unit, places) in [(1024u64, 0u32), (1 << 20, 1), (1 << 30, 2)] {
            let exact = b as f64 / unit as f64;
            let expected = match places {
                0 => format!("{:.0}", exact),
                1 => format!("{:.1}", exact),
                _ => format!("{:.2}", exact),
            };
            assert_eq!(fixed_text(b, unit, places), expected, "{} / {}", b, unit);
        }
    }
    // Ties go to the even neighbour.
    assert_eq!(fixed_text(1536, 1024, 0), "2");
    assert_eq!(fixed_text(2560, 1024, 0), "2");
}
