use sqlness::text::{
    char_is_whitespace, copy_range, first_match_chars, from_chars, join_lines, leading_whitespace,
    line_is_blank, occurs_at_chars, split_chars, strip_leading_chars, substitute_chars, to_chars,
    trailing_whitespace, trim_chars,
};

fn chars(s: &str) -> Vec<char> {
    s.chars().collect()
}

fn text(v: &[char]) -> String {
    v.iter().collect()
}

fn mappings(pairs: &[(&str, &str)]) -> Vec<(Vec<char>, Vec<char>)> {
    pairs.iter().map(|(k, v)| (chars(k), chars(v))).collect()
}

#[test]
fn characters_round_trip() {
    let v = to_chars("héllo ✓");
    assert_eq!(v, chars("héllo ✓"));
    assert_eq!(from_chars(&v, 0, v.len()), "héllo ✓");
    assert_eq!(from_chars(&v, 1, 3), "él");
    assert_eq!(from_chars(&v, 2, 2), "");
    assert_eq!(copy_range(&v, 6, 7), chars("✓"));
    assert_eq!(to_chars(""), Vec::<char>::new());
}

#[test]
fn white_space_is_the_unicode_property() {
    for c in ['\t', '\n', '\u{b}', '\u{c}', '\r', ' ', '\u{85}', '\u{a0}', '\u{1680}', '\u{2000}',
        '\u{2005}', '\u{200a}', '\u{2028}', '\u{2029}', '\u{202f}', '\u{205f}', '\u{3000}']
    {
        assert!(char_is_whitespace(c), "{:?}", c);
        assert!(c.is_whitespace());
    }
    for c in ['a', '-', '\u{8}', '\u{e}', '\u{1f}', '\u{200b}', '\u{feff}', '\u{2060}', '\u{180e}',
        '0', '$']
    {
        assert!(!char_is_whitespace(c), "{:?}", c);
        assert!(!c.is_whitespace());
    }
}

#[test]
fn white_space_agrees_with_std_everywhere() {
    let mut n: u32 = 0;
    while n <= 0x10ffff {
        if let Some(c) = char::from_u32(n) {
            assert_eq!(char_is_whitespace(c), c.is_whitespace(), "{:x}", n);
        }
        n += 1;
    }
}

#[test]
fn trimming_takes_white_space_off_both_ends() {
    assert_eq!(text(&trim_chars(&chars("  a b \t\n"))), "a b");
    assert_eq!(text(&trim_chars(&chars("a"))), "a");
    assert_eq!(text(&trim_chars(&chars(" \u{3000} "))), "");
    assert_eq!(text(&trim_chars(&chars(""))), "");
    assert_eq!(leading_whitespace(&chars("  a ")), 2);
    assert_eq!(leading_whitespace(&chars("   ")), 3);
    assert_eq!(trailing_whitespace(&chars("  a ")), 3);
    assert_eq!(trailing_whitespace(&chars("   ")), 0);
}

#[test]
fn trimming_agrees_with_std() {
    for s in ["", " ", "a", " a", "a ", "\t a b \r\n", "\u{a0}x\u{2003}", "  --  "] {
        assert_eq!(text(&trim_chars(&chars(s))), s.trim());
    }
}

#[test]
fn blank_lines_hold_white_space_only() {
    assert!(line_is_blank(""));
    assert!(line_is_blank(" \t\r"));
    assert!(!line_is_blank(" ; "));
}

#[test]
fn patterns_are_found_where_they_stand() {
    let v = chars("abcabc");
    assert!(occurs_at_chars(&v, 0, &chars("abc")));
    assert!(occurs_at_chars(&v, 3, &chars("abc")));
    assert!(!occurs_at_chars(&v, 1, &chars("abc")));
    assert!(!occurs_at_chars(&v, 4, &chars("abc")));
    assert!(occurs_at_chars(&v, 6, &chars("")));
    assert!(!occurs_at_chars(&v, 7, &chars("")));
    assert!(!occurs_at_chars(&chars("ab"), 0, &chars("abc")));
}

#[test]
fn leading_repetitions_are_stripped() {
    assert_eq!(strip_leading_chars(&chars("ENVENV A"), &chars("ENV")), 6);
    assert_eq!(strip_leading_chars(&chars("ENV ENV"), &chars("ENV")), 3);
    assert_eq!(strip_leading_chars(&chars("EN"), &chars("ENV")), 0);
    assert_eq!(strip_leading_chars(&chars("ENV"), &chars("")), 0);
    assert_eq!(strip_leading_chars(&chars("aaaa"), &chars("aa")), 4);
    assert_eq!(strip_leading_chars(&chars("aaa"), &chars("aa")), 2);
    for (s, p) in [("ENVENV A", "ENV"), ("aaa", "aa"), ("xyz", "ENV")] {
        let at = strip_leading_chars(&chars(s), &chars(p));
        assert_eq!(text(&chars(s)[at..]), s.trim_start_matches(p));
    }
}

#[test]
fn splitting_keeps_empty_pieces() {
    assert_eq!(split_chars(&chars("a b"), ' '), vec!["a", "b"]);
    assert_eq!(split_chars(&chars(""), ' '), vec![""]);
    assert_eq!(split_chars(&chars(" "), ' '), vec!["", ""]);
    assert_eq!(split_chars(&chars("a  b "), ' '), vec!["a", "", "b", ""]);
    assert_eq!(split_chars(&chars("a\nb\n"), '\n'), vec!["a", "b", ""]);
    assert_eq!(split_chars(&chars("a\nb"), '\n'), vec!["a", "b"]);
}

#[test]
fn splitting_agrees_with_std() {
    for s in ["", " ", "a", "a b", "  a  b  ", "x\ny"] {
        let expected: Vec<String> = s.split(' ').map(|p| p.to_string()).collect();
        assert_eq!(split_chars(&chars(s), ' '), expected);
    }
}

#[test]
fn joining_undoes_splitting() {
    for s in ["", "\n", "a", "a\nb", "a\n\nb\n", "\n\n\n"] {
        let pieces = split_chars(&chars(s), '\n');
        assert_eq!(join_lines(&pieces, '\n'), s);
    }
    assert_eq!(join_lines(&Vec::new(), '\n'), "");
    assert_eq!(join_lines(&vec!["a".to_string()], '\n'), "a");
    assert_eq!(join_lines(&vec!["".to_string(), "".to_string()], ','), ",");
    assert_eq!(join_lines(&vec!["a".to_string(), "b".to_string(), "c".to_string()], '-'), "a-b-c");
}

#[test]
fn first_match_is_by_order_of_the_mappings() {
    let line = chars("$AB");
    assert_eq!(first_match_chars(&line, 0, &mappings(&[("$A", "1"), ("$AB", "2")])), 0);
    assert_eq!(first_match_chars(&line, 0, &mappings(&[("$X", "1"), ("$AB", "2")])), 1);
    assert_eq!(first_match_chars(&line, 1, &mappings(&[("$A", "1"), ("$AB", "2")])), 2);
    assert_eq!(first_match_chars(&line, 0, &mappings(&[("", "1")])), 1);
    assert_eq!(first_match_chars(&line, 0, &mappings(&[])), 0);
}

#[test]
fn single_mapping_replaces_like_std() {
    for (s, k, v) in [
        ("SELECT $SECRET;", "$SECRET", "2333"),
        ("aaaa", "aa", "b"),
        ("aaa", "aa", "b"),
        ("abab", "ab", "abab"),
        ("", "x", "y"),
        ("xyz", "y", ""),
        ("$$AA", "$A", ""),
        ("no match", "zzz", "y"),
    ] {
        let out = substitute_chars(&chars(s), &mappings(&[(k, v)]));
        assert_eq!(text(&out), s.replace(k, v), "{:?} {:?} {:?}", s, k, v);
    }
}

#[test]
fn empty_key_replaces_nothing() {
    let out = substitute_chars(&chars("abc"), &mappings(&[("", "-")]));
    assert_eq!(text(&out), "abc");
    let out = substitute_chars(&chars("abc"), &mappings(&[("", "-"), ("b", "X")]));
    assert_eq!(text(&out), "aXc");
}

#[test]
fn several_mappings_are_applied_in_one_pass() {
    let out = substitute_chars(&chars("$A+$B=$A$B"), &mappings(&[("$A", "1"), ("$B", "2")]));
    assert_eq!(text(&out), "1+2=12");
    let out = substitute_chars(&chars("ab"), &mappings(&[("a", "b"), ("b", "a")]));
    assert_eq!(text(&out), "ba");
    let out = substitute_chars(&chars("cab"), &mappings(&[("ab", "1"), ("ca", "2")]));
    assert_eq!(text(&out), "2b");
}

#[test]
fn overlapping_occurrences_are_taken_from_the_left() {
    let out = substitute_chars(&chars("aaaaa"), &mappings(&[("aa", "b")]));
    assert_eq!(text(&out), "bba");
    assert_eq!(text(&out), "aaaaa".replace("aa", "b"));
    let out = substitute_chars(&chars("abababa"), &mappings(&[("aba", "-")]));
    assert_eq!(text(&out), "-b-");
}
