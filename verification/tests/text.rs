use kiln::sorted::{StrMap, StrSet};
use kiln::text::{
    before_stop, contains, decimal_text, end_trimmed, filled_lines_of, find_last,
    integer_text, is_alphanumeric, is_blank, is_white_space, join, lines_of, lossy, pad,
    parse_integer, parse_unsigned, precedes, preview_of, rsplit_once, safe, same, say,
    split_once, strip_prefix, tail, trim_end_matches, trim_start_matches, trimmed,
    words_of,
};

#[test]
fn white_space_is_what_unicode_says() {
    for n in 0u32..=0x10ffff {
        if let Some(c) = char::from_u32(n) {
            assert_eq!(is_white_space(c), c.is_whitespace(), "{n:x}");
            assert_eq!(is_alphanumeric(c), c.is_alphanumeric(), "{n:x}");
        }
    }
}

#[test]
fn texts_are_trimmed_and_split() {
    for s in ["", " a ", "\u{3000}x\n", "  ", "a b", "\u{a0}é\u{2028}"] {
        assert_eq!(trimmed(s), s.trim());
        assert_eq!(end_trimmed(s), s.trim_end());
        assert_eq!(is_blank(s), s.trim().is_empty());
        let words: Vec<String> = s.split_whitespace().map(String::from).collect();
        assert_eq!(words_of(s), words);
    }
    assert_eq!(words_of("--a  b\tc\n"), vec!["--a", "b", "c"]);
    for s in ["", "a", "a\n", "a\r\nb", "\n\n", "a\n\nb\n", "a\rb", "x\r"] {
        let lines: Vec<String> = s.lines().map(String::from).collect();
        assert_eq!(lines_of(s), lines, "{s:?}");
    }
    assert_eq!(filled_lines_of("a\n \n\nb\r\n\t\n"), vec!["a", "b"]);
    assert_eq!(split_once("a:b:c", ':'), Some(("a".to_string(), "b:c".to_string())));
    assert_eq!(rsplit_once("a:b:c", ':'), Some(("a:b".to_string(), "c".to_string())));
    assert_eq!(split_once("abc", ':'), None);
    assert_eq!(rsplit_once("abc", ':'), None);
    assert_eq!(strip_prefix("http://x", "http://"), Some("x".to_string()));
    assert_eq!(strip_prefix("x", "http://"), None);
    assert_eq!(before_stop("a/b:c", '/', ':'), "a");
    assert!(contains("abc", "bc") && !contains("abc", "cb") && contains("a", ""));
    assert_eq!(trim_end_matches("a.git.git", ".git"), "a".to_string());
    assert_eq!(trim_start_matches("xxab", "x"), "ab");
    assert_eq!(find_last(&vec!['a', 'b', 'a'], 'a'), Some(2));
}

#[test]
fn numbers_are_written_and_read() {
    for n in [0u64, 7, 10, 12345, u64::MAX] {
        assert_eq!(decimal_text(n), n.to_string());
        assert_eq!(parse_unsigned(&n.to_string(), u64::MAX), Some(n));
    }
    for n in [0i64, -1, 42, i64::MIN, i64::MAX] {
        assert_eq!(integer_text(n), n.to_string());
        assert_eq!(parse_integer(&n.to_string()), Some(n));
    }
    for s in ["", "+", "-", "+3", "-3", " 3", "3 ", "1_0", "٣", "65536", "65535", "007"] {
        assert_eq!(parse_unsigned(s, 65535), s.parse::<u16>().ok().map(u64::from), "{s:?}");
        assert_eq!(parse_integer(s), s.parse::<i64>().ok(), "{s:?}");
    }
    assert_eq!(parse_integer("9223372036854775808"), None);
    assert_eq!(parse_integer("-9223372036854775808"), Some(i64::MIN));
}

#[test]
fn texts_are_ordered_joined_and_padded() {
    for (a, b) in [("", "a"), ("a", "b"), ("a", "aa"), ("Z", "a"), ("é", "z"), ("a", "a")] {
        assert_eq!(precedes(a, b), a < b);
        assert_eq!(precedes(b, a), b < a);
        assert_eq!(same(a, b), a == b);
    }
    assert_eq!(join(&vec!["a".to_string(), "b".to_string()], ", "), "a, b");
    assert_eq!(join(&vec![], ", "), "");
    assert_eq!(pad("é", 3), "é  ");
    assert_eq!(pad("long", 3), "long");
    assert_eq!(say(vec!["a", "", "bc"]), "abc");
    assert_eq!(preview_of("a\nb\ncd", 4), "a b ");
    assert_eq!(preview_of("a", 60), "a");
}

#[test]
fn names_are_made_safe() {
    assert_eq!(safe("wu-1/x y.z_ß"), "wu-1_x_y_z_ß");
    assert_eq!(safe(""), "");
}

#[test]
fn bytes_are_read_as_text() {
    assert_eq!(lossy("héllo".as_bytes()), "héllo");
    assert_eq!(lossy(&[b'a', 0xc3, b'(']), "a\u{fffd}(");
    assert_eq!(tail("héllo".as_bytes(), 4), "éllo");
    assert_eq!(tail(b"abc", 10), "abc");
    assert_eq!(tail(b"abc", 0), "");
}

#[test]
fn a_map_is_kept_in_order_with_each_key_once() {
    let mut m: StrMap<u32> = StrMap::new();
    assert!(m.is_empty());
    for (k, v) in [("b", 1), ("a", 2), ("c", 3), ("b", 4)] {
        m.insert(k.to_string(), v);
    }
    let pairs: Vec<(String, u32)> = (0..m.len()).map(|i| (m.key(i).clone(), *m.value(i))).collect();
    assert_eq!(
        pairs,
        vec![("a".to_string(), 2), ("b".to_string(), 4), ("c".to_string(), 3)]
    );
    assert_eq!(m.get("b"), Some(&4));
    assert_eq!(m.get("d"), None);
    assert!(m.contains_key("c") && !m.contains_key(""));
    assert_eq!(m.clone(), m);
    assert!(StrMap::<u32>::default().is_empty());
}

#[test]
fn a_set_is_kept_in_order_with_each_text_once() {
    let mut s = StrSet::new();
    assert!(s.is_empty());
    for k in ["b", "a", "b", "ab"] {
        s.insert(k.to_string());
    }
    let listed: Vec<String> = (0..s.len()).map(|i| s.item(i).clone()).collect();
    assert_eq!(listed, vec!["a", "ab", "b"]);
    assert!(s.contains("ab") && !s.contains("c"));
    assert_eq!(s.clone(), s);
}
