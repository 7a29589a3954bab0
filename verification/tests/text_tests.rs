use text_editor::text::{
    append_chars, find_comma, has_prefix, join_text, parse_dec, push_dec, split_text, tail_from,
    trim_range,
};

fn cv(s: &str) -> Vec<char> {
    s.chars().collect()
}

#[test]
fn split_text_on_newlines() {
    let parts = split_text(&cv("ab\nc\n\nd"));
    assert_eq!(parts, vec![cv("ab"), cv("c"), cv(""), cv("d")]);
}

#[test]
fn split_text_of_empty_is_one_empty_line() {
    assert_eq!(split_text(&cv("")), vec![cv("")]);
}

#[test]
fn join_text_with_no_trailing_newline() {
    assert_eq!(join_text(&vec![cv("ab"), cv("c")]), cv("ab\nc"));
    assert_eq!(join_text(&vec![cv("")]), cv(""));
    assert_eq!(join_text(&vec![cv("a"), cv("")]), cv("a\n"));
}

#[test]
fn split_then_join_round_trip() {
    for text in ["", "a", "ab\ncd", "a\n\nb\n", "\n"] {
        let parts = split_text(&cv(text));
        assert_eq!(join_text(&parts), cv(text), "text {:?}", text);
    }
}

#[test]
fn decimal_rendering() {
    let mut out: Vec<char> = Vec::new();
    push_dec(&mut out, 0);
    out.push(',');
    push_dec(&mut out, 12345);
    assert_eq!(out, cv("0,12345"));
}

#[test]
fn decimal_parsing() {
    let s = cv("0,12345,x9");
    assert_eq!(parse_dec(&s, 0, 1), Some(0));
    assert_eq!(parse_dec(&s, 2, 7), Some(12345));
    assert_eq!(parse_dec(&s, 8, 10), None); // not all digits
    assert_eq!(parse_dec(&s, 3, 3), None); // empty range
}

#[test]
fn decimal_parse_rejects_overflow() {
    let s = cv("99999999999999999999999999");
    assert_eq!(parse_dec(&s, 0, s.len()), None);
}

#[test]
fn decimal_render_parse_round_trip() {
    for n in [0usize, 7, 10, 99, 100, 65535, usize::MAX] {
        let mut out: Vec<char> = Vec::new();
        push_dec(&mut out, n);
        assert_eq!(parse_dec(&out, 0, out.len()), Some(n));
    }
}

#[test]
fn trim_strips_surrounding_whitespace() {
    assert_eq!(trim_range(&cv("  a b\t "), 0), cv("a b"));
    assert_eq!(trim_range(&cv("s  name "), 2), cv("name"));
    assert_eq!(trim_range(&cv("   "), 0), cv(""));
}

#[test]
fn prefix_test_matches() {
    assert!(has_prefix(&cv("# path=x"), &cv("# path=")));
    assert!(!has_prefix(&cv("# pat"), &cv("# path=")));
    assert!(!has_prefix(&cv("## path=x"), &cv("# path=")));
}

#[test]
fn comma_search_finds_first_from_position() {
    let s = cv("ab,cd,e");
    assert_eq!(find_comma(&s, 0), 2);
    assert_eq!(find_comma(&s, 3), 5);
    assert_eq!(find_comma(&s, 6), 7); // none: the length
}

#[test]
fn tail_and_append() {
    assert_eq!(tail_from(&cv("abcdef"), 2), cv("cdef"));
    let mut out = cv("ab");
    append_chars(&mut out, &cv("cd"));
    assert_eq!(out, cv("abcd"));
}
