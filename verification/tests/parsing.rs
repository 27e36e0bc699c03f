use depgraph::depfile::{find_rule_colon, parse_dep_content, split_make_tokens};

fn pair(a: &str, b: &str) -> (String, String) {
    (a.to_string(), b.to_string())
}

#[test]
fn splits_simple_tokens() {
    let tokens = split_make_tokens(" $(ROOT)/a/b.c $(ROOT)/a/b.h ");
    assert_eq!(tokens, vec!["$(ROOT)/a/b.c", "$(ROOT)/a/b.h"]);
}

#[test]
fn splits_tokens_with_escaped_space() {
    let tokens = split_make_tokens(r"$(ROOT)/my\ file.c $(ROOT)/b.h");
    assert_eq!(tokens, vec!["$(ROOT)/my file.c", "$(ROOT)/b.h"]);
}

#[test]
fn finds_colon_ignoring_windows_drive_letter() {
    assert_eq!(find_rule_colon("foo.o: a.c"), Some(5));
    assert_eq!(find_rule_colon("C:\\proj\\foo.o: C:\\proj\\a.c"), Some(13));
}

#[test]
fn parses_multiline_rule_with_continuations() {
    let content = "$(ROOT)/moduleA/foo.o: $(ROOT)/moduleA/foo.c $(ROOT)/moduleA/foo.h \\\n  $(ROOT)/moduleB/bar.h\n$(ROOT)/moduleB/bar.h:\n";
    let pairs = parse_dep_content(content);
    assert!(pairs.contains(&pair("$(ROOT)/moduleA/foo.o", "$(ROOT)/moduleA/foo.c")));
    assert!(pairs.contains(&pair("$(ROOT)/moduleA/foo.o", "$(ROOT)/moduleB/bar.h")));
}

#[test]
fn parse_gives_pairs_in_rule_order() {
    let content = "t.o: a.c b.h\n";
    let pairs = parse_dep_content(content);
    assert_eq!(pairs, vec![pair("t.o", "a.c"), pair("t.o", "b.h")]);
}

#[test]
fn parse_joins_crlf_continuations() {
    let content = "t.o: a.c \\\r\n b.h\r\n";
    let pairs = parse_dep_content(content);
    assert_eq!(pairs, vec![pair("t.o", "a.c"), pair("t.o", "b.h")]);
}

#[test]
fn parse_crosses_several_targets_with_prerequisites() {
    let pairs = parse_dep_content("x.o y.o: p q\n");
    assert_eq!(
        pairs,
        vec![pair("x.o", "p"), pair("x.o", "q"), pair("y.o", "p"), pair("y.o", "q")]
    );
}

#[test]
fn parse_empty_rules_and_blank_lines_give_nothing() {
    assert!(parse_dep_content("\n   \nfoo.h:\nno colon here\n").is_empty());
    assert!(parse_dep_content("").is_empty());
}

#[test]
fn parse_keeps_windows_drive_letter_paths_whole() {
    let pairs = parse_dep_content("C:/proj/foo.o: C:/proj/a.c\n");
    assert_eq!(pairs, vec![pair("C:/proj/foo.o", "C:/proj/a.c")]);
}

#[test]
fn colon_search_without_colon_is_none() {
    assert_eq!(find_rule_colon("no colon"), None);
    assert_eq!(find_rule_colon(""), None);
}

#[test]
fn colon_offset_counts_bytes() {
    // "é" takes two bytes in UTF-8, so the colon sits at byte 3.
    assert_eq!(find_rule_colon("éa: b"), Some(3));
}

#[test]
fn drive_letter_colon_not_followed_by_separator_is_the_rule_colon() {
    assert_eq!(find_rule_colon("C:foo"), Some(1));
    assert_eq!(find_rule_colon("1:/x"), Some(1));
}

#[test]
fn tokens_split_on_tabs_and_unicode_whitespace() {
    let tokens = split_make_tokens("a\tb\u{a0}c\n");
    assert_eq!(tokens, vec!["a", "b", "c"]);
}

#[test]
fn trailing_backslash_stays_in_token() {
    let tokens = split_make_tokens(r"a\b c\");
    assert_eq!(tokens, vec![r"a\b", r"c\"]);
}
