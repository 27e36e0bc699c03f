use depgraph::cli::{parse_args, parse_usize};
use depgraph::edges::EdgeMode;

fn args(list: &[&str]) -> Vec<String> {
    list.iter().map(|s| s.to_string()).collect()
}

#[test]
fn parses_defaults() {
    let c = parse_args(args(&["src"])).ok().unwrap();
    assert_eq!(c.root, "src");
    assert_eq!(c.output_path, "graph.dot");
    assert!(!c.verbose);
    assert!(!c.reduce);
    assert_eq!(c.level, 1);
    assert_eq!(c.edge_mode, EdgeMode::Flat);
}

#[test]
fn parses_every_option_in_any_position() {
    let c = parse_args(args(&[
        "--level", "3", "-v", "in", "--edge-mode", "hierarchical", "out.dot", "--reduce",
    ]))
    .ok()
    .unwrap();
    assert_eq!(c.root, "in");
    assert_eq!(c.output_path, "out.dot");
    assert!(c.verbose);
    assert!(c.reduce);
    assert_eq!(c.level, 3);
    assert_eq!(c.edge_mode, EdgeMode::Hierarchical);
}

#[test]
fn refuses_missing_input_folder() {
    assert_eq!(
        parse_args(args(&["--verbose"])).err(),
        Some("Error: missing <input_folder> argument".to_string())
    );
}

#[test]
fn refuses_bad_level_values() {
    assert_eq!(
        parse_args(args(&["in", "--level"])).err(),
        Some("Error: --level requires a positive integer argument".to_string())
    );
    assert_eq!(
        parse_args(args(&["in", "--level", "0"])).err(),
        Some("Error: --level expects a positive integer, got '0'".to_string())
    );
    assert_eq!(
        parse_args(args(&["in", "--level", "two"])).err(),
        Some("Error: --level expects a positive integer, got 'two'".to_string())
    );
}

#[test]
fn refuses_bad_edge_modes() {
    assert_eq!(
        parse_args(args(&["in", "--edge-mode"])).err(),
        Some("Error: --edge-mode requires 'flat' or 'hierarchical'".to_string())
    );
    assert_eq!(
        parse_args(args(&["in", "--edge-mode", "deep"])).err(),
        Some("Error: --edge-mode expects 'flat' or 'hierarchical', got 'deep'".to_string())
    );
}

#[test]
fn reads_unsigned_integers_like_str_parse() {
    assert_eq!(parse_usize("42"), Some(42));
    assert_eq!(parse_usize("+7"), Some(7));
    assert_eq!(parse_usize("007"), Some(7));
    assert_eq!(parse_usize(""), None);
    assert_eq!(parse_usize("+"), None);
    assert_eq!(parse_usize("-1"), None);
    assert_eq!(parse_usize("1a"), None);
    assert_eq!(parse_usize("18446744073709551615"), Some(usize::MAX));
    assert_eq!(parse_usize("18446744073709551616"), None);
}
