use linetools::catr::{open_failure_message, Config};
use linetools::source::{resolve_source, Source};
use linetools::text::{aligned_number, decimal_string, pad_left_string};

fn strings(v: &[&str]) -> Vec<String> {
    v.iter().map(|s| s.to_string()).collect()
}

fn config(number_lines: bool, number_nonblank_lines: bool) -> Config {
    Config::new(vec!["-".to_string()], number_lines, number_nonblank_lines)
}

#[test]
fn plain_lines_are_verbatim() {
    let lines = strings(&["hello", "", "  ", "world\t"]);
    assert_eq!(config(false, false).render_source(&lines), lines);
}

#[test]
fn number_all_counts_every_line() {
    let lines = strings(&["a", "", "b"]);
    let out = config(true, false).render_source(&lines);
    assert_eq!(out, strings(&["     1\ta", "     2\t", "     3\tb"]));
}

#[test]
fn number_all_wins_over_nonblank() {
    let lines = strings(&["", "x"]);
    let out = config(true, true).render_source(&lines);
    assert_eq!(out, strings(&["     1\t", "     2\tx"]));
}

#[test]
fn number_nonblank_skips_empty_lines() {
    let lines = strings(&["", "a", "", "", "b", " "]);
    let out = config(false, true).render_source(&lines);
    assert_eq!(out, strings(&["", "     1\ta", "", "", "     2\tb", "     3\t "]));
}

#[test]
fn empty_source_prints_nothing() {
    let lines: Vec<String> = Vec::new();
    assert!(config(true, false).render_source(&lines).is_empty());
    assert!(config(false, true).render_source(&lines).is_empty());
    assert!(config(false, false).render_source(&lines).is_empty());
}

#[test]
fn counter_restarts_for_each_source() {
    let cfg = config(true, false);
    let first = cfg.render_source(&strings(&["a", "b"]));
    let second = cfg.render_source(&strings(&["c"]));
    assert_eq!(first, strings(&["     1\ta", "     2\tb"]));
    assert_eq!(second, strings(&["     1\tc"]));
}

#[test]
fn wide_numbers_are_not_cut() {
    let cfg = config(true, false);
    assert_eq!(cfg.format_line(1234567, "x"), "1234567\tx");
    assert_eq!(cfg.format_line(123456, "x"), "123456\tx");
    assert_eq!(cfg.format_line(42, ""), "    42\t");
}

#[test]
fn format_line_leaves_unnumbered_lines() {
    let cfg = config(false, true);
    assert_eq!(cfg.format_line(9, ""), "");
    assert!(!cfg.numbers_line(""));
    assert!(cfg.numbers_line(" "));
    assert_eq!(cfg.format_line(9, "z"), "     9\tz");
}

#[test]
fn missing_file_is_reported_and_the_next_is_printed() {
    let message = open_failure_message("nope.txt", "No such file or directory (os error 2)");
    assert_eq!(message, "Failed to open nope.txt: No such file or directory (os error 2)");
    let out = config(false, false).render_source(&strings(&["still", "here"]));
    assert_eq!(out, strings(&["still", "here"]));
}

#[test]
fn dash_means_standard_input() {
    assert!(matches!(resolve_source(&"-".to_string()), Source::Stdin));
    match resolve_source(&"notes.txt".to_string()) {
        Source::Path(p) => assert_eq!(p, "notes.txt"),
        Source::Stdin => panic!("a path was taken for standard input"),
    }
    assert!(matches!(resolve_source(&"--".to_string()), Source::Path(_)));
}

#[test]
fn decimal_and_alignment() {
    assert_eq!(decimal_string(0), "0");
    assert_eq!(decimal_string(907), "907");
    assert_eq!(decimal_string(u64::MAX), u64::MAX.to_string());
    assert_eq!(aligned_number(42, 4), "  42");
    assert_eq!(aligned_number(12345, 4), "12345");
    assert_eq!(pad_left_string("ab", 5), "   ab");
    assert_eq!(pad_left_string("", 0), "");
}
