use linetools::uniqr::{collapse, collapse_runs, input_failure_message, render_run, same_run, Config, Run, RunState};

fn strings(v: &[&str]) -> Vec<String> {
    v.iter().map(|s| s.to_string()).collect()
}

#[test]
fn repeated_lines_collapse() {
    let lines = strings(&["a\n", "a\n", "b\n", "a\n"]);
    assert_eq!(collapse(&lines, false), strings(&["a\n", "b\n", "a\n"]));
    assert_eq!(collapse(&lines, true), strings(&["   2 a\n", "   1 b\n", "   1 a\n"]));
}

#[test]
fn empty_input_gives_nothing() {
    let lines: Vec<String> = Vec::new();
    assert!(collapse(&lines, false).is_empty());
    assert!(collapse(&lines, true).is_empty());
    assert!(RunState::new().finish().is_none());
}

#[test]
fn last_line_without_newline_is_kept() {
    assert_eq!(collapse(&strings(&["x"]), false), strings(&["x"]));
    assert_eq!(collapse(&strings(&["x\n", "x"]), true), strings(&["   2 x\n"]));
}

#[test]
fn trailing_whitespace_joins_the_run_and_first_text_wins() {
    let lines = strings(&["a \n", "a\n", "a\t\n", "b\n"]);
    assert_eq!(collapse(&lines, true), strings(&["   3 a \n", "   1 b\n"]));
}

#[test]
fn leading_blank_lines_form_their_own_run() {
    let lines = strings(&["\n", "\n", "x\n"]);
    assert_eq!(collapse(&lines, true), strings(&["   2 \n", "   1 x\n"]));
}

#[test]
fn leading_whitespace_matters() {
    assert!(!same_run(" a\n", "a\n"));
    assert!(same_run("a  \n", "a"));
    assert!(same_run("a \n", "a\n"));
    assert!(!same_run("a\n", "b\n"));
}

#[test]
fn runs_rebuild_the_input() {
    let lines = strings(&["x\n", "x\n", "y\n", "z\n", "z\n", "w"]);
    let runs = collapse_runs(&lines);
    let mut rebuilt = String::new();
    for run in &runs {
        for _ in 0..run.count {
            rebuilt.push_str(&run.text);
        }
    }
    assert_eq!(rebuilt, lines.concat());
    let total: u64 = runs.iter().map(|r| r.count).sum();
    assert_eq!(total, lines.len() as u64);
}

#[test]
fn rebuild_differs_when_run_lines_differ_in_trailing_whitespace() {
    let lines = strings(&["z\n", "z"]);
    let runs = collapse_runs(&lines);
    assert_eq!(runs.len(), 1);
    assert_eq!(runs[0].text, "z\n");
    assert_eq!(runs[0].count, 2);
}

#[test]
fn collapsing_twice_changes_nothing() {
    for input in [
        strings(&["a\n", "a\n", "b\n", "a\n"]),
        strings(&["a \n", "a\n", "b\n", "b \n", "c"]),
        strings(&["\n", " \n", "q\n"]),
    ] {
        let once = collapse(&input, false);
        let twice = collapse(&once, false);
        assert_eq!(once, twice);
    }
}

#[test]
fn step_by_step_matches_batch() {
    let lines = strings(&["p\n", "p \n", "q\n"]);
    let mut state = RunState::new();
    let mut out = Vec::new();
    for line in &lines {
        let (next, done) = state.step(line.clone());
        if let Some(run) = done {
            out.push(render_run(&run, true));
        }
        state = next;
    }
    if let Some(run) = state.finish() {
        out.push(render_run(&run, true));
    }
    assert_eq!(out, collapse(&lines, true));
    assert_eq!(out, strings(&["   2 p\n", "   1 q\n"]));
}

#[test]
fn render_run_formats() {
    let run = Run { text: "hi\n".to_string(), count: 12345 };
    assert_eq!(render_run(&run, true), "12345 hi\n");
    assert_eq!(render_run(&run, false), "hi\n");
}

#[test]
fn config_and_messages() {
    let cfg = Config::new("in.txt".to_string(), None, true);
    assert_eq!(cfg.in_file, "in.txt");
    assert!(cfg.out_file.is_none());
    assert!(cfg.count);
    assert_eq!(input_failure_message("in.txt", "denied"), "in.txt: denied");
}
