use cargo_refactor_lib::file::{outcome_of, parse_source, plan_output, read_failure, FileOutcome, FileResult, SourcePlan};
use cargo_refactor_lib::report::summarize_results;
use cargo_refactor_lib::rewriter::Warning;
use cargo_refactor_lib::text::{split_lines, summarize_changes, trim_str, white_space};

#[test]
fn lines_follow_str_lines() {
    for text in ["", "a", "a\n", "a\r\nb\r\n", "foo\r\nbar\n\nbaz\r", "\n", "\n\n", "x\ry\n"] {
        let expected: Vec<String> = text.lines().map(|l| l.to_string()).collect();
        assert_eq!(split_lines(text), expected, "{:?}", text);
    }
}

#[test]
fn trim_follows_str_trim() {
    for text in ["", "  a b  ", "\t\n x\u{3000}", "\u{a0}\u{2028}y\u{85}", "none"] {
        assert_eq!(trim_str(text), text.trim(), "{:?}", text);
    }
    for c in ['\u{b}', '\u{1680}', '\u{200a}', '\u{202f}', '\u{205f}', 'a', '\u{200b}'] {
        assert_eq!(white_space(c), c.is_whitespace(), "{:?}", c);
    }
}

#[test]
fn summary_of_changed_line() {
    let changes = summarize_changes("use a::Old;\nfn f() {}\n", "use a::New;\nfn f() {}\n");
    assert_eq!(changes, vec![format!("  {:<50} → {}", "use a::Old;", "use a::New;")]);
    assert_eq!(changes[0].chars().count(), 2 + 50 + 3 + "use a::New;".len());
}

#[test]
fn summary_of_added_and_removed_lines() {
    let changes = summarize_changes("a\nb\nz", "a\n  c\n  d\n e\nz");
    assert_eq!(
        changes,
        vec![format!("  {:<50} → {}", "b", "c"), "  + d".to_string(), "  + e".to_string()]
    );
    let removed = summarize_changes("a\nb\nc\nz", "a\nz");
    assert_eq!(removed, vec!["  - b".to_string(), "  - c".to_string()]);
}

#[test]
fn summary_of_same_text() {
    assert_eq!(summarize_changes("x\ny\n", "x\ny\n"), vec!["  (formatting changes only)".to_string()]);
    // lines that differ only in indentation count as unchanged
    assert_eq!(summarize_changes("x\n  y\n", "x\n    y\n"), vec!["  (formatting changes only)".to_string()]);
}

#[test]
fn long_line_is_not_cut() {
    let long = "x".repeat(60);
    let changes = summarize_changes(&long, "y");
    assert_eq!(changes, vec![format!("  {} → y", long)]);
}

#[test]
fn parse_source_reports_syn_error() {
    let err = parse_source("fn (").unwrap_err();
    let syn_msg = syn::parse_file("fn (").unwrap_err().to_string();
    assert_eq!(err, format!("syn parse error: {syn_msg}"));
    assert!(parse_source("fn main() {}").is_ok());
}

#[test]
fn plan_output_prints_new_text() {
    let source = "fn  foo( ) {}";
    let ast = parse_source(source).unwrap();
    assert_eq!(plan_output(source, &ast, false), SourcePlan::Unchanged);
    match plan_output(source, &ast, true) {
        SourcePlan::Rewrite { new_source, changes } => {
            assert_eq!(new_source, "fn foo() {}\n");
            assert_eq!(changes, vec![format!("  {:<50} → {}", "fn  foo( ) {}", "fn foo() {}")]);
        }
        SourcePlan::Unchanged => panic!("expected a rewrite"),
    }
}

#[test]
fn outcome_of_dry_run_does_not_modify() {
    let plan = SourcePlan::Rewrite { new_source: "x".to_string(), changes: vec!["c".to_string()] };
    assert_eq!(outcome_of(plan, true, None), FileOutcome::WouldModify { changes: vec!["c".to_string()] });
}

#[test]
fn outcome_of_write() {
    let plan = SourcePlan::Rewrite { new_source: "x".to_string(), changes: vec!["c".to_string()] };
    assert_eq!(outcome_of(plan, false, None), FileOutcome::Modified { changes: vec!["c".to_string()] });
    let plan = SourcePlan::Rewrite { new_source: "x".to_string(), changes: vec![] };
    assert_eq!(
        outcome_of(plan, false, Some("denied".to_string())),
        FileOutcome::Skipped { reason: "write error: denied".to_string() }
    );
    assert_eq!(outcome_of(SourcePlan::Unchanged, false, None), FileOutcome::Unchanged);
    assert_eq!(read_failure("gone"), FileOutcome::Skipped { reason: "read error: gone".to_string() });
}

#[test]
fn summary_counts() {
    let w = |m: &str| Warning { message: m.to_string() };
    let results = vec![
        FileResult { path: "a.rs".into(), outcome: FileOutcome::Modified { changes: vec![] }, warnings: vec![w("x")] },
        FileResult { path: "b.rs".into(), outcome: FileOutcome::WouldModify { changes: vec![] }, warnings: vec![] },
        FileResult { path: "c.rs".into(), outcome: FileOutcome::Unchanged, warnings: vec![w("y"), w("z")] },
        FileResult { path: "d.rs".into(), outcome: FileOutcome::Skipped { reason: "r".to_string() }, warnings: vec![] },
    ];
    let s = summarize_results(&results);
    assert_eq!((s.modified, s.warnings, s.skipped), (2, 3, 1));
}
