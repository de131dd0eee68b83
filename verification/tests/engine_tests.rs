use swt::analyzer::duplicates::{duplicates_in_bounds, inspect_duplicates};
use swt::analyzer::engine::{
    add_global_duplicates, chunk_occurrences, global_duplicated_count, inspect_report, report_order,
    ReportRank,
};
use swt::analyzer::ignore::DisabledRules;
use swt::analyzer::scanner::scan;
use swt::analyzer::{analyze_content, collect_issues, count_duplicated_lines, RawMetrics};
use swt::config::thresholds::{RuleSeverities, Severity, Thresholds};
use swt::config::Config;
use swt::diagnostics::match_rule;
use swt::report::{is_sweet, RepetitionDetail};

fn abab_hashes() -> Vec<(usize, u64)> {
    vec![(1, 11), (2, 22), (3, 11), (4, 22)]
}

#[test]
fn scan_counts_lines_imports_and_depth() {
    let content = b"use a;\nuse b;\nfn f() {\n    if x {\n        y();\n    }\n}\n";
    let r = scan(content, "rs", 1, 4);
    assert_eq!(r.lines, 7);
    assert_eq!(r.imports, 2);
    assert_eq!(r.max_depth, 2);
    assert_eq!(r.deep_lines, vec![(5, 2)]);
    assert_eq!(r.hashes.len(), 7);
}

#[test]
fn scan_skips_comments_when_hashing() {
    let r = scan(b"// only a comment\nx();\n", "rs", 6, 4);
    assert_eq!(r.lines, 2);
    assert_eq!(r.hashes.len(), 1);
    assert_eq!(r.hashes[0].0, 2);
}

#[test]
fn duplicated_lines_follow_repeated_windows() {
    assert_eq!(count_duplicated_lines(&abab_hashes(), 2), 4);
    assert_eq!(count_duplicated_lines(&abab_hashes(), 5), 0);
    assert_eq!(count_duplicated_lines(&[(1, 1), (2, 2), (3, 3)], 2), 0);
}

#[test]
fn analyze_content_measures_and_inspects() {
    let content = b"a();\nb();\na();\nb();\n";
    let t = Thresholds { min_duplicate_lines: 2, ..Thresholds::default() };
    let r = analyze_content(content, "rs", &t, "f.rs", &DisabledRules::new(), true);
    assert_eq!(r.lines, 4);
    assert_eq!(r.imports, 0);
    assert_eq!(r.max_depth, 0);
    assert_eq!(r.hashes.len(), 4);
    assert_eq!(r.duplicated_lines, 4);
    assert!(r.duplicated_lines <= r.lines);
    assert_eq!(r.duplicates.len(), 1);
    assert_eq!(r.duplicates[0].line, 1);
    assert_eq!(r.duplicates[0].content, "a();\nb();");
    assert_eq!(r.duplicates[0].occurrences, vec![("f.rs".to_string(), 3)]);
}

#[test]
fn analyze_content_honours_disabled_rules() {
    let content = b"fn f() {\n    if x {\n        y();\n    }\n}\na();\nb();\na();\nb();\n";
    let t = Thresholds { max_depth: 1, min_duplicate_lines: 2, ..Thresholds::default() };
    let all = analyze_content(content, "rs", &t, "f.rs", &DisabledRules::new(), true);
    assert_eq!(all.deep_lines, vec![(3, 2)]);
    assert!(!all.duplicates.is_empty());
    let mut disabled = DisabledRules::new();
    disabled.insert("max-depth".to_string());
    disabled.insert("max-repetition".to_string());
    let r = analyze_content(content, "rs", &t, "f.rs", &disabled, true);
    assert!(r.deep_lines.is_empty());
    assert!(r.duplicates.is_empty());
    assert_eq!(r.max_depth, 2);
    let quiet = analyze_content(content, "rs", &t, "f.rs", &DisabledRules::new(), false);
    assert!(quiet.duplicates.is_empty());
}

#[test]
fn inspection_bounds() {
    assert!(!duplicates_in_bounds(&vec![(1, 5), (2, 5)], 0));
    assert!(duplicates_in_bounds(&vec![(1, 5), (2, 5)], 1));
    assert!(duplicates_in_bounds(&vec![(1, 5), (2, 6)], 2));
}

#[test]
fn inspect_duplicates_of_invalid_text_finds_nothing() {
    let d = inspect_duplicates(&abab_hashes(), &[0xff, 0xfe, 0x0a], 2, "f.rs");
    assert!(d.is_empty());
}

#[test]
fn chunk_occurrences_record_each_window() {
    let r = chunk_occurrences(&abab_hashes(), 2);
    assert_eq!(r.len(), 3);
    assert_eq!(r[0].0, r[2].0);
    assert_ne!(r[0].0, r[1].0);
    let lines: Vec<usize> = r.iter().map(|(_, l)| *l).collect();
    assert_eq!(lines, vec![1, 2, 3]);
    assert!(chunk_occurrences(&abab_hashes(), 9).is_empty());
}

#[test]
fn global_duplicated_counts() {
    let global = vec![
        (7u64, vec![("a.rs".to_string(), 2), ("b.rs".to_string(), 5)]),
        (8u64, vec![("a.rs".to_string(), 10)]),
    ];
    assert_eq!(global_duplicated_count(&global, "a.rs", 3), Some(3));
    assert_eq!(global_duplicated_count(&global, "b.rs", 3), Some(3));
    assert_eq!(global_duplicated_count(&global, "c.rs", 3), None);
    let overlapping = vec![(1u64, vec![("a.rs".to_string(), 2), ("a.rs".to_string(), 3)])];
    assert_eq!(global_duplicated_count(&overlapping, "a.rs", 3), Some(4));
}

#[test]
fn global_duplicates_are_added_once_per_line() {
    let global = vec![
        (9u64, vec![("a.rs".to_string(), 2), ("b.rs".to_string(), 4)]),
        (5u64, vec![("a.rs".to_string(), 2), ("a.rs".to_string(), 4)]),
    ];
    let mut dups: Vec<RepetitionDetail> = Vec::new();
    add_global_duplicates(&mut dups, &global, "a.rs", "l1\nl2\nl3\nl4\nl5\n", 2);
    assert_eq!(dups.len(), 1);
    assert_eq!(dups[0].line, 2);
    assert_eq!(dups[0].content, "l2\nl3");
    assert_eq!(dups[0].occurrences, vec![("b.rs".to_string(), 4)]);
}

#[test]
fn inspect_report_fills_only_empty_reports() {
    let content = b"a();\nb();\na();\nb();\n";
    let mut empty: Vec<RepetitionDetail> = Vec::new();
    inspect_report(&mut empty, &abab_hashes(), content, 2, "f.rs");
    assert_eq!(empty.len(), 1);
    assert_eq!(empty[0].line, 1);
    assert_eq!(empty[0].content, "a();\nb();");
    let mut full = vec![RepetitionDetail { content: "x".to_string(), line: 9, occurrences: Vec::new() }];
    inspect_report(&mut full, &abab_hashes(), content, 2, "f.rs");
    assert_eq!(full.len(), 1);
    assert_eq!(full[0].line, 9);
}

#[test]
fn reports_are_ordered_sweet_first_then_by_weight() {
    let keys = vec![
        ReportRank { sweet: false, issues: 2, lines: 10 },
        ReportRank { sweet: true, issues: 0, lines: 5 },
        ReportRank { sweet: false, issues: 2, lines: 30 },
        ReportRank { sweet: true, issues: 0, lines: 5 },
        ReportRank { sweet: false, issues: 3, lines: 1 },
    ];
    assert_eq!(report_order(&keys), vec![1, 3, 4, 2, 0]);
    assert!(report_order(&Vec::new()).is_empty());
}

fn metrics(lines: usize, imports: usize, depth: usize, repetition: Option<(&str, &str)>) -> RawMetrics {
    let repetition_over_limit = repetition.map(|(p, m)| (p.to_string(), m.to_string()));
    RawMetrics { lines, imports, max_depth: depth, repetition_over_limit }
}

#[test]
fn issues_report_each_broken_limit() {
    let config = Config::default();
    let t = Thresholds::default();
    let issues = collect_issues(
        metrics(500, 30, 7, Some(("20.0", "15.0"))),
        &t,
        &config,
        &DisabledRules::new(),
    );
    let messages: Vec<&str> = issues.iter().map(|i| i.message.as_str()).collect();
    assert_eq!(
        messages,
        vec![
            "File too long: 500 lines (max 400)",
            "Too many imports: 30 (max 25)",
            "Excessive nesting: 7 levels (max 6)",
            "High code repetition: 20.0% (max 15.0%)",
        ]
    );
    assert!(issues.iter().all(|i| i.severity == Severity::Error));
    assert!(!is_sweet(&issues));
    let rules: Vec<&str> = issues.iter().map(|i| match_rule(&i.message)).collect();
    assert_eq!(rules, vec!["max-lines", "max-imports", "max-depth", "max-repetition"]);
}

#[test]
fn limits_are_not_broken_at_equality() {
    let issues = collect_issues(metrics(400, 25, 6, None), &Thresholds::default(), &Config::default(), &DisabledRules::new());
    assert!(issues.is_empty());
    assert!(is_sweet(&issues));
}

#[test]
fn disabled_rules_raise_no_issue() {
    let mut disabled = DisabledRules::new();
    disabled.insert("max-lines".to_string());
    disabled.insert("max-repetition".to_string());
    let issues = collect_issues(
        metrics(900, 1, 1, Some(("30.0", "15.0"))),
        &Thresholds::default(),
        &Config::default(),
        &disabled,
    );
    assert!(issues.is_empty());
}

#[test]
fn warnings_keep_a_file_sweet() {
    let mut config = Config::default();
    config.thresholds.severities = RuleSeverities {
        max_lines: Some(Severity::Warning),
        max_depth: Some(Severity::Warning),
        max_imports: Some(Severity::Warning),
        max_repetition: Some(Severity::Warning),
    };
    let issues = collect_issues(metrics(900, 90, 9, None), &Thresholds::default(), &config, &DisabledRules::new());
    assert_eq!(issues.len(), 3);
    assert!(is_sweet(&issues));
}

#[test]
fn a_run_fails_exactly_when_a_file_is_bitter() {
    assert_eq!(swt::report::bitter_count(&vec![true, false, true, false]), 2);
    assert_eq!(swt::report::bitter_count(&vec![true, true]), 0);
    assert_eq!(swt::report::bitter_count(&Vec::new()), 0);
}

#[test]
fn scan_counts_the_lines_of_the_text() {
    for text in ["a\n  b // c\n/* x\ny */\n\n", "", "\n", "x", "  \n\t", "-- a\nlocal b = 1\n"] {
        for ext in ["rs", "py", "lua", "txt"] {
            assert_eq!(scan(text.as_bytes(), ext, 6, 4).lines, swt::analyzer::volume::count_lines(text));
        }
    }
    // An escaped line break inside a string does not end a line for the scanner.
    let escaped = "s = \"a\\\nb\"";
    assert_eq!(scan(escaped.as_bytes(), "rs", 6, 4).lines, 1);
    assert_eq!(swt::analyzer::volume::count_lines(escaped), 2);
}
