use swt::analyzer::ignore::get_disabled_rules;
use swt::config::thresholds::{RuleSeverities, Severity};
use swt::diagnostics::{generate, match_rule, LineRange};
use swt::quick_fix::{code_actions, comment_for_extension};
use swt::report::{Issue, RepetitionDetail};

fn span(start: u32, end: u32) -> LineRange {
    LineRange { start_line: start, start_character: 0, end_line: end, end_character: 80 }
}

#[test]
fn rules_are_matched_by_message() {
    assert_eq!(match_rule("File too long: 500 lines (max 400)"), "max-lines");
    assert_eq!(match_rule("Too many imports: 30 (max 25)"), "max-imports");
    assert_eq!(match_rule("Excessive nesting: 7 levels (max 6)"), "max-depth");
    assert_eq!(match_rule("High code repetition: 20.0% (max 15.0%)"), "max-repetition");
    assert_eq!(match_rule("God functions"), "unknown");
}

#[test]
fn diagnostics_for_issues_deep_lines_and_duplicates() {
    let issues = vec![Issue { message: "File too long: 500 lines (max 400)".to_string(), severity: Severity::Error }];
    let deep = vec![(3usize, 7usize), (1, 8)];
    let dups = vec![RepetitionDetail {
        content: "a\nb\nc".to_string(),
        line: 10,
        occurrences: vec![("/p/x.rs".to_string(), 4)],
    }];
    let sev = RuleSeverities { max_depth: Some(Severity::Warning), ..Default::default() };
    let d = generate(&issues, &deep, &dups, &sev);
    assert_eq!(d.len(), 4);

    assert_eq!(d[0].range, span(0, 0));
    assert_eq!(d[0].severity, Severity::Error);
    assert_eq!(d[0].message, "\u{1f36c} Sweet: File too long: 500 lines (max 400)");
    assert_eq!(d[0].rule, "max-lines");
    assert!(d[0].related.is_none());

    assert_eq!(d[1].range, span(2, 2));
    assert_eq!(d[1].severity, Severity::Warning);
    assert_eq!(d[1].message, "\u{1f36c} Sweet: Excessive nesting depth: 7");
    assert_eq!(d[1].rule, "max-depth");
    assert_eq!(d[2].range, span(0, 0));

    assert_eq!(d[3].range, span(9, 11));
    assert_eq!(d[3].severity, Severity::Error);
    assert_eq!(d[3].message, "\u{1f36c} Sweet: Code duplication detected! (repeated in 1 other places)");
    assert_eq!(d[3].rule, "max-repetition");
    let related = d[3].related.as_ref().expect("related places");
    assert_eq!(related.len(), 1);
    assert_eq!(related[0].path, "/p/x.rs");
    assert_eq!(related[0].range, span(3, 3));
    assert_eq!(related[0].message, "Duplicate found here (line 4)");
}

#[test]
fn line_zero_stays_on_the_first_editor_line() {
    let dups = vec![RepetitionDetail { content: String::new(), line: 0, occurrences: Vec::new() }];
    let d = generate(&Vec::new(), &Vec::new(), &dups, &RuleSeverities::default());
    assert_eq!(d[0].range, span(0, 0));
    assert_eq!(d[0].message, "\u{1f36c} Sweet: Code duplication detected! (repeated in 0 other places)");
}

#[test]
fn comment_markers_follow_the_language() {
    assert_eq!(comment_for_extension("rs"), "//");
    assert_eq!(comment_for_extension("py"), "#");
    assert_eq!(comment_for_extension("gd"), "#");
    assert_eq!(comment_for_extension("txt"), "//");
}

#[test]
fn quick_fixes_for_known_rules() {
    let rules = vec![Some("max-lines".to_string()), None, Some("unknown".to_string()), Some("max-depth".to_string())];
    let actions = code_actions("py", &rules);
    assert_eq!(actions.len(), 2);
    assert_eq!(actions[0].diagnostic, 0);
    assert_eq!(actions[0].title, "\u{1f36c} Disable rule 'max-lines' for this file");
    assert_eq!(actions[0].new_text, "# @swt-disable max-lines\n");
    assert_eq!(actions[0].range, LineRange { start_line: 0, start_character: 0, end_line: 0, end_character: 0 });
    assert_eq!(actions[1].diagnostic, 3);
    assert_eq!(actions[1].new_text, "# @swt-disable max-depth\n");
}

#[test]
fn a_quick_fix_disables_its_rule() {
    let actions = code_actions("rs", &vec![Some("max-imports".to_string())]);
    let fixed = format!("{}use a;\nfn main() {{}}\n", actions[0].new_text);
    assert!(get_disabled_rules(fixed.as_bytes()).contains("max-imports"));
}

#[test]
fn plans_carry_source_and_kind() {
    let issues = vec![Issue { message: "Too many imports: 30 (max 25)".to_string(), severity: Severity::Error }];
    let d = generate(&issues, &vec![(2usize, 9usize)], &Vec::new(), &RuleSeverities::default());
    assert!(d.iter().all(|p| p.source == "sweet"));
    let actions = code_actions("lua", &vec![Some("max-depth".to_string())]);
    assert_eq!(actions[0].kind, "quickfix");
    assert_eq!(actions[0].new_text, "-- @swt-disable max-depth\n");
}
