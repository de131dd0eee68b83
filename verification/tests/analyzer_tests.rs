use std::collections::hash_map::DefaultHasher;
use std::hash::{Hash, Hasher};
use swt::analyzer::complexity::{analyze_depth, find_deep_lines};
use swt::analyzer::functions::count_functions;
use swt::analyzer::ignore::{get_disabled_rules, is_file_ignored, is_line_ignored};
use swt::analyzer::repetition::{analyze_repetition, get_chunks, trim_bytes};
use swt::analyzer::syntax::count_imports;
use swt::analyzer::volume::count_lines;
use swt::uncomment::{normalize_whitespace, remove_comments};

#[test]
fn test_depth_spaces() {
    let code = "fn main() {\n    if true {\n        println!();\n    }\n}";
    assert_eq!(analyze_depth(code, 4), 2);
}

#[test]
fn test_depth_tabs() {
    let code = "fn main() {\n\tif true {\n\t\tprintln!();\n\t}\n}";
    assert_eq!(analyze_depth(code, 4), 2);
}

#[test]
fn test_find_deep_lines() {
    let code = "fn main() {\n    if true {\n        if true {\n            println!();\n        }\n    }\n}";
    let deep = find_deep_lines(code, 4, 1);
    assert_eq!(deep.len(), 3);
    let deep_lines: Vec<usize> = deep.iter().map(|(l, _)| *l).collect();

    assert!(deep_lines.contains(&3));
    assert!(deep_lines.contains(&4));
    assert!(deep_lines.contains(&5));
}

#[test]
fn deep_lines_carry_their_depths() {
    let code = "a\n    b\n        c\n    d";
    assert_eq!(find_deep_lines(code, 4, 1), vec![(3, 2)]);
    assert_eq!(find_deep_lines(code, 4, 0), vec![(2, 1), (3, 2), (4, 1)]);
}

#[test]
fn no_line_is_deeper_than_the_deepest() {
    let code = "fn main() {\n    if true {\n        if true {\n            println!();\n        }\n    }\n}";
    let depth = analyze_depth(code, 4);
    assert_eq!(depth, 3);
    assert!(find_deep_lines(code, 4, depth).is_empty());
    assert!(!find_deep_lines(code, 4, depth - 1).is_empty());
}

#[test]
fn depth_of_empty_text_is_zero() {
    assert_eq!(analyze_depth("", 4), 0);
    assert!(find_deep_lines("", 4, 0).is_empty());
}

#[test]
fn test_rs_functions() {
    let code = "fn main() {}\nasync fn test() {}";
    assert_eq!(count_functions(code, "rs"), 2);
}

#[test]
fn functions_of_python_and_unknown_files() {
    assert_eq!(count_functions("def a():\n    pass\n  def b(): pass\nx = 1", "py"), 2);
    assert_eq!(count_functions("fn main() {}", "txt"), 0);
}

#[test]
fn test_is_file_ignored() {
    assert!(is_file_ignored(b"// @sweetignore\nfn main() {}"));
    assert!(!is_file_ignored(b"fn main() {}"));
}

#[test]
fn ignore_marker_only_counts_in_the_first_ten_lines() {
    let mut late = String::new();
    for _ in 0..10 {
        late.push_str("x\n");
    }
    late.push_str("// @sweetignore\n");
    assert!(!is_file_ignored(late.as_bytes()));
    let mut early = String::new();
    for _ in 0..9 {
        early.push_str("x\n");
    }
    early.push_str("# @sweetignore\n");
    assert!(is_file_ignored(early.as_bytes()));
}

#[test]
fn line_ignore_marker() {
    assert!(is_line_ignored("let x = 1; // @sweetignore"));
    assert!(!is_line_ignored("let x = 1;"));
}

#[test]
fn test_get_disabled_rules() {
    let content = b"// @swt-disable max-lines max-depth\nfn main() {}";
    let disabled = get_disabled_rules(content);
    assert!(disabled.contains("max-lines"));
    assert!(disabled.contains("max-depth"));
    assert!(!disabled.contains("max-imports"));
}

#[test]
fn disabled_rules_are_lowercased_and_limited_to_twenty_lines() {
    let disabled = get_disabled_rules(b"# @SWT-DISABLE MAX-Lines\n");
    assert!(disabled.contains("max-lines"));
    let mut late = String::new();
    for _ in 0..20 {
        late.push_str("x\n");
    }
    late.push_str("// @swt-disable max-imports\n");
    assert!(!get_disabled_rules(late.as_bytes()).contains("max-imports"));
}

#[test]
fn test_rs_imports() {
    let code = "use std::io;\nuse crate::analyzer;\nfn main() {}";
    assert_eq!(count_imports(code, "rs"), 2);
}

#[test]
fn test_py_imports() {
    let code = "import os\nfrom sys import path\nprint('hello')";
    assert_eq!(count_imports(code, "py"), 2);
}

#[test]
fn test_java_ts_imports() {
    let code = "import React from 'react';\nimport { useState } from 'react';";
    assert_eq!(count_imports(code, "ts"), 2);
}

#[test]
fn imports_of_unknown_extension() {
    assert_eq!(count_imports("use std::io;", "txt"), 0);
}

fn check(code: &str, expected: &str, aggressive: bool) {
    assert_eq!(remove_comments(code, "rs", aggressive), expected);
}

#[test]
fn test_uncommenting() {
    check(
        "fn main() {\n    // comment\n    /* block */\n    let x = 5;\n}",
        "fn main() {\n\n    let x = 5;\n}",
        true,
    );
    check("/// doc\nfn main() {}", "/// doc\nfn main() {}", false);
    check("/// doc\nfn main() {}", "fn main() {}", true);
    check(
        "let s = \"http://example.com\";",
        "let s = \"http://example.com\";",
        true,
    );
}

#[test]
fn uncommenting_an_unknown_language_keeps_the_text() {
    assert_eq!(remove_comments("a // b", "txt", true), "a // b");
}

#[test]
fn test_count_lines() {
    assert_eq!(count_lines("line1\nline2\nline3"), 3);
}

#[test]
fn test_count_empty() {
    assert_eq!(count_lines(""), 0);
}

#[test]
fn count_lines_ignores_a_final_newline() {
    assert_eq!(count_lines("a\nb\n"), 2);
    assert_eq!(count_lines("\n\n"), 2);
}

#[test]
fn test_repetition() {
    let content = b"a\nb\nc\na\nb\nc\nd";
    let res = analyze_repetition(content, 3);
    let percentage = res.duplicated_lines as f64 / res.line_count as f64 * 100.0;
    assert!(percentage > 0.0);
    assert_eq!(res.hashes.len(), 7);
}

#[test]
fn repetition_counts_covered_positions() {
    let res = analyze_repetition(b"a\nb\nc\na\nb\nc\nd", 3);
    assert_eq!(res.line_count, 7);
    assert_eq!(res.duplicated_lines, 6);
    let none = analyze_repetition(b"a\nb\nc", 3);
    assert_eq!(none.duplicated_lines, 0);
    let empty = analyze_repetition(b"", 3);
    assert_eq!(empty.line_count, 0);
    assert!(empty.hashes.is_empty());
}

#[test]
fn repeated_lines_hash_alike_after_trimming() {
    let res = analyze_repetition(b"  x  \nx\ny", 1);
    assert_eq!(res.hashes[0], res.hashes[1]);
    assert_ne!(res.hashes[0], res.hashes[2]);
}

#[test]
fn chunks_group_equal_windows() {
    let hashes = vec![1u64, 2, 1, 2];
    let chunks = get_chunks(&hashes, 2);
    assert_eq!(chunks.len(), 2);
    let mut positions: Vec<Vec<usize>> = chunks.values().cloned().collect();
    positions.sort();
    assert_eq!(positions, vec![vec![1, 3], vec![2]]);
    assert!(get_chunks(&hashes, 5).is_empty());
}

#[test]
fn trim_bytes_strips_ascii_whitespace() {
    assert_eq!(trim_bytes(b" \t ab c \r\n"), b"ab c");
    assert_eq!(trim_bytes(b"   "), b"");
}

#[test]
fn go_imports_count_block_members() {
    let code = "package main\n\nimport (\n    \"fmt\"\n    // a comment\n    \"os\"\n)\n\nimport \"io\"\nfunc main() {}";
    assert_eq!(count_imports(code, "go"), 3);
    assert_eq!(swt::languages::definitions::go::Go.count_imports(code), 3);
    assert_eq!(count_functions(code, "go"), 1);
}

#[test]
fn php_files_are_measured() {
    let code = "<?php\nuse App\\Model;\nrequire_once 'x.php';\nfunction f() {}\npublic function g() {}";
    assert_eq!(count_imports(code, "php"), 2);
    assert_eq!(count_functions(code, "php"), 2);
}

#[test]
fn gdscript_preload_counts_anywhere_in_a_line() {
    let code = "extends Node\nvar s = preload(\"res://a.gd\")\nconst B = preload(\"res://b.gd\")";
    assert_eq!(count_imports(code, "gd"), 3);
}

#[test]
fn a_tab_and_a_run_of_spaces_are_two_levels() {
    assert_eq!(analyze_depth("\t    x", 4), 2);
    assert_eq!(analyze_depth("\t\t  x", 4), 2);
    assert_eq!(analyze_depth("  \tx", 4), 1);
    assert_eq!(find_deep_lines("a\n\t    b", 4, 1), vec![(2, 2)]);
}

#[test]
fn a_disable_comment_disables_its_rule() {
    assert!(get_disabled_rules(b"// @swt-disable max-lines").contains("max-lines"));
    assert!(get_disabled_rules(b"-- @swt-disable max-depth\nlocal x = 1").contains("max-depth"));
    assert!(get_disabled_rules(b"# @swt-disable MAX-Imports").contains("max-imports"));
}

#[test]
fn line_hashes_are_those_of_byte_slices() {
    let mut h = DefaultHasher::new();
    b"abc"[..].hash(&mut h);
    let res = analyze_repetition(b"  abc  \nx", 1);
    assert_eq!(res.hashes[0], h.finish());
    assert_eq!(swt::analyzer::repetition::hash_bytes(b"abc"), h.finish());
}

#[test]
fn window_keys_are_hashes_of_hash_slices() {
    let hashes = [5u64, 6, 5, 6];
    let mut h = DefaultHasher::new();
    hashes[0..2].hash(&mut h);
    let key = h.finish();
    let chunks = get_chunks(&hashes, 2);
    assert_eq!(chunks.get(&key), Some(&vec![1, 3]));
}

#[test]
fn functions_never_outnumber_lines() {
    let code = "fn a() {}\nfn b() {}\n\nfn c() {}";
    assert!(count_functions(code, "rs") <= count_lines(code));
    assert_eq!(count_functions(code, "rs"), 3);
    assert_eq!(count_functions(code, "unknown"), 0);
}

#[test]
fn line_and_file_ignore_checks_agree_on_one_line() {
    for line in ["x = 1 # @sweetignore", "plain", "caf\u{e9} @sweetignore", "@sweet ignore"] {
        assert_eq!(is_line_ignored(line), is_file_ignored(line.as_bytes()));
    }
    assert!(is_line_ignored("caf\u{e9} @sweetignore"));
    assert!(!is_line_ignored("@sweet ignore"));
}

#[test]
fn whitespace_normalization_is_stable() {
    let once = remove_comments("a  \n\n\n\nb\t\n", "rs", true);
    assert_eq!(once, "a\n\nb");
    assert_eq!(remove_comments(&once, "rs", true), once);
    let spaced = remove_comments("\n\n  x = 1 // one\n\n\n\n  y = 2  \n\n", "rs", false);
    assert_eq!(spaced, "x = 1\n\n  y = 2");
    assert_eq!(remove_comments(&spaced, "rs", false), spaced);
}

#[test]
fn a_doc_comment_can_meet_a_later_slash() {
    let once = remove_comments("///*x*/y", "rs", false);
    assert_eq!(once, "//y");
    assert_eq!(remove_comments(&once, "rs", false), "");
    assert_eq!(remove_comments("///*x*/y", "rs", true), "");
}

#[test]
fn normalizing_whitespace_twice_changes_nothing() {

    let once = normalize_whitespace("a  \n\n\n\nb\t\n");
    assert_eq!(once, "a\n\nb");
    assert_eq!(normalize_whitespace(&once), once);
}
