//! GDScript language rules.

use vstd::prelude::*;
use crate::config::thresholds::{Thresholds, spec_default_thresholds};
use crate::languages::{Language, LanguageSpec, strs_view};

verus! {

pub struct GDScript;

impl Language for GDScript {
    open spec fn rules(&self) -> LanguageSpec {
        LanguageSpec {
            name: "GDScript"@,
            extensions: seq!["gd"@],
            line_comment: Some("#"@),
            block_comment: None,
            import_keywords: seq!["extends"@, "preload("@, "load("@, "class_name"@],
            function_keywords: seq!["func "@, "static func "@],
            indent_size: 4,
            thresholds: Thresholds { max_lines: 400, max_depth: 7, ..spec_default_thresholds() },
        }
    }

    fn name(&self) -> (r: &'static str) {
        "GDScript"
    }

    fn extensions(&self) -> (r: &'static [&'static str]) {
        let r: &'static [&'static str] = &["gd"];
        proof {
            assert(strs_view(r@) =~= seq!["gd"@]);
        }
        r
    }

    fn line_comment(&self) -> (r: Option<&'static str>) {
        Some("#")
    }

    fn block_comment(&self) -> (r: Option<(&'static str, &'static str)>) {
        None
    }

    fn import_keywords(&self) -> (r: &'static [&'static str]) {
        let r: &'static [&'static str] = &["extends", "preload(", "load(", "class_name"];
        proof {
            assert(strs_view(r@) =~= seq!["extends"@, "preload("@, "load("@, "class_name"@]);
        }
        r
    }

    fn indent_size(&self) -> (r: usize) {
        4
    }

    fn default_thresholds(&self) -> (r: Thresholds) {
        let d = Thresholds::default();
        Thresholds { max_lines: 400, max_depth: 7, ..d }
    }

    fn function_keywords(&self) -> (r: &'static [&'static str]) {
        let r: &'static [&'static str] = &["func ", "static func "];
        proof {
            assert(strs_view(r@) =~= seq!["func "@, "static func "@]);
        }
        r
    }
}

} // verus!
