//! Java language rules.

use vstd::prelude::*;
use crate::config::thresholds::{Thresholds, spec_default_thresholds};
use crate::languages::{Language, LanguageSpec, strs_view};

verus! {

pub struct Java;

impl Language for Java {
    open spec fn rules(&self) -> LanguageSpec {
        LanguageSpec {
            name: "Java"@,
            extensions: seq!["java"@],
            line_comment: Some("//"@),
            block_comment: Some(("/*"@, "*/"@)),
            import_keywords: seq!["import "@],
            function_keywords: seq!["public "@, "private "@, "protected "@, "static "@, "void "@],
            indent_size: 4,
            thresholds: Thresholds { max_lines: 400, max_imports: 30, ..spec_default_thresholds() },
        }
    }

    fn name(&self) -> (r: &'static str) {
        "Java"
    }

    fn extensions(&self) -> (r: &'static [&'static str]) {
        let r: &'static [&'static str] = &["java"];
        proof {
            assert(strs_view(r@) =~= seq!["java"@]);
        }
        r
    }

    fn line_comment(&self) -> (r: Option<&'static str>) {
        Some("//")
    }

    fn block_comment(&self) -> (r: Option<(&'static str, &'static str)>) {
        Some(("/*", "*/"))
    }

    fn import_keywords(&self) -> (r: &'static [&'static str]) {
        let r: &'static [&'static str] = &["import "];
        proof {
            assert(strs_view(r@) =~= seq!["import "@]);
        }
        r
    }

    fn indent_size(&self) -> (r: usize) {
        4
    }

    fn default_thresholds(&self) -> (r: Thresholds) {
        let d = Thresholds::default();
        Thresholds { max_lines: 400, max_imports: 30, ..d }
    }

    fn function_keywords(&self) -> (r: &'static [&'static str]) {
        let r: &'static [&'static str] = &["public ", "private ", "protected ", "static ", "void "];
        proof {
            assert(strs_view(r@) =~= seq!["public "@, "private "@, "protected "@, "static "@, "void "@]);
        }
        r
    }
}

} // verus!
