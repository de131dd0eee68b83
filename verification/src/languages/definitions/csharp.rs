//! C# language rules.

use vstd::prelude::*;
use crate::config::thresholds::{Thresholds, spec_default_thresholds};
use crate::languages::{Language, LanguageSpec, strs_view};

verus! {

pub struct CSharp;

impl Language for CSharp {
    open spec fn rules(&self) -> LanguageSpec {
        LanguageSpec {
            name: "C#"@,
            extensions: seq!["cs"@],
            line_comment: Some("//"@),
            block_comment: Some(("/*"@, "*/"@)),
            import_keywords: seq!["using "@],
            function_keywords: seq!["public "@, "private "@, "protected "@, "static "@, "void "@, "internal "@, "async "@, "override "@],
            indent_size: 4,
            thresholds: Thresholds { max_lines: 500, max_imports: 30, ..spec_default_thresholds() },
        }
    }

    fn name(&self) -> (r: &'static str) {
        "C#"
    }

    fn extensions(&self) -> (r: &'static [&'static str]) {
        let r: &'static [&'static str] = &["cs"];
        proof {
            assert(strs_view(r@) =~= seq!["cs"@]);
        }
        r
    }

    fn line_comment(&self) -> (r: Option<&'static str>) {
        Some("//")
    }

    fn block_comment(&self) -> (r: Option<(&'static str, &'static str)>) {
        Some(("/*", "*/"))
    }

    fn import_keywords(&self) -> (r: &'static [&'static str]) {
        let r: &'static [&'static str] = &["using "];
        proof {
            assert(strs_view(r@) =~= seq!["using "@]);
        }
        r
    }

    fn indent_size(&self) -> (r: usize) {
        4
    }

    fn default_thresholds(&self) -> (r: Thresholds) {
        let d = Thresholds::default();
        Thresholds { max_lines: 500, max_imports: 30, ..d }
    }

    fn function_keywords(&self) -> (r: &'static [&'static str]) {
        let r: &'static [&'static str] = &["public ", "private ", "protected ", "static ", "void ", "internal ", "async ", "override "];
        proof {
            assert(strs_view(r@) =~= seq!["public "@, "private "@, "protected "@, "static "@, "void "@, "internal "@, "async "@, "override "@]);
        }
        r
    }
}

} // verus!
