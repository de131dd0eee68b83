//! Python language rules.

use vstd::prelude::*;
use crate::config::thresholds::{Thresholds, spec_default_thresholds};
use crate::languages::{Language, LanguageSpec, strs_view};

verus! {

pub struct Python;

impl Language for Python {
    open spec fn rules(&self) -> LanguageSpec {
        LanguageSpec {
            name: "Python"@,
            extensions: seq!["py"@],
            line_comment: Some("#"@),
            block_comment: None,
            import_keywords: seq!["import "@, "from "@],
            function_keywords: seq!["def "@, "async def "@],
            indent_size: 4,
            thresholds: Thresholds { max_lines: 400, max_imports: 30, ..spec_default_thresholds() },
        }
    }

    fn name(&self) -> (r: &'static str) {
        "Python"
    }

    fn extensions(&self) -> (r: &'static [&'static str]) {
        let r: &'static [&'static str] = &["py"];
        proof {
            assert(strs_view(r@) =~= seq!["py"@]);
        }
        r
    }

    fn line_comment(&self) -> (r: Option<&'static str>) {
        Some("#")
    }

    fn block_comment(&self) -> (r: Option<(&'static str, &'static str)>) {
        None
    }

    fn import_keywords(&self) -> (r: &'static [&'static str]) {
        let r: &'static [&'static str] = &["import ", "from "];
        proof {
            assert(strs_view(r@) =~= seq!["import "@, "from "@]);
        }
        r
    }

    fn indent_size(&self) -> (r: usize) {
        4
    }

    fn default_thresholds(&self) -> (r: Thresholds) {
        let d = Thresholds::default();
        Thresholds { max_lines: 400, max_imports: 30, ..d }
    }

    fn function_keywords(&self) -> (r: &'static [&'static str]) {
        let r: &'static [&'static str] = &["def ", "async def "];
        proof {
            assert(strs_view(r@) =~= seq!["def "@, "async def "@]);
        }
        r
    }
}

} // verus!
