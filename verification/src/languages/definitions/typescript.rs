//! TypeScript language rules.

use vstd::prelude::*;
use crate::config::thresholds::{Thresholds, spec_default_thresholds};
use crate::languages::{Language, LanguageSpec, strs_view};

verus! {

pub struct TypeScript;

impl Language for TypeScript {
    open spec fn rules(&self) -> LanguageSpec {
        LanguageSpec {
            name: "TypeScript"@,
            extensions: seq!["ts"@, "tsx"@],
            line_comment: Some("//"@),
            block_comment: Some(("/*"@, "*/"@)),
            import_keywords: seq!["import"@, "require("@],
            function_keywords: seq!["function "@, "async function "@],
            indent_size: 4,
            thresholds: spec_default_thresholds(),
        }
    }

    fn name(&self) -> (r: &'static str) {
        "TypeScript"
    }

    fn extensions(&self) -> (r: &'static [&'static str]) {
        let r: &'static [&'static str] = &["ts", "tsx"];
        proof {
            assert(strs_view(r@) =~= seq!["ts"@, "tsx"@]);
        }
        r
    }

    fn line_comment(&self) -> (r: Option<&'static str>) {
        Some("//")
    }

    fn block_comment(&self) -> (r: Option<(&'static str, &'static str)>) {
        Some(("/*", "*/"))
    }

    fn import_keywords(&self) -> (r: &'static [&'static str]) {
        let r: &'static [&'static str] = &["import", "require("];
        proof {
            assert(strs_view(r@) =~= seq!["import"@, "require("@]);
        }
        r
    }

    fn indent_size(&self) -> (r: usize) {
        4
    }

    fn default_thresholds(&self) -> (r: Thresholds) {
        Thresholds::default()
    }

    fn function_keywords(&self) -> (r: &'static [&'static str]) {
        let r: &'static [&'static str] = &["function ", "async function "];
        proof {
            assert(strs_view(r@) =~= seq!["function "@, "async function "@]);
        }
        r
    }
}

} // verus!
