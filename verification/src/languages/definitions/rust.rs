//! Rust language rules.

use vstd::prelude::*;
use crate::config::thresholds::{Thresholds, spec_default_thresholds};
use crate::languages::{Language, LanguageSpec, strs_view};

verus! {

pub struct Rust;

impl Language for Rust {
    open spec fn rules(&self) -> LanguageSpec {
        LanguageSpec {
            name: "Rust"@,
            extensions: seq!["rs"@],
            line_comment: Some("//"@),
            block_comment: Some(("/*"@, "*/"@)),
            import_keywords: seq!["use "@],
            function_keywords: seq!["fn "@, "pub fn "@, "pub(crate) fn "@, "async fn "@, "pub async fn "@],
            indent_size: 4,
            thresholds: spec_default_thresholds(),
        }
    }

    fn name(&self) -> (r: &'static str) {
        "Rust"
    }

    fn extensions(&self) -> (r: &'static [&'static str]) {
        let r: &'static [&'static str] = &["rs"];
        proof {
            assert(strs_view(r@) =~= seq!["rs"@]);
        }
        r
    }

    fn line_comment(&self) -> (r: Option<&'static str>) {
        Some("//")
    }

    fn block_comment(&self) -> (r: Option<(&'static str, &'static str)>) {
        Some(("/*", "*/"))
    }

    fn import_keywords(&self) -> (r: &'static [&'static str]) {
        let r: &'static [&'static str] = &["use "];
        proof {
            assert(strs_view(r@) =~= seq!["use "@]);
        }
        r
    }

    fn indent_size(&self) -> (r: usize) {
        4
    }

    fn default_thresholds(&self) -> (r: Thresholds) {
        Thresholds::default()
    }

    fn function_keywords(&self) -> (r: &'static [&'static str]) {
        let r: &'static [&'static str] = &["fn ", "pub fn ", "pub(crate) fn ", "async fn ", "pub async fn "];
        proof {
            assert(strs_view(r@) =~= seq!["fn "@, "pub fn "@, "pub(crate) fn "@, "async fn "@, "pub async fn "@]);
        }
        r
    }
}

} // verus!
