//! C and C++ language rules.

use vstd::prelude::*;
use crate::config::thresholds::{Thresholds, spec_default_thresholds};
use crate::languages::{Language, LanguageSpec, strs_view};

verus! {

pub struct Cpp;

impl Language for Cpp {
    open spec fn rules(&self) -> LanguageSpec {
        LanguageSpec {
            name: "C/C++"@,
            extensions: seq!["c"@, "cpp"@, "h"@, "hpp"@, "cc"@, "cxx"@, "hh"@, "hxx"@],
            line_comment: Some("//"@),
            block_comment: Some(("/*"@, "*/"@)),
            import_keywords: seq!["#include"@],
            function_keywords: seq![],
            indent_size: 4,
            thresholds: spec_default_thresholds(),
        }
    }

    fn name(&self) -> (r: &'static str) {
        "C/C++"
    }

    fn extensions(&self) -> (r: &'static [&'static str]) {
        let r: &'static [&'static str] = &["c", "cpp", "h", "hpp", "cc", "cxx", "hh", "hxx"];
        proof {
            assert(strs_view(r@) =~= seq!["c"@, "cpp"@, "h"@, "hpp"@, "cc"@, "cxx"@, "hh"@, "hxx"@]);
        }
        r
    }

    fn line_comment(&self) -> (r: Option<&'static str>) {
        Some("//")
    }

    fn block_comment(&self) -> (r: Option<(&'static str, &'static str)>) {
        Some(("/*", "*/"))
    }

    fn import_keywords(&self) -> (r: &'static [&'static str]) {
        let r: &'static [&'static str] = &["#include"];
        proof {
            assert(strs_view(r@) =~= seq!["#include"@]);
        }
        r
    }

    fn indent_size(&self) -> (r: usize) {
        4
    }

    fn default_thresholds(&self) -> (r: Thresholds) {
        Thresholds::default()
    }

    fn function_keywords(&self) -> (r: &'static [&'static str]) {
        let r: &'static [&'static str] = &[];
        proof {
            assert(strs_view(r@) =~= seq![]);
        }
        r
    }
}

} // verus!
