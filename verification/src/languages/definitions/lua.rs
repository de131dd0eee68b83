//! Lua language rules.

use vstd::prelude::*;
use crate::config::thresholds::{Thresholds, spec_default_thresholds};
use crate::languages::{Language, LanguageSpec, strs_view};

verus! {

pub struct Lua;

impl Language for Lua {
    open spec fn rules(&self) -> LanguageSpec {
        LanguageSpec {
            name: "Lua"@,
            extensions: seq!["lua"@],
            line_comment: Some("--"@),
            block_comment: Some(("--[["@, "]]"@)),
            import_keywords: seq!["require("@, "require \""@],
            function_keywords: seq!["function "@, "local function "@],
            indent_size: 4,
            thresholds: spec_default_thresholds(),
        }
    }

    fn name(&self) -> (r: &'static str) {
        "Lua"
    }

    fn extensions(&self) -> (r: &'static [&'static str]) {
        let r: &'static [&'static str] = &["lua"];
        proof {
            assert(strs_view(r@) =~= seq!["lua"@]);
        }
        r
    }

    fn line_comment(&self) -> (r: Option<&'static str>) {
        Some("--")
    }

    fn block_comment(&self) -> (r: Option<(&'static str, &'static str)>) {
        Some(("--[[", "]]"))
    }

    fn import_keywords(&self) -> (r: &'static [&'static str]) {
        let r: &'static [&'static str] = &["require(", "require \""];
        proof {
            assert(strs_view(r@) =~= seq!["require("@, "require \""@]);
        }
        r
    }

    fn indent_size(&self) -> (r: usize) {
        4
    }

    fn default_thresholds(&self) -> (r: Thresholds) {
        Thresholds::default()
    }

    fn function_keywords(&self) -> (r: &'static [&'static str]) {
        let r: &'static [&'static str] = &["function ", "local function "];
        proof {
            assert(strs_view(r@) =~= seq!["function "@, "local function "@]);
        }
        r
    }
}

} // verus!
