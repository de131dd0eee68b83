//! PHP language rules.

use vstd::prelude::*;
use crate::config::thresholds::{Thresholds, spec_default_thresholds};
use crate::languages::{Language, LanguageSpec, strs_view};

verus! {

pub struct PHP;

impl Language for PHP {
    open spec fn rules(&self) -> LanguageSpec {
        LanguageSpec {
            name: "PHP"@,
            extensions: seq!["php"@],
            line_comment: Some("//"@),
            block_comment: Some(("/*"@, "*/"@)),
            import_keywords: seq!["use "@, "require "@, "require_once "@, "include "@, "include_once "@],
            function_keywords: seq!["function "@, "public function "@, "protected function "@, "private function "@, "static function "@, "final public function "@, "final protected function "@, "final private function "@],
            indent_size: 4,
            thresholds: Thresholds { max_lines: 500, max_imports: 30, ..spec_default_thresholds() },
        }
    }

    fn name(&self) -> (r: &'static str) {
        "PHP"
    }

    fn extensions(&self) -> (r: &'static [&'static str]) {
        let r: &'static [&'static str] = &["php"];
        proof {
            assert(strs_view(r@) =~= seq!["php"@]);
        }
        r
    }

    fn line_comment(&self) -> (r: Option<&'static str>) {
        Some("//")
    }

    fn block_comment(&self) -> (r: Option<(&'static str, &'static str)>) {
        Some(("/*", "*/"))
    }

    fn import_keywords(&self) -> (r: &'static [&'static str]) {
        let r: &'static [&'static str] = &["use ", "require ", "require_once ", "include ", "include_once "];
        proof {
            assert(strs_view(r@) =~= seq!["use "@, "require "@, "require_once "@, "include "@, "include_once "@]);
        }
        r
    }

    fn indent_size(&self) -> (r: usize) {
        4
    }

    fn default_thresholds(&self) -> (r: Thresholds) {
        let d = Thresholds::default();
        Thresholds { max_lines: 500, max_imports: 30, ..d }
    }

    fn function_keywords(&self) -> (r: &'static [&'static str]) {
        let r: &'static [&'static str] = &["function ", "public function ", "protected function ", "private function ", "static function ", "final public function ", "final protected function ", "final private function "];
        proof {
            assert(strs_view(r@) =~= seq!["function "@, "public function "@, "protected function "@, "private function "@, "static function "@, "final public function "@, "final protected function "@, "final private function "@]);
        }
        r
    }
}

} // verus!
