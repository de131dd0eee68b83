//! Go language rules.

use vstd::prelude::*;
use crate::config::thresholds::{Thresholds, spec_default_thresholds};
use crate::languages::{Language, LanguageSpec, strs_view};
use crate::text::{chars_of, chars_eq, chars_occur_at, lemma_occurs_at_skip, lines_of, split_lines, starts_with, trim, trimmed};

verus! {

pub struct Go;

impl Language for Go {
    open spec fn rules(&self) -> LanguageSpec {
        LanguageSpec {
            name: "Go"@,
            extensions: seq!["go"@],
            line_comment: Some("//"@),
            block_comment: Some(("/*"@, "*/"@)),
            import_keywords: seq!["import"@],
            function_keywords: seq!["func "@],
            indent_size: 4,
            thresholds: Thresholds { max_lines: 400, max_imports: 20, ..spec_default_thresholds() },
        }
    }

    fn name(&self) -> (r: &'static str) {
        "Go"
    }

    fn extensions(&self) -> (r: &'static [&'static str]) {
        let r: &'static [&'static str] = &["go"];
        proof {
            assert(strs_view(r@) =~= seq!["go"@]);
        }
        r
    }

    fn line_comment(&self) -> (r: Option<&'static str>) {
        Some("//")
    }

    fn block_comment(&self) -> (r: Option<(&'static str, &'static str)>) {
        Some(("/*", "*/"))
    }

    fn import_keywords(&self) -> (r: &'static [&'static str]) {
        let r: &'static [&'static str] = &["import"];
        proof {
            assert(strs_view(r@) =~= seq!["import"@]);
        }
        r
    }

    fn indent_size(&self) -> (r: usize) {
        4
    }

    fn default_thresholds(&self) -> (r: Thresholds) {
        let d = Thresholds::default();
        Thresholds { max_lines: 400, max_imports: 20, ..d }
    }

    fn function_keywords(&self) -> (r: &'static [&'static str]) {
        let r: &'static [&'static str] = &["func "];
        proof {
            assert(strs_view(r@) =~= seq!["func "@]);
        }
        r
    }
}

} // verus!

verus! {

/// Counting state of Go imports after some lines: imports seen, and whether
/// an `import ( ... )` block is open.
pub open spec fn go_import_scan(ls: Seq<Seq<char>>) -> (nat, bool)
    decreases ls.len(),
{
    if ls.len() == 0 {
        (0, false)
    } else {
        let (count, in_block) = go_import_scan(ls.drop_last());
        let t = trim(ls.last());
        if starts_with(t, "import ("@) {
            (count, true)
        } else if in_block {
            if t == ")"@ {
                (count, false)
            } else if t.len() > 0 && !starts_with(t, "//"@) {
                (count + 1, true)
            } else {
                (count, true)
            }
        } else if starts_with(t, "import \""@) || starts_with(t, "import "@) {
            (count + 1, false)
        } else {
            (count, false)
        }
    }
}

impl Go {
    /// Counts imports, both single-line and inside `import ( ... )` blocks.
    pub fn count_imports(&self, content: &str) -> (r: usize)
        ensures
            r == go_import_scan(lines_of(content@)).0,
    {
        let chars = chars_of(content);
        let lines = split_lines(&chars);
        let ghost ls = lines_of(content@);
        let block_open = chars_of("import (");
        let block_close = chars_of(")");
        let comment = chars_of("//");
        let quoted = chars_of("import \"");
        let single = chars_of("import ");
        let mut count: usize = 0;
        let mut in_block = false;
        let mut i: usize = 0;
        proof {
            assert(ls.take(0) =~= Seq::<Seq<char>>::empty());
        }
        while i < lines.len()
            invariant
                0 <= i <= lines@.len() == ls.len(),
                forall|j: int| 0 <= j < lines@.len() ==> #[trigger] lines@[j]@ == ls[j],
                block_open@ == "import ("@,
                block_close@ == ")"@,
                comment@ == "//"@,
                quoted@ == "import \""@,
                single@ == "import "@,
                (count as nat, in_block) == go_import_scan(ls.take(i as int)),
                count <= i,
            decreases lines@.len() - i,
        {
            let t = trimmed(&lines[i]);
            proof {
                assert(ls.take(i + 1).drop_last() =~= ls.take(i as int));
                assert(ls.take(i + 1).last() == ls[i as int]);
                lemma_occurs_at_skip(t@, block_open@, 0);
                lemma_occurs_at_skip(t@, comment@, 0);
                lemma_occurs_at_skip(t@, quoted@, 0);
                lemma_occurs_at_skip(t@, single@, 0);
                assert(t@.skip(0) =~= t@);
            }
            if chars_occur_at(&t, &block_open, 0) {
                in_block = true;
            } else if in_block {
                if chars_eq(&t, &block_close) {
                    in_block = false;
                } else if t.len() > 0 && !chars_occur_at(&t, &comment, 0) {
                    count = count + 1;
                }
            } else if chars_occur_at(&t, &quoted, 0) || chars_occur_at(&t, &single, 0) {
                count = count + 1;
            }
            i = i + 1;
        }
        proof {
            assert(ls.take(i as int) =~= ls);
        }
        count
    }
}

} // verus!
