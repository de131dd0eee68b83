//! Dependency and import counting logic.

use vstd::prelude::*;
use crate::analyzer::functions::count_where;
use crate::languages::{Language, LanguageRegistry, LanguageSpec, language_for};
use crate::languages::definitions::go::{Go, go_import_scan};
use crate::text::{
    chars_of, lines_of, split_lines, str_eq, starts_with, contains_seq, trim_start, strs_chars,
    leading_ws_from, chars_occur_at, chars_contain_from, lemma_occurs_at_skip, lemma_find_from_skip,
};

verus! {

/// A keyword ending in `(` or `"` may stand anywhere in a line (e.g. `preload(` in
/// GDScript); any other keyword must begin the statement.
pub open spec fn matches_anywhere(kw: Seq<char>) -> bool {
    kw.len() > 0 && (kw.last() == '(' || kw.last() == '"')
}

/// The line, without its indentation, is an import by one of the keywords.
pub open spec fn keyword_matches(trimmed: Seq<char>, kw: Seq<char>) -> bool {
    if matches_anywhere(kw) {
        contains_seq(trimmed, kw)
    } else {
        starts_with(trimmed, kw)
    }
}

pub open spec fn is_import_line(line: Seq<char>, keywords: Seq<Seq<char>>) -> bool {
    let trimmed = trim_start(line);
    trimmed.len() > 0 && exists|k: int|
        0 <= k < keywords.len() && keyword_matches(trimmed, #[trigger] keywords[k])
}

/// Number of imports of `s` for the given language, if any: the lines that
/// begin with (or hold) one of its keywords, except for Go, whose own rule
/// also counts the packages inside `import ( ... )` blocks.
pub open spec fn import_count(s: Seq<char>, lang: Option<LanguageSpec>) -> nat {
    match lang {
        None => 0,
        Some(l) => if l.name == "Go"@ {
            go_import_scan(lines_of(s)).0
        } else {
            count_where(lines_of(s), |line: Seq<char>| is_import_line(line, l.import_keywords))
        },
    }
}

fn keyword_hit(line: &Vec<char>, lead: usize, kw: &Vec<char>) -> (b: bool)
    requires
        lead <= line@.len(),
    ensures
        b == keyword_matches(line@.skip(lead as int), kw@),
{
    let n = kw.len();
    if n > 0 && (kw[n - 1] == '(' || kw[n - 1] == '"') {
        proof {
            lemma_find_from_skip(line@, kw@, lead as int);
        }
        chars_contain_from(line, lead, kw)
    } else {
        proof {
            lemma_occurs_at_skip(line@, kw@, lead as int);
        }
        chars_occur_at(line, kw, lead)
    }
}

/// Counts the number of module imports/includes of a file.
pub fn count_imports(content: &str, extension: &str) -> (r: usize)
    ensures
        r == import_count(content@, language_for(extension@)),
{
    let registry = LanguageRegistry::get();
    let lang = match registry.get_by_extension(extension) {
        Some(l) => l,
        None => {
            return 0;
        },
    };
    let ghost spec_lang = lang.rules();
    if str_eq(lang.name(), "Go") {
        return Go.count_imports(content);
    }
    let keywords = strs_chars(lang.import_keywords());
    let chars = chars_of(content);
    let lines = split_lines(&chars);
    let ghost ls = lines_of(content@);
    let ghost f = |line: Seq<char>| is_import_line(line, spec_lang.import_keywords);
    let mut count: usize = 0;
    let mut i: usize = 0;
    proof {
        assert(ls.take(0) =~= Seq::<Seq<char>>::empty());
    }
    while i < lines.len()
        invariant
            0 <= i <= lines@.len() == ls.len(),
            forall|j: int| 0 <= j < lines@.len() ==> #[trigger] lines@[j]@ == ls[j],
            keywords@.len() == spec_lang.import_keywords.len(),
            forall|j: int| 0 <= j < keywords@.len() ==> #[trigger] keywords@[j]@ == spec_lang.import_keywords[j],
            f == (|line: Seq<char>| is_import_line(line, spec_lang.import_keywords)),
            count == count_where(ls.take(i as int), f),
            count <= i,
        decreases lines@.len() - i,
    {
        let line = &lines[i];
        let lead = leading_ws_from(line, 0);
        proof {
            assert(line@.skip(0) =~= line@);
            assert(ls.take(i + 1).drop_last() =~= ls.take(i as int));
            assert(ls.take(i + 1).last() == ls[i as int]);
            assert(trim_start(line@) == line@.skip(lead as int));
        }
        let mut hit = false;
        if lead < line.len() {
            let mut k: usize = 0;
            while !hit && k < keywords.len()
                invariant
                    0 <= k <= keywords@.len(),
                    lead <= line@.len(),
                    hit ==> k < keywords@.len() && keyword_matches(line@.skip(lead as int), keywords@[k as int]@),
                    forall|t: int| 0 <= t < k ==> !keyword_matches(line@.skip(lead as int), #[trigger] keywords@[t]@),
                decreases keywords@.len() - k, if hit { 0int } else { 1int },
            {
                if keyword_hit(line, lead, &keywords[k]) {
                    hit = true;
                } else {
                    k = k + 1;
                }
            }
            proof {
                if hit {
                    assert(keywords@[k as int]@ == spec_lang.import_keywords[k as int]);
                } else {
                    assert forall|t: int| 0 <= t < spec_lang.import_keywords.len() implies !keyword_matches(trim_start(line@), #[trigger] spec_lang.import_keywords[t]) by {
                        assert(keywords@[t]@ == spec_lang.import_keywords[t]);
                    }
                }
            }
        }
        proof {
            assert(f(ls[i as int]) == hit);
        }
        if hit {
            count = count + 1;
        }
        i = i + 1;
    }
    proof {
        assert(ls.take(i as int) =~= ls);
    }
    count
}

proof fn lemma_lead_ws_bound(s: Seq<char>)
    ensures
        crate::text::lead_ws(s) <= s.len(),
    decreases s.len(),
{
    if s.len() > 0 && crate::text::is_ws(s[0]) {
        lemma_lead_ws_bound(s.drop_first());
    }
}

/// Leading spaces and tabs add to the leading whitespace of a line.
proof fn lemma_lead_ws_indent(ws: Seq<char>, line: Seq<char>)
    requires
        forall|i: int| 0 <= i < ws.len() ==> #[trigger] ws[i] == ' ' || ws[i] == '\t',
    ensures
        crate::text::lead_ws(ws + line) == ws.len() + crate::text::lead_ws(line),
        trim_start(ws + line) == trim_start(line),
    decreases ws.len(),
{
    if ws.len() == 0 {
        assert(ws + line =~= line);
    } else {
        let rest = ws.drop_first();
        assert forall|i: int| 0 <= i < rest.len() implies #[trigger] rest[i] == ' ' || rest[i] == '\t' by {
            assert(rest[i] == ws[i + 1]);
        }
        lemma_lead_ws_indent(rest, line);
        assert((ws + line).drop_first() =~= rest + line);
        assert((ws + line)[0] == ws[0]);
        assert(crate::text::is_ws(ws[0]));
        assert(crate::text::lead_ws(ws + line) == 1 + crate::text::lead_ws(rest + line));
        assert(crate::text::lead_ws(ws + line) == ws.len() + crate::text::lead_ws(line));
        lemma_lead_ws_bound(line);
        assert(trim_start(ws + line) =~= trim_start(line)) by {
            assert((ws + line).skip(crate::text::lead_ws(ws + line) as int) =~= line.skip(
                crate::text::lead_ws(line) as int,
            ));
        }
    }
}

/// Indenting a line with spaces and tabs does not change whether it is an
/// import: keywords are matched after the indentation.
pub proof fn lemma_indent_keeps_import(ws: Seq<char>, line: Seq<char>, keywords: Seq<Seq<char>>)
    requires
        forall|i: int| 0 <= i < ws.len() ==> #[trigger] ws[i] == ' ' || ws[i] == '\t',
    ensures
        is_import_line(ws + line, keywords) == is_import_line(line, keywords),
{
    lemma_lead_ws_indent(ws, line);
}

/// Lines that agree once their indentation is removed hold the same imports.
proof fn lemma_import_counts_agree(ls1: Seq<Seq<char>>, ls2: Seq<Seq<char>>, keywords: Seq<Seq<char>>)
    requires
        ls1.len() == ls2.len(),
        forall|j: int| 0 <= j < ls1.len() ==> trim_start(#[trigger] ls1[j]) == trim_start(ls2[j]),
    ensures
        count_where(ls1, |line: Seq<char>| is_import_line(line, keywords)) == count_where(
            ls2,
            |line: Seq<char>| is_import_line(line, keywords),
        ),
        go_import_scan(ls1) == go_import_scan(ls2),
    decreases ls1.len(),
{
    if ls1.len() > 0 {
        let p1 = ls1.drop_last();
        let p2 = ls2.drop_last();
        assert forall|j: int| 0 <= j < p1.len() implies trim_start(#[trigger] p1[j]) == trim_start(p2[j]) by {
            assert(p1[j] == ls1[j] && p2[j] == ls2[j]);
        }
        lemma_import_counts_agree(p1, p2, keywords);
        assert(trim_start(ls1[ls1.len() - 1]) == trim_start(ls2[ls2.len() - 1]));
        assert(crate::text::trim(ls1.last()) == crate::text::trim(ls2.last()));
    }
}

/// Indentation does not change the number of imports of a text: two texts
/// with as many lines, each the same once its leading whitespace is
/// removed, count the same imports in every language.
pub proof fn lemma_indent_keeps_import_count(s1: Seq<char>, s2: Seq<char>, lang: Option<LanguageSpec>)
    requires
        lines_of(s1).len() == lines_of(s2).len(),
        forall|j: int| 0 <= j < lines_of(s1).len() ==> trim_start(#[trigger] lines_of(s1)[j]) == trim_start(
            lines_of(s2)[j],
        ),
    ensures
        import_count(s1, lang) == import_count(s2, lang),
{
    if let Some(l) = lang {
        lemma_import_counts_agree(lines_of(s1), lines_of(s2), l.import_keywords);
    }
}

} // verus!
