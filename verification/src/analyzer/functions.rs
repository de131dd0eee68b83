//! Logic for identifying and counting function/method declarations.

use vstd::prelude::*;
use crate::languages::{Language, LanguageRegistry, LanguageSpec, language_for};
use crate::text::{
    chars_of, lines_of, split_lines, starts_with, trim_start, strs_chars, leading_ws_from,
    chars_occur_at, lemma_occurs_at_skip,
};

verus! {

/// How many of the lines satisfy `f`.
pub open spec fn count_where(ls: Seq<Seq<char>>, f: spec_fn(Seq<char>) -> bool) -> nat
    decreases ls.len(),
{
    if ls.len() == 0 {
        0
    } else {
        count_where(ls.drop_last(), f) + if f(ls.last()) {
            1nat
        } else {
            0nat
        }
    }
}

/// The line, without its indentation, begins with one of the keywords.
pub open spec fn starts_with_any(line: Seq<char>, keywords: Seq<Seq<char>>) -> bool {
    exists|k: int| 0 <= k < keywords.len() && starts_with(trim_start(line), #[trigger] keywords[k])
}

/// Number of declaration lines of `s` for the given language, if any.
pub open spec fn function_count(s: Seq<char>, lang: Option<LanguageSpec>) -> nat {
    match lang {
        None => 0,
        Some(l) => count_where(
            lines_of(s),
            |line: Seq<char>| starts_with_any(line, l.function_keywords),
        ),
    }
}

/// Whether the line, from position `lead` on, begins with one of the keywords.
pub fn begins_with_any(line: &Vec<char>, lead: usize, keywords: &Vec<Vec<char>>) -> (b: bool)
    requires
        lead <= line@.len(),
    ensures
        b == exists|k: int|
            0 <= k < keywords@.len() && starts_with(line@.skip(lead as int), #[trigger] keywords@[k]@),
{
    let mut k: usize = 0;
    while k < keywords.len()
        invariant
            0 <= k <= keywords@.len(),
            lead <= line@.len(),
            forall|t: int| 0 <= t < k ==> !starts_with(line@.skip(lead as int), #[trigger] keywords@[t]@),
        decreases keywords@.len() - k,
    {
        proof {
            lemma_occurs_at_skip(line@, keywords@[k as int]@, lead as int);
        }
        if chars_occur_at(line, &keywords[k], lead) {
            return true;
        }
        k = k + 1;
    }
    false
}

/// Counts the number of function/method declarations in the content.
pub fn count_functions(content: &str, extension: &str) -> (r: usize)
    ensures
        r == function_count(content@, language_for(extension@)),
{
    let registry = LanguageRegistry::get();
    let lang = match registry.get_by_extension(extension) {
        Some(l) => l,
        None => {
            return 0;
        },
    };
    let ghost spec_lang = lang.rules();
    let keywords = strs_chars(lang.function_keywords());
    let chars = chars_of(content);
    let lines = split_lines(&chars);
    let ghost ls = lines_of(content@);
    let ghost f = |line: Seq<char>| starts_with_any(line, spec_lang.function_keywords);
    let mut count: usize = 0;
    let mut i: usize = 0;
    proof {
        assert(ls.take(0) =~= Seq::<Seq<char>>::empty());
    }
    while i < lines.len()
        invariant
            0 <= i <= lines@.len() == ls.len(),
            forall|j: int| 0 <= j < lines@.len() ==> #[trigger] lines@[j]@ == ls[j],
            keywords@.len() == spec_lang.function_keywords.len(),
            forall|j: int| 0 <= j < keywords@.len() ==> #[trigger] keywords@[j]@ == spec_lang.function_keywords[j],
            f == (|line: Seq<char>| starts_with_any(line, spec_lang.function_keywords)),
            count == count_where(ls.take(i as int), f),
            count <= i,
        decreases lines@.len() - i,
    {
        let line = &lines[i];
        let lead = leading_ws_from(line, 0);
        proof {
            assert(line@.skip(0) =~= line@);
            assert(ls.take(i + 1).drop_last() =~= ls.take(i as int));
            assert(ls.take(i + 1).last() == ls[i as int]);
        }
        let hit = begins_with_any(line, lead, &keywords);
        proof {
            assert(trim_start(line@) == line@.skip(lead as int));
            if hit {
                let k = choose|k: int| 0 <= k < keywords@.len() && starts_with(line@.skip(lead as int), #[trigger] keywords@[k]@);
                assert(spec_lang.function_keywords[k] == keywords@[k]@);
            } else {
                assert forall|k: int| 0 <= k < spec_lang.function_keywords.len() implies !starts_with(trim_start(line@), #[trigger] spec_lang.function_keywords[k]) by {
                    assert(keywords@[k]@ == spec_lang.function_keywords[k]);
                }
            }
            assert(f(ls[i as int]) == hit);
        }
        if hit {
            count = count + 1;
        }
        i = i + 1;
    }
    proof {
        assert(ls.take(i as int) =~= ls);
    }
    count
}

/// No more lines satisfy a test than there are lines.
pub proof fn lemma_count_where_bound(ls: Seq<Seq<char>>, f: spec_fn(Seq<char>) -> bool)
    ensures
        count_where(ls, f) <= ls.len(),
    decreases ls.len(),
{
    if ls.len() > 0 {
        lemma_count_where_bound(ls.drop_last(), f);
    }
}

/// A file declares no more functions than it has lines, and none at all
/// when its extension belongs to no registered language.
pub proof fn lemma_functions_within_lines(s: Seq<char>, ext: Seq<char>)
    ensures
        function_count(s, language_for(ext)) <= lines_of(s).len(),
        language_for(ext) is None ==> function_count(s, language_for(ext)) == 0,
{
    if let Some(l) = language_for(ext) {
        lemma_count_where_bound(lines_of(s), |line: Seq<char>| starts_with_any(line, l.function_keywords));
    }
}

} // verus!
