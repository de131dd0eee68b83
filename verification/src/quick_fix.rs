//! Quick fixes that disable a rule for a whole file, by inserting an
//! `@swt-disable` comment as the file's first line.

use vstd::prelude::*;
use vstd::utf8::encode_utf8;
use crate::analyzer::ignore::{
    disabled_rules_of, rules_of_lines, line_rules, first_lines, disable_marker, lemma_encode_concat,
    lemma_encode_no_newline, lemma_split_without_sep,
};
use crate::diagnostics::LineRange;
use crate::languages::{LanguageRegistry, Language, language_for, lemma_lookup_member, registered_languages};
use crate::stdlib::{string_from_chars, lowercase};
use crate::text::{chars_of, append_chars, str_eq, is_ws, words, split_seq, find_from, occurs_at, lemma_find_from, ascii_lower};

verus! {

/// The line-comment marker of the language of files with extension `ext`,
/// or `//` where there is none.
pub open spec fn comment_marker(ext: Seq<char>) -> Seq<char> {
    match language_for(ext) {
        Some(l) => match l.line_comment {
            Some(c) => c,
            None => "//"@,
        },
        None => "//"@,
    }
}

/// The line-comment marker for files with extension `extension`.
pub fn comment_for_extension(extension: &str) -> (r: &'static str)
    ensures
        r@ == comment_marker(extension@),
{
    let registry = LanguageRegistry::get();
    match registry.get_by_extension(extension) {
        Some(l) => match l.line_comment() {
            Some(c) => c,
            None => "//",
        },
        None => "//",
    }
}

/// A quick fix that disables a rule for the whole file.
pub struct ActionPlan {
    /// Index of the diagnostic the fix answers.
    pub diagnostic: usize,
    pub title: String,
    /// The kind of the action: always `quickfix`.
    pub kind: &'static str,
    /// Where the text is inserted.
    pub range: LineRange,
    /// The text inserted.
    pub new_text: String,
}

pub open spec fn action_title(rule: Seq<char>) -> Seq<char> {
    "\u{1f36c} Disable rule '"@ + rule + "' for this file"@
}

pub open spec fn disable_line(comment: Seq<char>, rule: Seq<char>) -> Seq<char> {
    comment + " @swt-disable "@ + rule + "\n"@
}

/// The quick fixes for the first `k` of the given diagnostics' rules:
/// one for each diagnostic that names a rule other than `unknown`.
pub open spec fn quick_fixes(comment: Seq<char>, rules: Seq<Option<Seq<char>>>, k: nat) -> Seq<(nat, Seq<char>, Seq<char>, LineRange, Seq<char>)>
    decreases k,
{
    if k == 0 {
        Seq::empty()
    } else {
        let prev = quick_fixes(comment, rules, (k - 1) as nat);
        match rules[k - 1] {
            Some(rule) => if rule != "unknown"@ {
                prev.push(((k - 1) as nat, action_title(rule), "quickfix"@, LineRange { start_line: 0, start_character: 0, end_line: 0, end_character: 0 }, disable_line(comment, rule)))
            } else {
                prev
            },
            None => prev,
        }
    }
}

pub open spec fn rules_view(v: Seq<Option<String>>) -> Seq<Option<Seq<char>>> {
    v.map_values(|o: Option<String>| match o {
        Some(s) => Some(s@),
        None => None,
    })
}

pub open spec fn actions_view(v: Seq<ActionPlan>) -> Seq<(nat, Seq<char>, Seq<char>, LineRange, Seq<char>)> {
    v.map_values(|a: ActionPlan| (a.diagnostic as nat, a.title@, a.kind@, a.range, a.new_text@))
}

/// The quick fixes for diagnostics whose rules are `rules` (the rule a
/// diagnostic carries, where it carries one), in a file with extension
/// `extension`.
pub fn code_actions(extension: &str, rules: &Vec<Option<String>>) -> (r: Vec<ActionPlan>)
    ensures
        actions_view(r@) == quick_fixes(comment_marker(extension@), rules_view(rules@), rules@.len()),
{
    let comment = comment_for_extension(extension);
    let ghost rv = rules_view(rules@);
    let mut out: Vec<ActionPlan> = Vec::new();
    let mut k: usize = 0;
    while k < rules.len()
        invariant
            0 <= k <= rules@.len(),
            rv == rules_view(rules@),
            comment@ == comment_marker(extension@),
            actions_view(out@) == quick_fixes(comment@, rv, k as nat),
        decreases rules@.len() - k,
    {
        let ghost prev = out@;
        match &rules[k] {
            Some(rule) => {
                proof {
                    assert(rv[k as int] == Some(rule@));
                }
                if !str_eq(rule.as_str(), "unknown") {
                    let mut t = chars_of("\u{1f36c} Disable rule '");
                    append_chars(&mut t, &chars_of(rule.as_str()));
                    append_chars(&mut t, &chars_of("' for this file"));
                    let mut e = chars_of(comment);
                    append_chars(&mut e, &chars_of(" @swt-disable "));
                    append_chars(&mut e, &chars_of(rule.as_str()));
                    append_chars(&mut e, &chars_of("\n"));
                    out.push(ActionPlan {
                        diagnostic: k,
                        title: string_from_chars(&t),
                        kind: "quickfix",
                        range: LineRange { start_line: 0, start_character: 0, end_line: 0, end_character: 0 },
                        new_text: string_from_chars(&e),
                    });
                    proof {
                        assert(actions_view(out@) =~= actions_view(prev).push(quick_fixes(comment@, rv, (k + 1) as nat).last()));
                    }
                }
            },
            None => {
                proof {
                    assert(rv[k as int] == None::<Seq<char>>);
                }
            },
        }
        k = k + 1;
    }
    out
}

/// The first piece of `a`, a separator and `b` is `a`, when `a` has no separator.
proof fn lemma_split_first_piece(a: Seq<u8>, b: Seq<u8>)
    requires
        forall|j: int| 0 <= j < a.len() ==> #[trigger] a[j] != 10u8,
    ensures
        split_seq(a.push(10u8) + b, 10u8).len() >= 2,
        split_seq(a.push(10u8) + b, 10u8)[0] == a,
    decreases b.len(),
{
    let s = a.push(10u8) + b;
    if b.len() == 0 {
        assert(s =~= a.push(10u8));
        lemma_split_without_sep(a);
        assert(s.drop_last() =~= a);
    } else {
        lemma_split_first_piece(a, b.drop_last());
        assert(s.drop_last() =~= a.push(10u8) + b.drop_last());
    }
}

/// A rule that one of the lines disables is disabled by the lines.
proof fn lemma_rules_of_lines_member(ls: Seq<Seq<u8>>, j: int, r: Seq<char>)
    requires
        0 <= j < ls.len(),
        line_rules(ls[j]).contains(r),
    ensures
        rules_of_lines(ls).contains(r),
    decreases ls.len(),
{
    if j < ls.len() - 1 {
        lemma_rules_of_lines_member(ls.drop_last(), j, r);
    } else {
        assert(line_rules(ls.last()).to_set().contains(r));
    }
}

/// A space followed by a word is that one word.
proof fn lemma_words_after_space(r: Seq<char>)
    requires
        r.len() > 0,
        forall|i: int| 0 <= i < r.len() ==> !is_ws(#[trigger] r[i]),
    ensures
        words(seq![' '] + r) == seq![r],
    decreases r.len(),
{
    let s = seq![' '] + r;
    assert(is_ws(' '));
    if r.len() == 1 {
        assert(s.drop_last() =~= seq![' ']);
        assert(seq![' '].drop_last() =~= Seq::<char>::empty());
        assert(words(Seq::<char>::empty()) =~= Seq::<Seq<char>>::empty());
        assert(seq![' '].last() == ' ');
        assert(words(seq![' ']) =~= Seq::<Seq<char>>::empty());
        assert(!is_ws(r[0]));
        assert(seq![r[0]] =~= r);
        assert(words(s) =~= seq![r]);
    } else {
        lemma_words_after_space(r.drop_last());
        assert(s.drop_last() =~= seq![' '] + r.drop_last());
        assert(!is_ws(r[r.len() - 1]) && !is_ws(r[r.len() - 2]));
        assert(s[s.len() - 2] == r[r.len() - 2]);
        assert(r.drop_last().push(r.last()) =~= r);
        assert(words(s) =~= seq![r]);
    }
}

/// The comment marker of any file is `//`, `#` or `--`.
proof fn lemma_comment_marker(ext: Seq<char>)
    ensures
        comment_marker(ext) == "//"@ || comment_marker(ext) == "#"@ || comment_marker(ext) == "--"@,
{
    lemma_lookup_member(registered_languages(), ext);
}

/// The quick fix for a rule disables it: once its text is the first line
/// of a file, the file's disabled rules include the rule lowercased, as
/// every rule read from an `@swt-disable` comment is; a rule written in
/// lowercase ASCII (such as `max-lines`) is included as it is.
pub proof fn lemma_quick_fix_disables_rule(ext: Seq<char>, rule: Seq<char>, content: Seq<u8>)
    requires
        rule.len() > 0,
        forall|i: int| 0 <= i < rule.len() ==> !is_ws(#[trigger] rule[i]),
    ensures
        disabled_rules_of(encode_utf8(disable_line(comment_marker(ext), rule)) + content).contains(
            lowercase(rule),
        ),
        vstd::utf8::is_ascii_chars(rule) && (forall|i: int| 0 <= i < rule.len() ==> !('A' <= #[trigger] rule[i] <= 'Z'))
            ==> disabled_rules_of(encode_utf8(disable_line(comment_marker(ext), rule)) + content).contains(rule),
{
    let comment = comment_marker(ext);
    let mid = " @swt-disable "@;
    reveal_strlit(" @swt-disable ");
    reveal_strlit("@swt-disable");
    reveal_strlit("\n");
    reveal_strlit("//");
    reveal_strlit("#");
    reveal_strlit("--");
    lemma_comment_marker(ext);
    let head = comment + mid;
    let p = head + rule;
    assert(disable_line(comment, rule) == p + "\n"@);
    // The bytes of the first line.
    lemma_encode_concat(comment, mid);
    lemma_encode_concat(head, rule);
    lemma_encode_concat(p, "\n"@);
    assert(vstd::utf8::is_ascii_chars(comment));
    assert(vstd::utf8::is_ascii_chars(mid));
    vstd::utf8::is_ascii_chars_encode_utf8(comment);
    vstd::utf8::is_ascii_chars_encode_utf8(mid);
    vstd::utf8::is_ascii_chars_encode_utf8("\n"@);
    let cb = encode_utf8(comment);
    let mb = encode_utf8(mid);
    let rb = encode_utf8(rule);
    let line = encode_utf8(p);
    assert(line == cb + mb + rb);
    assert(encode_utf8("\n"@) =~= seq![10u8]);
    let bytes = encode_utf8(disable_line(comment, rule)) + content;
    assert(bytes =~= line.push(10u8) + content);
    // The first line ends at the inserted newline.
    assert forall|i: int| 0 <= i < p.len() implies #[trigger] p[i] != '\n' by {
        if i >= head.len() {
            assert(p[i] == rule[i - head.len()]);
            assert(is_ws('\n'));
        }
    }
    lemma_encode_no_newline(p);
    lemma_split_first_piece(line, content);
    let ls = first_lines(bytes, 20);
    assert(ls[0] == line);
    // The marker is first found right after the comment and a space.
    let lowered = ascii_lower(line);
    let at: int = cb.len() as int + 1;
    assert(disable_marker() =~= mb.subrange(1, 13));
    assert(occurs_at(lowered, disable_marker(), at)) by {
        assert forall|k: int| 0 <= k < 12 implies #[trigger] lowered[at + k] == disable_marker()[k] by {
            assert(line[at + k] == mb[1 + k]);
        }
        assert(lowered.subrange(at, at + 12) =~= disable_marker());
    }
    assert forall|j: int| 0 <= j < at implies !occurs_at(lowered, disable_marker(), j) by {
        assert(disable_marker()[0] == 64u8);
        if j < cb.len() {
            assert(line[j] == cb[j]);
        } else {
            assert(line[j] == mb[0]);
        }
        assert(lowered[j] != 64u8);
    }
    lemma_find_from(lowered, disable_marker(), 0);
    assert(find_from(lowered, disable_marker(), 0) == Some(at));
    // What follows the marker is a space and the rule.
    let part = line.skip(at + 12);
    lemma_encode_concat(seq![' '], rule);
    vstd::utf8::is_ascii_chars_encode_utf8(seq![' ']);
    assert(part =~= encode_utf8(seq![' '] + rule));
    vstd::utf8::encode_utf8_valid_utf8(seq![' '] + rule);
    vstd::utf8::encode_utf8_decode_utf8(seq![' '] + rule);
    lemma_words_after_space(rule);
    assert(line_rules(line) =~= seq![lowercase(rule)]);
    assert(line_rules(ls[0]).contains(lowercase(rule))) by {
        assert(line_rules(ls[0])[0] == lowercase(rule));
    }
    lemma_rules_of_lines_member(ls, 0, lowercase(rule));
    if vstd::utf8::is_ascii_chars(rule) && (forall|i: int| 0 <= i < rule.len() ==> !('A' <= #[trigger] rule[i] <= 'Z')) {
        assert(lowercase(rule) =~= rule);
    }
}

} // verus!
