//! What an editor is told about a file: the diagnostics for its issues,
//! deep lines and duplicated windows. Lines are counted from 0 here, as
//! editors count them.

use vstd::prelude::*;
use crate::analyzer::duplicates::{DetailModel, details_view};
use crate::config::thresholds::{RuleSeverities, Severity};
use crate::report::{Issue, RepetitionDetail, issues_view};
use crate::stdlib::string_from_chars;
use crate::text::{contains_seq, occurs_at, digit_char, decimal, decimal_chars, append_chars, chars_of, split_lines, lines_of, lemma_find_from_skip, chars_contain_from};

verus! {

/// A span of a document, from a line and column to a line and column.
#[derive(Debug, Clone, Copy, PartialEq, Eq, Structural)]
pub struct LineRange {
    pub start_line: u32,
    pub start_character: u32,
    pub end_line: u32,
    pub end_character: u32,
}

/// Another place that a diagnostic points to.
pub struct RelatedPlace {
    /// The file of the place.
    pub path: String,
    /// Where in that file.
    pub range: LineRange,
    /// What is found there.
    pub message: String,
}

/// A diagnostic to publish for a document.
pub struct DiagnosticPlan {
    pub range: LineRange,
    pub severity: Severity,
    pub message: String,
    /// Who reports the diagnostic: always `sweet`.
    pub source: &'static str,
    /// The rule the diagnostic reports, which a quick fix can disable.
    pub rule: &'static str,
    /// Other places the diagnostic refers to; each becomes related
    /// information where its path converts to a file URL.
    pub related: Option<Vec<RelatedPlace>>,
}

/// A diagnostic as plain values.
pub struct DiagnosticModel {
    pub range: LineRange,
    pub severity: Severity,
    pub message: Seq<char>,
    pub source: Seq<char>,
    pub rule: Seq<char>,
    pub related: Option<Seq<(Seq<char>, LineRange, Seq<char>)>>,
}

pub open spec fn related_view(v: Seq<RelatedPlace>) -> Seq<(Seq<char>, LineRange, Seq<char>)> {
    v.map_values(|p: RelatedPlace| (p.path@, p.range, p.message@))
}

pub open spec fn diagnostic_model(d: DiagnosticPlan) -> DiagnosticModel {
    DiagnosticModel {
        range: d.range,
        severity: d.severity,
        message: d.message@,
        source: d.source@,
        rule: d.rule@,
        related: match d.related {
            Some(v) => Some(related_view(v@)),
            None => None,
        },
    }
}

pub open spec fn diagnostics_view(v: Seq<DiagnosticPlan>) -> Seq<DiagnosticModel> {
    v.map_values(|d: DiagnosticPlan| diagnostic_model(d))
}

/// The rule that an issue's message reports.
pub open spec fn rule_for_message(m: Seq<char>) -> Seq<char> {
    if contains_seq(m, "File too long"@) {
        "max-lines"@
    } else if contains_seq(m, "Too many imports"@) {
        "max-imports"@
    } else if contains_seq(m, "Excessive nesting"@) {
        "max-depth"@
    } else if contains_seq(m, "repetition"@) {
        "max-repetition"@
    } else {
        "unknown"@
    }
}

/// The editor line of a line counted from 1 (the number is taken as a `u32`).
pub open spec fn editor_line(n: usize) -> u32 {
    let l = n as u32;
    if l == 0 {
        0
    } else {
        (l - 1) as u32
    }
}

/// Columns 0 to 80 of the lines `start` to `end`.
pub open spec fn line_span(start: u32, end: u32) -> LineRange {
    LineRange { start_line: start, start_character: 0, end_line: end, end_character: 80 }
}

pub open spec fn sweet_message(m: Seq<char>) -> Seq<char> {
    "\u{1f36c} Sweet: "@ + m
}

pub open spec fn issue_diagnostic(i: (Seq<char>, Severity), sev: RuleSeverities) -> DiagnosticModel {
    let rule = rule_for_message(i.0);
    DiagnosticModel {
        range: line_span(0, 0),
        severity: sev.severity_of(rule),
        message: sweet_message(i.0),
        source: "sweet"@,
        rule,
        related: None,
    }
}

pub open spec fn depth_diagnostic(d: (usize, usize), sev: RuleSeverities) -> DiagnosticModel {
    let l = editor_line(d.0);
    DiagnosticModel {
        range: line_span(l, l),
        severity: sev.severity_of("max-depth"@),
        message: sweet_message("Excessive nesting depth: "@ + decimal(d.1 as nat)),
        source: "sweet"@,
        rule: "max-depth"@,
        related: None,
    }
}

/// The last editor line of a duplicated window that starts on `start` and has `count` lines.
pub open spec fn window_end(start: u32, count: u32) -> int {
    if count == 0 {
        start as int
    } else {
        start + count - 1
    }
}

pub open spec fn related_place(o: (Seq<char>, usize)) -> (Seq<char>, LineRange, Seq<char>) {
    let l = editor_line(o.1);
    (o.0, line_span(l, l), "Duplicate found here (line "@ + decimal(o.1 as nat) + ")"@)
}

pub open spec fn duplicate_diagnostic(d: DetailModel, sev: RuleSeverities) -> DiagnosticModel {
    let s = editor_line(d.line);
    let e = window_end(s, lines_of(d.content).len() as u32);
    DiagnosticModel {
        range: line_span(s, e as u32),
        severity: sev.severity_of("max-repetition"@),
        message: sweet_message(
            "Code duplication detected! (repeated in "@ + decimal(d.occurrences.len()) + " other places)"@,
        ),
        source: "sweet"@,
        rule: "max-repetition"@,
        related: Some(d.occurrences.map_values(|o: (Seq<char>, usize)| related_place(o))),
    }
}

/// The diagnostics of a file: one per issue, one per deep line, one per
/// duplicated window, in that order.
pub open spec fn file_diagnostics(
    issues: Seq<(Seq<char>, Severity)>,
    deep_lines: Seq<(usize, usize)>,
    duplicates: Seq<DetailModel>,
    sev: RuleSeverities,
) -> Seq<DiagnosticModel> {
    issues.map_values(|i: (Seq<char>, Severity)| issue_diagnostic(i, sev)) + deep_lines.map_values(
        |d: (usize, usize)| depth_diagnostic(d, sev),
    ) + duplicates.map_values(|d: DetailModel| duplicate_diagnostic(d, sev))
}

/// Every duplicated window's last editor line fits in a `u32`.
pub open spec fn windows_fit(duplicates: Seq<DetailModel>) -> bool {
    forall|k: int|
        0 <= k < duplicates.len() ==> window_end(
            editor_line(#[trigger] duplicates[k].line),
            lines_of(duplicates[k].content).len() as u32,
        ) <= u32::MAX
}

/// Whether `p` occurs in `s`.
fn chars_contain(s: &Vec<char>, p: &str) -> (r: bool)
    ensures
        r == contains_seq(s@, p@),
{
    let pv = chars_of(p);
    proof {
        lemma_find_from_skip(s@, pv@, 0);
        assert(s@.skip(0) =~= s@);
    }
    chars_contain_from(s, 0, &pv)
}

/// The rule that an issue's message reports.
pub fn match_rule(message: &str) -> (r: &'static str)
    ensures
        r@ == rule_for_message(message@),
{
    let m = chars_of(message);
    if chars_contain(&m, "File too long") {
        "max-lines"
    } else if chars_contain(&m, "Too many imports") {
        "max-imports"
    } else if chars_contain(&m, "Excessive nesting") {
        "max-depth"
    } else if chars_contain(&m, "repetition") {
        "max-repetition"
    } else {
        "unknown"
    }
}

fn editor_line_of(n: usize) -> (r: u32)
    ensures
        r == editor_line(n),
{
    let l = n as u32;
    if l == 0 {
        0
    } else {
        l - 1
    }
}

fn span(start: u32, end: u32) -> (r: LineRange)
    ensures
        r == line_span(start, end),
{
    LineRange { start_line: start, start_character: 0, end_line: end, end_character: 80 }
}

/// `head`, the decimal of `n`, and `tail`, as a string.
fn with_number(head: &str, n: usize, tail: &str) -> (r: Vec<char>)
    ensures
        r@ == head@ + decimal(n as nat) + tail@,
{
    let mut v = chars_of(head);
    append_chars(&mut v, &decimal_chars(n));
    append_chars(&mut v, &chars_of(tail));
    v
}

fn sweet_text(m: &Vec<char>) -> (r: String)
    ensures
        r@ == sweet_message(m@),
{
    let mut v = chars_of("\u{1f36c} Sweet: ");
    append_chars(&mut v, m);
    string_from_chars(&v)
}

/// The diagnostic for one duplicated window.
fn duplicate_plan(d: &RepetitionDetail, severities: &RuleSeverities) -> (r: DiagnosticPlan)
    requires
        window_end(editor_line(d.line), lines_of(d.content@).len() as u32) <= u32::MAX,
    ensures
        diagnostic_model(r) == duplicate_diagnostic(crate::analyzer::duplicates::detail_model(*d), *severities),
{
    let ghost dm = crate::analyzer::duplicates::detail_model(*d);
    let start = editor_line_of(d.line);
    let count = split_lines(&chars_of(d.content.as_str())).len() as u32;
    let end = if count == 0 {
        start
    } else {
        start + (count - 1)
    };
    let mut related: Vec<RelatedPlace> = Vec::new();
    let mut k: usize = 0;
    let ghost f = |o: (Seq<char>, usize)| related_place(o);
    while k < d.occurrences.len()
        invariant
            0 <= k <= d.occurrences@.len(),
            dm == crate::analyzer::duplicates::detail_model(*d),
            f == (|o: (Seq<char>, usize)| related_place(o)),
            related_view(related@) == dm.occurrences.take(k as int).map_values(f),
        decreases d.occurrences@.len() - k,
    {
        let other_line = d.occurrences[k].1;
        let l = editor_line_of(other_line);
        let message = string_from_chars(&with_number("Duplicate found here (line ", other_line, ")"));
        let ghost prev = related@;
        related.push(RelatedPlace { path: d.occurrences[k].0.clone(), range: span(l, l), message });
        proof {
            assert(dm.occurrences[k as int] == (d.occurrences@[k as int].0@, other_line));
            assert(dm.occurrences.take(k + 1) =~= dm.occurrences.take(k as int).push(dm.occurrences[k as int]));
            assert(related_view(related@) =~= related_view(prev).push(f(dm.occurrences[k as int])));
        }
        k = k + 1;
    }
    proof {
        assert(dm.occurrences.take(k as int) =~= dm.occurrences);
    }
    let message = sweet_text(
        &with_number("Code duplication detected! (repeated in ", d.occurrences.len(), " other places)"),
    );
    DiagnosticPlan {
        range: span(start, end),
        severity: severities.get("max-repetition"),
        message,
        source: "sweet",
        rule: "max-repetition",
        related: Some(related),
    }
}

/// Generates the diagnostics of a file from its issues, deep lines and duplicated windows.
pub fn generate(
    issues: &Vec<Issue>,
    deep_lines: &Vec<(usize, usize)>,
    duplicates: &Vec<RepetitionDetail>,
    severities: &RuleSeverities,
) -> (r: Vec<DiagnosticPlan>)
    requires
        windows_fit(details_view(duplicates@)),
    ensures
        diagnostics_view(r@) == file_diagnostics(issues_view(issues@), deep_lines@, details_view(duplicates@), *severities),
{
    let ghost sev = *severities;
    let ghost iv = issues_view(issues@).map_values(|i: (Seq<char>, Severity)| issue_diagnostic(i, sev));
    let ghost dv = deep_lines@.map_values(|d: (usize, usize)| depth_diagnostic(d, sev));
    let ghost uv = details_view(duplicates@).map_values(|d: DetailModel| duplicate_diagnostic(d, sev));
    let mut out: Vec<DiagnosticPlan> = Vec::new();
    let mut k: usize = 0;
    while k < issues.len()
        invariant
            0 <= k <= issues@.len(),
            sev == *severities,
            iv == issues_view(issues@).map_values(|i: (Seq<char>, Severity)| issue_diagnostic(i, sev)),
            diagnostics_view(out@) == iv.take(k as int),
        decreases issues@.len() - k,
    {
        let rule = match_rule(issues[k].message.as_str());
        let message = sweet_text(&chars_of(issues[k].message.as_str()));
        let ghost prev = out@;
        out.push(DiagnosticPlan {
            range: span(0, 0),
            severity: severities.get(rule),
            message,
            source: "sweet",
            rule,
            related: None,
        });
        proof {
            assert(issues_view(issues@)[k as int] == (issues@[k as int].message@, issues@[k as int].severity));
            assert(diagnostics_view(out@) =~= diagnostics_view(prev).push(iv[k as int]));
            assert(iv.take(k + 1) =~= iv.take(k as int).push(iv[k as int]));
        }
        k = k + 1;
    }
    proof {
        assert(iv.take(k as int) =~= iv);
    }
    let mut j: usize = 0;
    while j < deep_lines.len()
        invariant
            0 <= j <= deep_lines@.len(),
            sev == *severities,
            dv == deep_lines@.map_values(|d: (usize, usize)| depth_diagnostic(d, sev)),
            diagnostics_view(out@) == iv + dv.take(j as int),
        decreases deep_lines@.len() - j,
    {
        let (line, depth) = deep_lines[j];
        let l = editor_line_of(line);
        let message = sweet_text(&with_number("Excessive nesting depth: ", depth, ""));
        let ghost prev = out@;
        out.push(DiagnosticPlan {
            range: span(l, l),
            severity: severities.get("max-depth"),
            message,
            source: "sweet",
            rule: "max-depth",
            related: None,
        });
        proof {
            assert("Excessive nesting depth: "@ + decimal(depth as nat) + ""@ =~= "Excessive nesting depth: "@ + decimal(depth as nat)) by {
                reveal_strlit("");
            }
            assert(diagnostics_view(out@) =~= diagnostics_view(prev).push(dv[j as int]));
            assert(dv.take(j + 1) =~= dv.take(j as int).push(dv[j as int]));
        }
        j = j + 1;
    }
    proof {
        assert(dv.take(j as int) =~= dv);
    }
    let mut t: usize = 0;
    while t < duplicates.len()
        invariant
            0 <= t <= duplicates@.len(),
            sev == *severities,
            windows_fit(details_view(duplicates@)),
            uv == details_view(duplicates@).map_values(|d: DetailModel| duplicate_diagnostic(d, sev)),
            diagnostics_view(out@) == iv + dv + uv.take(t as int),
        decreases duplicates@.len() - t,
    {
        proof {
            let dd = details_view(duplicates@)[t as int];
            assert(dd == crate::analyzer::duplicates::detail_model(duplicates@[t as int]));
            assert(window_end(editor_line(dd.line), lines_of(dd.content).len() as u32) <= u32::MAX);
        }
        let plan = duplicate_plan(&duplicates[t], severities);
        let ghost prev = out@;
        out.push(plan);
        proof {
            assert(diagnostics_view(out@) =~= diagnostics_view(prev).push(uv[t as int]));
            assert(uv.take(t + 1) =~= uv.take(t as int).push(uv[t as int]));
        }
        t = t + 1;
    }
    proof {
        assert(uv.take(t as int) =~= uv);
    }
    out
}

/// Every character of a decimal is a digit.
proof fn lemma_decimal_digits(n: nat)
    ensures
        forall|i: int| 0 <= i < decimal(n).len() ==> '0' <= #[trigger] decimal(n)[i] <= '9',
    decreases n,
{
    if n >= 10 {
        lemma_decimal_digits(n / 10);
        assert forall|i: int| 0 <= i < decimal(n).len() implies '0' <= #[trigger] decimal(n)[i] <= '9' by {
            if i < decimal(n / 10).len() {
                assert(decimal(n)[i] == decimal(n / 10)[i]);
            } else {
                assert(decimal(n)[i] == digit_char(n % 10));
            }
        }
    }
}

/// A pattern whose first character is missing from a text does not occur in it.
proof fn lemma_absent_first(m: Seq<char>, pat: Seq<char>)
    requires
        pat.len() > 0,
        forall|i: int| 0 <= i < m.len() ==> #[trigger] m[i] != pat[0],
    ensures
        !contains_seq(m, pat),
{
    if contains_seq(m, pat) {
        let i = choose|i: int| occurs_at(m, pat, i);
        assert(m.subrange(i, i + pat.len())[0] == m[i]);
    }
}

/// The characters of a limit message are those of its fixed parts and digits.
proof fn lemma_message_chars(head: Seq<char>, a: nat, mid: Seq<char>, b: nat, c: char)
    requires
        forall|i: int| 0 <= i < head.len() ==> #[trigger] head[i] != c,
        forall|i: int| 0 <= i < mid.len() ==> #[trigger] mid[i] != c,
        c != ')',
        !('0' <= c <= '9'),
    ensures
        forall|i: int| 0 <= i < (head + decimal(a) + mid + decimal(b) + ")"@).len() ==> #[trigger] (head
            + decimal(a) + mid + decimal(b) + ")"@)[i] != c,
{
    reveal_strlit(")");
    lemma_decimal_digits(a);
    lemma_decimal_digits(b);
    let m = head + decimal(a) + mid + decimal(b) + ")"@;
    assert forall|i: int| 0 <= i < m.len() implies #[trigger] m[i] != c by {
        let l1 = head.len() as int;
        let l2 = l1 + decimal(a).len();
        let l3 = l2 + mid.len();
        let l4 = l3 + decimal(b).len();
        if i < l1 {
            assert(m[i] == head[i]);
        } else if i < l2 {
            assert(m[i] == decimal(a)[i - l1]);
        } else if i < l3 {
            assert(m[i] == mid[i - l2]);
        } else if i < l4 {
            assert(m[i] == decimal(b)[i - l3]);
        } else {
            assert(m[i] == ")"@[i - l4]);
        }
    }
}

/// The diagnostic for an issue about length, imports or nesting names the
/// rule that raised the issue.
pub proof fn lemma_issue_messages_name_their_rules(value: nat, max: nat)
    ensures
        rule_for_message(crate::analyzer::lines_message(value, max)) == "max-lines"@,
        rule_for_message(crate::analyzer::imports_message(value, max)) == "max-imports"@,
        rule_for_message(crate::analyzer::depth_message(value, max)) == "max-depth"@,
{
    reveal_strlit("File too long");
    reveal_strlit("Too many imports");
    reveal_strlit("Excessive nesting");
    reveal_strlit("File too long: ");
    reveal_strlit(" lines (max ");
    reveal_strlit("Too many imports: ");
    reveal_strlit(" (max ");
    reveal_strlit("Excessive nesting: ");
    reveal_strlit(" levels (max ");
    let lm = crate::analyzer::lines_message(value, max);
    let im = crate::analyzer::imports_message(value, max);
    let dm = crate::analyzer::depth_message(value, max);
    assert(occurs_at(lm, "File too long"@, 0)) by {
        assert(lm.subrange(0, 13) =~= "File too long"@);
    }
    assert(occurs_at(im, "Too many imports"@, 0)) by {
        assert(im.subrange(0, 16) =~= "Too many imports"@);
    }
    assert(occurs_at(dm, "Excessive nesting"@, 0)) by {
        assert(dm.subrange(0, 17) =~= "Excessive nesting"@);
    }
    lemma_message_chars("Too many imports: "@, value, " (max "@, max, 'F');
    lemma_absent_first(im, "File too long"@);
    lemma_message_chars("Excessive nesting: "@, value, " levels (max "@, max, 'F');
    lemma_absent_first(dm, "File too long"@);
    lemma_message_chars("Excessive nesting: "@, value, " levels (max "@, max, 'T');
    lemma_absent_first(dm, "Too many imports"@);
}

/// No capital ASCII letter in `s` (as in a number written with one decimal).
pub open spec fn no_capitals(s: Seq<char>) -> bool {
    forall|i: int| 0 <= i < s.len() ==> !('A' <= #[trigger] s[i] <= 'Z')
}

/// The repetition message names the repetition rule, whatever numbers it
/// holds, as long as they are written without capital letters.
pub proof fn lemma_repetition_message_names_its_rule(pct: Seq<char>, max: Seq<char>)
    requires
        no_capitals(pct),
        no_capitals(max),
    ensures
        rule_for_message(crate::analyzer::repetition_message(pct, max)) == "max-repetition"@,
{
    reveal_strlit("High code repetition: ");
    reveal_strlit("% (max ");
    reveal_strlit("%)");
    reveal_strlit("repetition");
    reveal_strlit("File too long");
    reveal_strlit("Too many imports");
    reveal_strlit("Excessive nesting");
    let h = "High code repetition: "@;
    let mid = "% (max "@;
    let tail = "%)"@;
    let m = crate::analyzer::repetition_message(pct, max);
    assert(m == h + pct + mid + max + tail);
    assert(occurs_at(m, "repetition"@, 10)) by {
        assert(m.subrange(10, 20) =~= "repetition"@);
    }
    let l1 = h.len() as int;
    let l2 = l1 + pct.len();
    let l3 = l2 + mid.len();
    let l4 = l3 + max.len();
    assert forall|i: int| 0 <= i < m.len() implies #[trigger] m[i] != 'F' && m[i] != 'T' && m[i] != 'E' by {
        if i < l1 {
            assert(m[i] == h[i]);
        } else if i < l2 {
            assert(m[i] == pct[i - l1]);
        } else if i < l3 {
            assert(m[i] == mid[i - l2]);
        } else if i < l4 {
            assert(m[i] == max[i - l3]);
        } else {
            assert(m[i] == tail[i - l4]);
        }
    }
    lemma_absent_first(m, "File too long"@);
    lemma_absent_first(m, "Too many imports"@);
    lemma_absent_first(m, "Excessive nesting"@);
}

/// Every issue of a file is reported under the rule that raised it, an
/// enabled one, with that rule's severity. The repetition percentage and its
/// limit are written by the caller; the law asks that they be written
/// without capital letters, as numbers are.
pub proof fn lemma_issues_name_their_rules(
    m: crate::analyzer::RawMetrics,
    t: crate::config::thresholds::Thresholds,
    sev: RuleSeverities,
    disabled: Set<Seq<char>>,
)
    requires
        m.repetition_over_limit matches Some(r) ==> no_capitals(r.0@) && no_capitals(r.1@),
    ensures
        forall|k: int|
            0 <= k < crate::analyzer::expected_issues(m, t, sev, disabled).len() ==> {
                let i = #[trigger] crate::analyzer::expected_issues(m, t, sev, disabled)[k];
                &&& rule_for_message(i.0) != "unknown"@
                &&& !disabled.contains(rule_for_message(i.0))
                &&& i.1 == sev.severity_of(rule_for_message(i.0))
            },
{
    if let Some(r) = m.repetition_over_limit {
        lemma_repetition_message_names_its_rule(r.0@, r.1@);
    }
    reveal_strlit("unknown");
    reveal_strlit("max-lines");
    reveal_strlit("max-imports");
    reveal_strlit("max-depth");
    reveal_strlit("max-repetition");
    assert("unknown"@.len() == 7 && "max-lines"@.len() == 9 && "max-imports"@.len() == 11);
    assert("max-depth"@.len() == 9 && "max-repetition"@.len() == 14);
    assert("max-lines"@ != "unknown"@ && "max-imports"@ != "unknown"@);
    assert("max-depth"@ != "unknown"@ && "max-repetition"@ != "unknown"@);
    lemma_issue_messages_name_their_rules(m.lines as nat, t.max_lines as nat);
    let di = crate::analyzer::imports_message(m.imports as nat, t.max_imports as nat);
    let dd = crate::analyzer::depth_message(m.max_depth as nat, t.max_depth as nat);
    lemma_issue_messages_name_their_rules(m.imports as nat, t.max_imports as nat);
    lemma_issue_messages_name_their_rules(m.max_depth as nat, t.max_depth as nat);
    let rm = crate::analyzer::repetition_text(m);
    let a = crate::analyzer::rule_issue(disabled, "max-lines"@, m.lines > t.max_lines,
        crate::analyzer::lines_message(m.lines as nat, t.max_lines as nat), sev);
    let b = crate::analyzer::rule_issue(disabled, "max-imports"@, m.imports > t.max_imports, di, sev);
    let c = crate::analyzer::rule_issue(disabled, "max-depth"@, m.max_depth > t.max_depth, dd, sev);
    let d = crate::analyzer::rule_issue(disabled, "max-repetition"@, m.repetition_over_limit is Some, rm, sev);
    let e = crate::analyzer::expected_issues(m, t, sev, disabled);
    assert(e == a + b + c + d);
    assert forall|k: int| 0 <= k < e.len() implies {
        let i = #[trigger] e[k];
        &&& rule_for_message(i.0) != "unknown"@
        &&& !disabled.contains(rule_for_message(i.0))
        &&& i.1 == sev.severity_of(rule_for_message(i.0))
    } by {
        if k < a.len() {
            assert(e[k] == a[k]);
            assert(a[k] == (crate::analyzer::lines_message(m.lines as nat, t.max_lines as nat), sev.severity_of("max-lines"@)));
        } else if k < a.len() + b.len() {
            assert(e[k] == b[k - a.len()]);
            assert(b[k - a.len()] == (di, sev.severity_of("max-imports"@)));
        } else if k < a.len() + b.len() + c.len() {
            assert(e[k] == c[k - a.len() - b.len()]);
            assert(c[k - a.len() - b.len()] == (dd, sev.severity_of("max-depth"@)));
        } else {
            assert(e[k] == d[k - a.len() - b.len() - c.len()]);
            assert(d[k - a.len() - b.len() - c.len()] == (rm, sev.severity_of("max-repetition"@)));
        }
    }
}

} // verus!
