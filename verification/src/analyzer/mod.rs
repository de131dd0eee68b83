//! Measurements of source text.

pub mod complexity;
pub mod volume;
pub mod functions;
pub mod syntax;
pub mod ignore;
pub mod repetition;
pub mod scanner;
pub mod uncomment;
pub mod whitespace;
pub mod duplicates;
pub mod engine;

use vstd::prelude::*;
use crate::analyzer::duplicates::{DetailModel, details_view, content_text, duplicate_details, inspection_in_bounds, inspect_duplicates};
use crate::analyzer::ignore::DisabledRules;
use crate::analyzer::scanner::{ScanModel, scan, scan_model, scan_config, hashes_int, pairs_int};
use crate::languages::{LanguageRegistry, Language, language_for, lemma_registered_delims, registered_languages};
use crate::text::lines_of;
use crate::analyzer::repetition::{window_hashes, position_groups, compute_window_hashes, get_chunks, groups_view, lemma_groups_keys};
use crate::config::Config;
use crate::config::thresholds::{RuleSeverities, Severity, Thresholds};
use crate::report::{Issue, RepetitionDetail, issues_view};
use crate::stdlib::string_from_chars;
use crate::text::{append_chars, chars_of, decimal, decimal_chars};
use std::collections::HashSet;

verus! {

broadcast use vstd::std_specs::hash::group_hash_axioms;

/// Raw analysis results before threshold evaluation.
pub struct RawMetrics {
    /// Measured source lines.
    pub lines: usize,
    /// Measured import count.
    pub imports: usize,
    /// Measured nesting depth.
    pub max_depth: usize,
    /// When the measured repetition percentage is above the limit, that
    /// percentage and the limit, each written with one decimal (the
    /// comparison and the writing are made on the `f64` values by the caller).
    pub repetition_over_limit: Option<(String, String)>,
}

pub open spec fn lines_message(lines: nat, max: nat) -> Seq<char> {
    "File too long: "@ + decimal(lines) + " lines (max "@ + decimal(max) + ")"@
}

pub open spec fn imports_message(imports: nat, max: nat) -> Seq<char> {
    "Too many imports: "@ + decimal(imports) + " (max "@ + decimal(max) + ")"@
}

/// The message for a repetition percentage `pct` above the limit `max`.
pub open spec fn repetition_message(pct: Seq<char>, max: Seq<char>) -> Seq<char> {
    "High code repetition: "@ + pct + "% (max "@ + max + "%)"@
}

/// The repetition message of the measurements, when there is one.
pub open spec fn repetition_text(m: RawMetrics) -> Seq<char> {
    match m.repetition_over_limit {
        Some((p, q)) => repetition_message(p@, q@),
        None => Seq::empty(),
    }
}

pub open spec fn depth_message(depth: nat, max: nat) -> Seq<char> {
    "Excessive nesting: "@ + decimal(depth) + " levels (max "@ + decimal(max) + ")"@
}

/// The issue a rule raises when it is enabled and violated, or none.
pub open spec fn rule_issue(
    disabled: Set<Seq<char>>,
    rule: Seq<char>,
    violated: bool,
    message: Seq<char>,
    sev: RuleSeverities,
) -> Seq<(Seq<char>, Severity)> {
    if !disabled.contains(rule) && violated {
        seq![(message, sev.severity_of(rule))]
    } else {
        Seq::empty()
    }
}

/// The issues for the measured metrics, in rule order: lines, imports, depth, repetition.
pub open spec fn expected_issues(
    m: RawMetrics,
    t: Thresholds,
    sev: RuleSeverities,
    disabled: Set<Seq<char>>,
) -> Seq<(Seq<char>, Severity)> {
    rule_issue(
        disabled,
        "max-lines"@,
        m.lines > t.max_lines,
        lines_message(m.lines as nat, t.max_lines as nat),
        sev,
    ) + rule_issue(
        disabled,
        "max-imports"@,
        m.imports > t.max_imports,
        imports_message(m.imports as nat, t.max_imports as nat),
        sev,
    ) + rule_issue(
        disabled,
        "max-depth"@,
        m.max_depth > t.max_depth,
        depth_message(m.max_depth as nat, t.max_depth as nat),
        sev,
    ) + rule_issue(
        disabled,
        "max-repetition"@,
        m.repetition_over_limit is Some,
        repetition_text(m),
        sev,
    )
}

/// A disabled rule has no effect on the issues: two measurements that
/// differ only in what disabled rules measure give the same issues.
pub proof fn lemma_disabled_rules_ignored(
    m1: RawMetrics,
    m2: RawMetrics,
    t: Thresholds,
    sev: RuleSeverities,
    disabled: Set<Seq<char>>,
)
    requires
        disabled.contains("max-lines"@) || m1.lines == m2.lines,
        disabled.contains("max-imports"@) || m1.imports == m2.imports,
        disabled.contains("max-depth"@) || m1.max_depth == m2.max_depth,
        disabled.contains("max-repetition"@) || m1.repetition_over_limit == m2.repetition_over_limit,
    ensures
        expected_issues(m1, t, sev, disabled) == expected_issues(m2, t, sev, disabled),
{
}

/// A file that disables all four rules has no issues.
pub proof fn lemma_all_rules_disabled(m: RawMetrics, t: Thresholds, sev: RuleSeverities, disabled: Set<Seq<char>>)
    requires
        disabled.contains("max-lines"@),
        disabled.contains("max-imports"@),
        disabled.contains("max-depth"@),
        disabled.contains("max-repetition"@),
    ensures
        expected_issues(m, t, sev, disabled).len() == 0,
{
}

/// When every rule is set to warning, no issue is an error, so every file
/// is sweet.
pub proof fn lemma_warnings_never_bitter(m: RawMetrics, t: Thresholds, sev: RuleSeverities, disabled: Set<Seq<char>>)
    requires
        sev.max_lines == Some(Severity::Warning),
        sev.max_imports == Some(Severity::Warning),
        sev.max_depth == Some(Severity::Warning),
        sev.max_repetition == Some(Severity::Warning),
    ensures
        forall|k: int|
            0 <= k < expected_issues(m, t, sev, disabled).len() ==> #[trigger] expected_issues(m, t, sev, disabled)[k].1
                == Severity::Warning,
{
    let e = expected_issues(m, t, sev, disabled);
    assert forall|k: int| 0 <= k < e.len() implies #[trigger] e[k].1 == Severity::Warning by {
        let a = rule_issue(disabled, "max-lines"@, m.lines > t.max_lines, lines_message(m.lines as nat, t.max_lines as nat), sev);
        let b = rule_issue(disabled, "max-imports"@, m.imports > t.max_imports, imports_message(m.imports as nat, t.max_imports as nat), sev);
        let c = rule_issue(disabled, "max-depth"@, m.max_depth > t.max_depth, depth_message(m.max_depth as nat, t.max_depth as nat), sev);
        let d = rule_issue(disabled, "max-repetition"@, m.repetition_over_limit is Some, repetition_text(m), sev);
        assert(e == a + b + c + d);
        reveal_strlit("max-lines");
        reveal_strlit("max-imports");
        reveal_strlit("max-depth");
        reveal_strlit("max-repetition");
    }
}

/// `head`, the decimal of `a`, `mid`, the decimal of `b`, and `)`.
fn limit_message(head: &str, a: usize, mid: &str, b: usize) -> (r: String)
    ensures
        r@ == head@ + decimal(a as nat) + mid@ + decimal(b as nat) + ")"@,
{
    let mut v = chars_of(head);
    append_chars(&mut v, &decimal_chars(a));
    append_chars(&mut v, &chars_of(mid));
    append_chars(&mut v, &decimal_chars(b));
    append_chars(&mut v, &chars_of(")"));
    string_from_chars(&v)
}

/// Aggregates all rule violations into a list of Issues.
pub fn collect_issues(
    metrics: RawMetrics,
    thresholds: &Thresholds,
    config: &Config,
    disabled_rules: &DisabledRules,
) -> (r: Vec<Issue>)
    ensures
        issues_view(r@) == expected_issues(
            metrics,
            *thresholds,
            config.thresholds.severities,
            disabled_rules@,
        ),
{
    let ghost m = metrics;
    let mut issues: Vec<Issue> = Vec::new();
    let sev = &config.thresholds.severities;
    proof {
        assert(issues_view(issues@) =~= Seq::<(Seq<char>, Severity)>::empty());
    }
    if !disabled_rules.contains("max-lines") && metrics.lines > thresholds.max_lines {
        let message = limit_message("File too long: ", metrics.lines, " lines (max ", thresholds.max_lines);
        issues.push(Issue { message, severity: sev.get("max-lines") });
    }
    let ghost a = issues_view(issues@);
    proof {
        assert(a =~= rule_issue(disabled_rules@, "max-lines"@, m.lines > thresholds.max_lines,
            lines_message(m.lines as nat, thresholds.max_lines as nat), *sev));
    }
    if !disabled_rules.contains("max-imports") && metrics.imports > thresholds.max_imports {
        let message = limit_message("Too many imports: ", metrics.imports, " (max ", thresholds.max_imports);
        issues.push(Issue { message, severity: sev.get("max-imports") });
    }
    let ghost b = issues_view(issues@);
    proof {
        assert(b =~= a + rule_issue(disabled_rules@, "max-imports"@, m.imports > thresholds.max_imports,
            imports_message(m.imports as nat, thresholds.max_imports as nat), *sev));
    }
    if !disabled_rules.contains("max-depth") && metrics.max_depth > thresholds.max_depth {
        let message = limit_message("Excessive nesting: ", metrics.max_depth, " levels (max ", thresholds.max_depth);
        issues.push(Issue { message, severity: sev.get("max-depth") });
    }
    let ghost c = issues_view(issues@);
    proof {
        assert(c =~= b + rule_issue(disabled_rules@, "max-depth"@, m.max_depth > thresholds.max_depth,
            depth_message(m.max_depth as nat, thresholds.max_depth as nat), *sev));
    }
    if !disabled_rules.contains("max-repetition") {
        match metrics.repetition_over_limit {
            Some((pct, max)) => {
                let mut v = chars_of("High code repetition: ");
                append_chars(&mut v, &chars_of(pct.as_str()));
                append_chars(&mut v, &chars_of("% (max "));
                append_chars(&mut v, &chars_of(max.as_str()));
                append_chars(&mut v, &chars_of("%)"));
                let message = string_from_chars(&v);
                proof {
                    assert(message@ =~= repetition_message(pct@, max@));
                }
                issues.push(Issue { message, severity: sev.get("max-repetition") });
            },
            None => {},
        }
    }
    proof {
        assert(issues_view(issues@) =~= c + rule_issue(disabled_rules@, "max-repetition"@,
            m.repetition_over_limit is Some,
            repetition_text(m), *sev));
    }
    issues
}

pub open spec fn raw_hashes(h: Seq<(usize, u64)>) -> Seq<u64> {
    h.map_values(|p: (usize, u64)| p.1)
}

/// Index `j` of the hash list lies in a repeated window that starts before window `limit`.
pub open spec fn covered_before(ws: Seq<u64>, g: Map<u64, Seq<usize>>, j: int, w: nat, limit: int) -> bool {
    exists|i: int| 0 <= i < limit && i < ws.len() && #[trigger] g[ws[i]].len() > 1 && i <= j < i + w
}

/// The line numbers of the entries of the hash list that repeated windows
/// cover.
pub open spec fn duplicated_line_numbers(h: Seq<(usize, u64)>, w: nat) -> Set<usize> {
    let ws = window_hashes(raw_hashes(h), w);
    let g = position_groups(ws);
    Set::new(
        |x: usize|
            exists|j: int|
                0 <= j < h.len() && #[trigger] h[j].0 == x && covered_before(ws, g, j, w, ws.len() as int),
    )
}

/// The raw hashes of a list of (line, hash) pairs.
pub(crate) fn hash_values(hashes: &[(usize, u64)]) -> (r: Vec<u64>)
    ensures
        r@ == raw_hashes(hashes@),
{
    let mut r: Vec<u64> = Vec::new();
    let mut k: usize = 0;
    while k < hashes.len()
        invariant
            0 <= k <= hashes@.len(),
            r@ == raw_hashes(hashes@).take(k as int),
        decreases hashes@.len() - k,
    {
        r.push(hashes[k].1);
        k = k + 1;
        proof {
            assert(r@ =~= raw_hashes(hashes@).take(k as int));
        }
    }
    proof {
        assert(r@ =~= raw_hashes(hashes@));
    }
    r
}

/// Count lines marked as duplicated based on line hashes and window size.
pub fn count_duplicated_lines(hashes: &[(usize, u64)], window_size: usize) -> (r: usize)
    requires
        hashes@.len() < usize::MAX,
    ensures
        r == if hashes@.len() < window_size {
            0
        } else {
            duplicated_line_numbers(hashes@, window_size as nat).len()
        },
        r <= hashes@.len(),
{
    if hashes.len() < window_size {
        return 0;
    }
    let n = hashes.len();
    let raw = hash_values(hashes);
    let ws = compute_window_hashes(raw.as_slice(), window_size);
    let chunks = get_chunks(raw.as_slice(), window_size);
    let ghost g = position_groups(ws@);
    let ghost h = hashes@;
    let w = window_size;
    proof {
        lemma_groups_keys(ws@);
    }
    let mut set: HashSet<usize> = HashSet::new();
    let mut i: usize = 0;
    proof {
        assert(set@ =~= Set::new(|x: usize| exists|j: int| 0 <= j < h.len() && #[trigger] h[j].0 == x && covered_before(ws@, g, j, w as nat, 0)));
    }
    while i < ws.len()
        invariant
            n == h.len() == hashes@.len(),
            h == hashes@,
            h.len() < usize::MAX,
            ws@ == window_hashes(raw_hashes(h), w as nat),
            ws@.len() + w == n + 1,
            g == position_groups(ws@),
            groups_view(chunks@) == g,
            forall|k: int| 0 <= k < ws@.len() ==> #[trigger] g.contains_key(ws@[k]),
            0 <= i <= ws@.len(),
            set@ == Set::new(|x: usize| exists|j: int| 0 <= j < h.len() && #[trigger] h[j].0 == x && covered_before(ws@, g, j, w as nat, i as int)),
        decreases ws@.len() - i,
    {
        let hv = ws[i];
        let repeated = match chunks.get(&hv) {
            Some(v) => v.len() > 1,
            None => false,
        };
        proof {
            assert(g.contains_key(ws@[i as int]));
            assert(groups_view(chunks@)[hv] == chunks@[hv]@);
        }
        let ghost before = set@;
        if repeated {
            let mut t: usize = 0;
            while t < w
                invariant
                    n == h.len() == hashes@.len(),
                    h == hashes@,
                    h.len() < usize::MAX,
                    ws@.len() + w == n + 1,
                    0 <= i < ws@.len(),
                    0 <= t <= w,
                    set@ == before.union(Set::new(|x: usize| exists|j: int| 0 <= j < h.len() && #[trigger] h[j].0 == x && i <= j < i + t)),
                decreases w - t,
            {
                let j = i + t;
                let ghost prev = set@;
                let ghost s_old = Set::new(|x: usize| exists|j2: int| 0 <= j2 < h.len() && #[trigger] h[j2].0 == x && i <= j2 < i + t);
                if j < n {
                    let line_no = hashes[j].0;
                    proof {
                        assert(line_no == h[j as int].0);
                    }
                    set.insert(line_no);
                    proof {
                        assert(set@ == prev.insert(h[j as int].0));
                    }
                } else {
                    proof {
                        assert(set@ == prev);
                    }
                }
                t = t + 1;
                proof {
                    let s_new = Set::new(|x: usize| exists|j2: int| 0 <= j2 < h.len() && #[trigger] h[j2].0 == x && i <= j2 < i + t);
                    assert(prev == before.union(s_old));
                    assert(set@ =~= before.union(s_new)) by {
                        assert(j < n ==> set@ == prev.insert(h[j as int].0));
                        assert(j >= n ==> set@ == prev);
                        assert forall|x: usize| #[trigger] s_new.contains(x) == (s_old.contains(x) || (j < n && x == h[j as int].0)) by {
                            if s_new.contains(x) {
                                let j2 = choose|j2: int| 0 <= j2 < h.len() && #[trigger] h[j2].0 == x && i <= j2 < i + t;
                                if j2 < j {
                                    assert(s_old.contains(x));
                                }
                            }
                            if s_old.contains(x) {
                                let j2 = choose|j2: int| 0 <= j2 < h.len() && #[trigger] h[j2].0 == x && i <= j2 < i + t - 1;
                                assert(s_new.contains(x));
                            }
                            if j < n && x == h[j as int].0 {
                                assert(s_new.contains(x));
                            }
                        }
                    }
                }
            }
        }
        i = i + 1;
        proof {
            let target = Set::new(|x: usize| exists|j: int| 0 <= j < h.len() && #[trigger] h[j].0 == x && covered_before(ws@, g, j, w as nat, i as int));
            assert(set@ =~= target) by {
                assert forall|x: usize| set@.contains(x) implies target.contains(x) by {
                    if before.contains(x) {
                        let j = choose|j: int| 0 <= j < h.len() && #[trigger] h[j].0 == x && covered_before(ws@, g, j, w as nat, i - 1);
                        let k = choose|k: int| 0 <= k < i - 1 && k < ws@.len() && #[trigger] g[ws@[k]].len() > 1 && k <= j < k + w;
                        assert(covered_before(ws@, g, j, w as nat, i as int));
                    } else {
                        let j = choose|j: int| 0 <= j < h.len() && #[trigger] h[j].0 == x && i - 1 <= j < i - 1 + w;
                        assert(g[ws@[i - 1]].len() > 1);
                        assert(covered_before(ws@, g, j, w as nat, i as int));
                    }
                }
                assert forall|x: usize| target.contains(x) implies set@.contains(x) by {
                    let j = choose|j: int| 0 <= j < h.len() && #[trigger] h[j].0 == x && covered_before(ws@, g, j, w as nat, i as int);
                    let k = choose|k: int| 0 <= k < i && k < ws@.len() && #[trigger] g[ws@[k]].len() > 1 && k <= j < k + w;
                    if k < i - 1 {
                        assert(covered_before(ws@, g, j, w as nat, i - 1));
                        assert(before.contains(x));
                    } else {
                        assert(repeated);
                    }
                }
            }
        }
    }
    proof {
        let nums = h.map_values(|p: (usize, u64)| p.0);
        let dup = Set::new(|x: usize| exists|j: int| 0 <= j < h.len() && #[trigger] h[j].0 == x && covered_before(ws@, g, j, w as nat, ws@.len() as int));
        assert(set@ =~= dup);
        assert(dup.subset_of(nums.to_set())) by {
            assert forall|x: usize| dup.contains(x) implies nums.to_set().contains(x) by {
                let j = choose|j: int| 0 <= j < h.len() && #[trigger] h[j].0 == x && covered_before(ws@, g, j, w as nat, ws@.len() as int);
                assert(nums[j] == x);
            }
        }
        nums.lemma_cardinality_of_set();
        vstd::seq_lib::seq_to_set_is_finite(nums);
        vstd::set_lib::lemma_len_subset(dup, nums.to_set());
    }
    set.len()
}

/// What one file's content measures: its counts, the lines nested too
/// deeply, the duplicated lines, and (when inspected) where each repeated
/// window of lines occurs.
pub struct ContentAnalysis {
    /// Measured source lines.
    pub lines: usize,
    /// Measured import count.
    pub imports: usize,
    /// Measured nesting depth.
    pub max_depth: usize,
    /// `(line, depth)` of each line nested deeper than allowed.
    pub deep_lines: Vec<(usize, usize)>,
    /// Number of distinct lines that lie in a repeated window.
    pub duplicated_lines: usize,
    /// The repeated windows found by inspection.
    pub duplicates: Vec<RepetitionDetail>,
    /// `(line number, hash)` of each line with code on it.
    pub hashes: Vec<(usize, u64)>,
}

/// The indentation width used for files with extension `ext`.
pub open spec fn indent_for(ext: Seq<char>) -> nat {
    match language_for(ext) {
        Some(l) => l.indent_size,
        None => 4,
    }
}

/// The scanner's final state on a file's content, with the rules of its extension.
pub open spec fn content_model(content: Seq<u8>, ext: Seq<char>, t: Thresholds) -> ScanModel {
    scan_model(content, scan_config(language_for(ext), t.max_depth as int, indent_for(ext) as int))
}

/// The line hashes a scan gathers, without their line numbers.
pub open spec fn model_hashes(m: ScanModel) -> Seq<u64> {
    m.hashes.map_values(|p: (int, u64)| p.1)
}

/// Whether the repeated windows of a file are looked up for inspection.
pub open spec fn inspects(inspect: bool, disabled: Set<Seq<char>>, n: nat, w: nat) -> bool {
    inspect && !disabled.contains("max-repetition"@) && n >= w
}

/// Measures a file's content and, when asked, locates its repeated windows.
pub fn analyze_content(
    content: &[u8],
    extension: &str,
    thresholds: &Thresholds,
    path: &str,
    disabled_rules: &DisabledRules,
    inspect: bool,
) -> (r: ContentAnalysis)
    requires
        content@.len() * indent_for(extension@) < usize::MAX,
        inspect && !disabled_rules@.contains("max-repetition"@) ==> inspection_in_bounds(
            model_hashes(content_model(content@, extension@, *thresholds)),
            thresholds.min_duplicate_lines as nat,
        ),
    ensures
        ({
            let m = content_model(content@, extension@, *thresholds);
            let w = thresholds.min_duplicate_lines as nat;
            &&& r.lines == m.lines
            &&& r.imports == m.imports
            &&& r.max_depth == m.max_depth
            &&& hashes_int(r.hashes@) == m.hashes
            &&& (if disabled_rules@.contains("max-depth"@) {
                r.deep_lines@.len() == 0
            } else {
                pairs_int(r.deep_lines@) == m.deep_lines
            })
            &&& r.duplicated_lines <= r.lines
            &&& r.duplicated_lines == (if r.hashes@.len() < w {
                0
            } else {
                duplicated_line_numbers(r.hashes@, w).len()
            })
            &&& details_view(r.duplicates@) == (if inspects(inspect, disabled_rules@, r.hashes@.len(), w) {
                duplicate_details(r.hashes@, lines_of(content_text(content@)), w, path@)
            } else {
                Seq::<DetailModel>::empty()
            })
        }),
{
    let registry = LanguageRegistry::get();
    let indent_size = match registry.get_by_extension(extension) {
        Some(l) => l.indent_size(),
        None => 4,
    };
    proof {
        lemma_registered_delims(extension@);
        crate::languages::lemma_lookup_member(registered_languages(), extension@);
        assert(indent_size == indent_for(extension@));
    }
    let scan_res = scan(content, extension, thresholds.max_depth, indent_size);
    let ghost m = content_model(content@, extension@, *thresholds);
    let w = thresholds.min_duplicate_lines;
    proof {
        assert(raw_hashes(scan_res.hashes@) =~= model_hashes(m)) by {
            assert(hashes_int(scan_res.hashes@) == m.hashes);
            assert forall|k: int| 0 <= k < scan_res.hashes@.len() implies raw_hashes(scan_res.hashes@)[k] == model_hashes(m)[k] by {
                assert(hashes_int(scan_res.hashes@)[k] == m.hashes[k]);
            }
        }
    }
    let deep_lines = if disabled_rules.contains("max-depth") {
        Vec::new()
    } else {
        scan_res.deep_lines
    };
    let duplicated_lines = count_duplicated_lines(scan_res.hashes.as_slice(), w);
    let duplicates = if inspect && !disabled_rules.contains("max-repetition") && scan_res.hashes.len() >= w {
        inspect_duplicates(&scan_res.hashes, content, w, path)
    } else {
        Vec::new()
    };
    ContentAnalysis {
        lines: scan_res.lines,
        imports: scan_res.imports,
        max_depth: scan_res.max_depth,
        deep_lines,
        duplicated_lines,
        duplicates,
        hashes: scan_res.hashes,
    }
}

} // verus!
