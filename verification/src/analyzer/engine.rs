//! Decisions of a whole-project analysis run: what each file contributes to
//! the project-wide table of repeated windows, what that table says back to
//! each file, and the order in which reports are presented.
//!
//! Walking the project, reading files and running the files in parallel are
//! the caller's part; these functions take and give plain values.

use vstd::prelude::*;
use crate::analyzer::{raw_hashes, hash_values};
use crate::analyzer::duplicates::{DetailModel, detail_model, details_view, join_window, occurrences_view, snippet, content_text, duplicate_details, inspection_in_bounds, inspect_duplicates, chars_lines};
use crate::analyzer::repetition::{window_hashes, compute_window_hashes};
use crate::report::RepetitionDetail;
use crate::stdlib::string_from_chars;
use crate::text::{lines_of, chars_of, split_lines, str_eq};
use std::collections::HashSet;

verus! {

broadcast use vstd::std_specs::hash::group_hash_axioms;

/// For each window of `w` line hashes, in order: the window's hash, and the
/// line number of its first entry.
pub open spec fn window_occurrences(h: Seq<(usize, u64)>, w: nat) -> Seq<(u64, usize)> {
    let ws = window_hashes(raw_hashes(h), w);
    Seq::new(ws.len(), |i: int| (ws[i], h[i].0))
}

/// What one file adds to the project-wide table of windows: the hash of each
/// of its windows with the line recorded for it.
pub fn chunk_occurrences(hashes: &Vec<(usize, u64)>, window_size: usize) -> (r: Vec<(u64, usize)>)
    requires
        window_size > 0,
    ensures
        r@ == window_occurrences(hashes@, window_size as nat),
{
    let mut out: Vec<(u64, usize)> = Vec::new();
    if hashes.len() < window_size {
        proof {
            assert(out@ =~= window_occurrences(hashes@, window_size as nat));
        }
        return out;
    }
    let raw = hash_values(hashes.as_slice());
    let ws = compute_window_hashes(raw.as_slice(), window_size);
    let ghost target = window_occurrences(hashes@, window_size as nat);
    let mut i: usize = 0;
    while i < ws.len()
        invariant
            raw@ == raw_hashes(hashes@),
            ws@ == window_hashes(raw@, window_size as nat),
            ws@.len() + window_size == hashes@.len() + 1,
            window_size > 0,
            target == window_occurrences(hashes@, window_size as nat),
            0 <= i <= ws@.len(),
            out@ == target.take(i as int),
        decreases ws@.len() - i,
    {
        let line = hashes[i].0;
        out.push((ws[i], line));
        i = i + 1;
        proof {
            assert(out@ =~= target.take(i as int));
        }
    }
    proof {
        assert(out@ =~= target);
    }
    out
}

/// A table entry as plain values: a window hash and the places where it occurs.
pub open spec fn global_view(g: Seq<(u64, Vec<(String, usize)>)>) -> Seq<(u64, Seq<(Seq<char>, usize)>)> {
    g.map_values(|e: (u64, Vec<(String, usize)>)| (e.0, occurrences_view(e.1@)))
}

/// Whether `(path, line)` is a place of an entry that occurs more than once.
pub open spec fn repeated_at(g: Seq<(u64, Seq<(Seq<char>, usize)>)>, path: Seq<char>, line: usize) -> bool {
    exists|e: int, k: int|
        0 <= e < g.len() && g[e].1.len() > 1 && 0 <= k < g[e].1.len() && #[trigger] g[e].1[k] == (path, line)
}

/// The start lines of the file `path` in entries that occur more than once.
pub open spec fn global_starts(g: Seq<(u64, Seq<(Seq<char>, usize)>)>, path: Seq<char>) -> Set<usize> {
    Set::new(|l: usize| repeated_at(g, path, l))
}

/// The lines that windows of `w` lines from the given starts cover.
pub open spec fn window_cover(starts: Set<usize>, w: nat) -> Set<usize> {
    Set::new(|x: usize| exists|s: usize| #[trigger] starts.contains(s) && s <= x < s + w)
}

/// Each window of `w` lines that starts in the file `path` in a repeated
/// entry ends within the range of `usize`.
pub open spec fn starts_fit(g: Seq<(u64, Seq<(Seq<char>, usize)>)>, path: Seq<char>, w: nat) -> bool {
    forall|e: int, k: int|
        0 <= e < g.len() && g[e].1.len() > 1 && 0 <= k < g[e].1.len() && (#[trigger] g[e].1[k]).0 == path
            ==> g[e].1[k].1 + w <= usize::MAX + 1
}

/// Each line after the first that starts a window in the file `path` in a
/// repeated entry leaves room for the window's length in a `usize`.
pub open spec fn places_fit(g: Seq<(u64, Seq<(Seq<char>, usize)>)>, path: Seq<char>, w: nat) -> bool {
    forall|e: int, k: int|
        0 <= e < g.len() && g[e].1.len() > 1 && 0 <= k < g[e].1.len() && (#[trigger] g[e].1[k]).0 == path
            && g[e].1[k].1 > 0 ==> g[e].1[k].1 + w <= usize::MAX
}

/// The number of lines of file `path` that repeated windows of the project
/// cover, or nothing when no repeated window starts in that file.
pub fn global_duplicated_count(global: &Vec<(u64, Vec<(String, usize)>)>, path: &str, w: usize) -> (r: Option<usize>)
    requires
        starts_fit(global_view(global@), path@, w as nat),
    ensures
        r is Some <==> exists|l: usize| repeated_at(global_view(global@), path@, l),
        r matches Some(n) ==> n == window_cover(global_starts(global_view(global@), path@), w as nat).len(),
{
    let ghost g = global_view(global@);
    let mut cover: HashSet<usize> = HashSet::new();
    let mut found = false;
    let mut e: usize = 0;
    while e < global.len()
        invariant
            g == global_view(global@),
            starts_fit(g, path@, w as nat),
            0 <= e <= global@.len(),
            found <==> exists|e2: int, k: int|
                0 <= e2 < e && g[e2].1.len() > 1 && 0 <= k < g[e2].1.len() && (#[trigger] g[e2].1[k]).0 == path@,
            cover@ == Set::new(|x: usize| exists|e2: int, k: int|
                0 <= e2 < e && g[e2].1.len() > 1 && 0 <= k < g[e2].1.len() && (#[trigger] g[e2].1[k]).0 == path@
                    && g[e2].1[k].1 <= x < g[e2].1[k].1 + w),
        decreases global@.len() - e,
    {
        let occ = &global[e].1;
        if occ.len() > 1 {
            let mut k: usize = 0;
            while k < occ.len()
                invariant
                    g == global_view(global@),
                    starts_fit(g, path@, w as nat),
                    0 <= e < global@.len(),
                    occ@ == global@[e as int].1@,
                    g[e as int].1.len() > 1,
                    0 <= k <= occ@.len(),
                    found <==> exists|e2: int, k2: int|
                        ((0 <= e2 < e && g[e2].1.len() > 1 && 0 <= k2 < g[e2].1.len()) || (e2 == e && 0 <= k2 < k))
                            && (#[trigger] g[e2].1[k2]).0 == path@,
                    cover@ == Set::new(|x: usize| exists|e2: int, k2: int|
                        ((0 <= e2 < e && g[e2].1.len() > 1 && 0 <= k2 < g[e2].1.len()) || (e2 == e && 0 <= k2 < k))
                            && (#[trigger] g[e2].1[k2]).0 == path@ && g[e2].1[k2].1 <= x < g[e2].1[k2].1 + w),
                decreases occ@.len() - k,
            {
                let start = occ[k].1;
                let same = str_eq(occ[k].0.as_str(), path);
                proof {
                    assert(g[e as int].1[k as int] == (occ@[k as int].0@, start));
                }
                let ghost before = cover@;
                if same {
                    proof {
                        assert(g[e as int].1[k as int].0 == path@);
                        assert(g[e as int].1[k as int].1 + w <= usize::MAX + 1);
                    }
                    let mut i: usize = 0;
                    while i < w
                        invariant
                            start + w <= usize::MAX + 1,
                            0 <= i <= w,
                            cover@ == before.union(Set::new(|x: usize| start <= x < start + i)),
                        decreases w - i,
                    {
                        cover.insert(start + i);
                        i = i + 1;
                        proof {
                            assert(cover@ =~= before.union(Set::new(|x: usize| start <= x < start + i)));
                        }
                    }
                    found = true;
                }
                k = k + 1;
                proof {
                    let lim = |x: usize| exists|e2: int, k2: int|
                        ((0 <= e2 < e && g[e2].1.len() > 1 && 0 <= k2 < g[e2].1.len()) || (e2 == e && 0 <= k2 < k))
                            && (#[trigger] g[e2].1[k2]).0 == path@ && g[e2].1[k2].1 <= x < g[e2].1[k2].1 + w;
                    assert(cover@ =~= Set::new(lim)) by {
                        assert forall|x: usize| cover@.contains(x) == lim(x) by {
                            if lim(x) {
                                let (e2, k2) = choose|e2: int, k2: int|
                                    ((0 <= e2 < e && g[e2].1.len() > 1 && 0 <= k2 < g[e2].1.len()) || (e2 == e && 0 <= k2 < k))
                                        && (#[trigger] g[e2].1[k2]).0 == path@ && g[e2].1[k2].1 <= x < g[e2].1[k2].1 + w;
                                if !(e2 == e && k2 == k - 1) {
                                    assert(before.contains(x));
                                }
                            }
                            if before.contains(x) {
                                let (e2, k2) = choose|e2: int, k2: int|
                                    ((0 <= e2 < e && g[e2].1.len() > 1 && 0 <= k2 < g[e2].1.len()) || (e2 == e && 0 <= k2 < k - 1))
                                        && (#[trigger] g[e2].1[k2]).0 == path@ && g[e2].1[k2].1 <= x < g[e2].1[k2].1 + w;
                                assert(lim(x));
                            }
                            if same && start <= x < start + w {
                                assert(g[e as int].1[k - 1] == (path@, start));
                                assert(lim(x));
                            }
                        }
                    }
                }
            }
        }
        e = e + 1;
    }
    let ghost starts = global_starts(g, path@);
    proof {
        assert(cover@ =~= window_cover(starts, w as nat)) by {
            assert forall|x: usize| cover@.contains(x) implies window_cover(starts, w as nat).contains(x) by {
                let (e2, k2) = choose|e2: int, k2: int|
                    0 <= e2 < global@.len() && g[e2].1.len() > 1 && 0 <= k2 < g[e2].1.len() && (#[trigger] g[e2].1[k2]).0 == path@
                        && g[e2].1[k2].1 <= x < g[e2].1[k2].1 + w;
                let s = g[e2].1[k2].1;
                assert(repeated_at(g, path@, s));
                assert(starts.contains(s));
            }
            assert forall|x: usize| window_cover(starts, w as nat).contains(x) implies cover@.contains(x) by {
                let s = choose|s: usize| #[trigger] starts.contains(s) && s <= x < s + w;
                assert(repeated_at(g, path@, s));
                let (e2, k2) = choose|e2: int, k2: int|
                    0 <= e2 < g.len() && g[e2].1.len() > 1 && 0 <= k2 < g[e2].1.len() && #[trigger] g[e2].1[k2] == (path@, s);
                assert(g[e2].1[k2] == (path@, s));
            }
        }
        if found {
            let (e2, k2) = choose|e2: int, k2: int|
                0 <= e2 < global@.len() && g[e2].1.len() > 1 && 0 <= k2 < g[e2].1.len() && (#[trigger] g[e2].1[k2]).0 == path@;
            assert(repeated_at(g, path@, g[e2].1[k2].1));
        }
        if exists|l: usize| repeated_at(g, path@, l) {
            let l = choose|l: usize| repeated_at(g, path@, l);
            let (e2, k2) = choose|e2: int, k2: int|
                0 <= e2 < g.len() && g[e2].1.len() > 1 && 0 <= k2 < g[e2].1.len() && #[trigger] g[e2].1[k2] == (path@, l);
            assert(g[e2].1[k2] == (path@, l));
        }
    }
    if found {
        Some(cover.len())
    } else {
        None
    }
}

/// The places of `occ` other than `(path, start)`, in order.
pub open spec fn places_except(occ: Seq<(Seq<char>, usize)>, path: Seq<char>, start: usize) -> Seq<(Seq<char>, usize)>
    decreases occ.len(),
{
    if occ.len() == 0 {
        Seq::empty()
    } else {
        let prev = places_except(occ.drop_last(), path, start);
        if occ.last() == (path, start) {
            prev
        } else {
            prev.push(occ.last())
        }
    }
}

/// Whether some detail of `ds` starts at `line`.
pub open spec fn has_line(ds: Seq<DetailModel>, line: usize) -> bool {
    exists|j: int| 0 <= j < ds.len() && #[trigger] ds[j].line == line
}

/// `ds` after the first `k` places of one repeated table entry were visited
/// for the file `path` whose lines are `lines`: a place in that file adds a
/// detail unless a detail already starts at its line, its window does not
/// fit in the file, or the entry has no other place.
pub open spec fn place_details(
    ds: Seq<DetailModel>,
    occ: Seq<(Seq<char>, usize)>,
    path: Seq<char>,
    lines: Seq<Seq<char>>,
    w: nat,
    k: nat,
) -> Seq<DetailModel>
    decreases k,
{
    if k == 0 {
        ds
    } else {
        let prev = place_details(ds, occ, path, lines, w, (k - 1) as nat);
        let start = occ[k - 1].1;
        let others = places_except(occ, path, start);
        if occ[k - 1].0 == path && !has_line(prev, start) && start > 0 && start + w <= lines.len() && others.len() > 0 {
            prev.push(DetailModel {
                content: snippet(lines, start as int, w as int),
                line: start,
                occurrences: others,
            })
        } else {
            prev
        }
    }
}

/// `ds` after the first `j` entries of the table were visited; entries that
/// occur only once are passed over.
pub open spec fn table_details(
    ds: Seq<DetailModel>,
    g: Seq<(u64, Seq<(Seq<char>, usize)>)>,
    path: Seq<char>,
    lines: Seq<Seq<char>>,
    w: nat,
    j: nat,
) -> Seq<DetailModel>
    decreases j,
{
    if j == 0 {
        ds
    } else {
        let prev = table_details(ds, g, path, lines, w, (j - 1) as nat);
        let occ = g[j - 1].1;
        if occ.len() > 1 {
            place_details(prev, occ, path, lines, w, occ.len())
        } else {
            prev
        }
    }
}

/// The places of `occ` other than `(path, start)`, in order.
fn places_except_of(occ: &Vec<(String, usize)>, path: &str, start: usize) -> (r: Vec<(String, usize)>)
    ensures
        occurrences_view(r@) == places_except(occurrences_view(occ@), path@, start),
{
    let ghost v = occurrences_view(occ@);
    let mut out: Vec<(String, usize)> = Vec::new();
    let mut k: usize = 0;
    proof {
        assert(v.take(0) =~= Seq::<(Seq<char>, usize)>::empty());
    }
    while k < occ.len()
        invariant
            v == occurrences_view(occ@),
            0 <= k <= occ@.len(),
            occurrences_view(out@) == places_except(v.take(k as int), path@, start),
        decreases occ@.len() - k,
    {
        let same = str_eq(occ[k].0.as_str(), path) && occ[k].1 == start;
        let ghost prev = out@;
        proof {
            assert(v.take(k + 1).drop_last() =~= v.take(k as int));
            assert(v.take(k + 1).last() == v[k as int]);
            assert(v[k as int] == (occ@[k as int].0@, occ@[k as int].1));
        }
        if !same {
            let place = (occ[k].0.clone(), occ[k].1);
            out.push(place);
            proof {
                assert(occurrences_view(out@) =~= occurrences_view(prev).push(v[k as int]));
            }
        }
        k = k + 1;
    }
    proof {
        assert(v.take(k as int) =~= v);
    }
    out
}

/// Whether some detail of `ds` starts at `line`.
fn has_detail_line(ds: &Vec<RepetitionDetail>, line: usize) -> (r: bool)
    ensures
        r == has_line(details_view(ds@), line),
{
    let mut j: usize = 0;
    while j < ds.len()
        invariant
            0 <= j <= ds@.len(),
            forall|t: int| 0 <= t < j ==> #[trigger] ds@[t].line != line,
        decreases ds@.len() - j,
    {
        if ds[j].line == line {
            proof {
                assert(details_view(ds@)[j as int].line == line);
            }
            return true;
        }
        j = j + 1;
    }
    proof {
        if has_line(details_view(ds@), line) {
            let t = choose|t: int| 0 <= t < details_view(ds@).len() && #[trigger] details_view(ds@)[t].line == line;
            assert(ds@[t].line == line);
        }
    }
    false
}

/// Adds to a file's details the places of the project-wide table that
/// repeat a window of the file `path`, whose text is `content`.
pub fn add_global_duplicates(
    duplicates: &mut Vec<RepetitionDetail>,
    global: &Vec<(u64, Vec<(String, usize)>)>,
    path: &str,
    content: &str,
    w: usize,
)
    requires
        places_fit(global_view(global@), path@, w as nat),
    ensures
        details_view(final(duplicates)@) == table_details(
            details_view(old(duplicates)@),
            global_view(global@),
            path@,
            lines_of(content@),
            w as nat,
            global@.len(),
        ),
{
    let ghost g = global_view(global@);
    let ghost base = details_view(duplicates@);
    let chars = chars_of(content);
    let lines = split_lines(&chars);
    let ghost lv = lines_of(content@);
    proof {
        assert(chars_lines(lines@) =~= lv);
    }
    let mut e: usize = 0;
    while e < global.len()
        invariant
            g == global_view(global@),
            places_fit(g, path@, w as nat),
            lv == lines_of(content@),
            chars_lines(lines@) == lv,
            lines@.len() == lv.len(),
            0 <= e <= global@.len(),
            details_view(duplicates@) == table_details(base, g, path@, lv, w as nat, e as nat),
        decreases global@.len() - e,
    {
        let occ = &global[e].1;
        let ghost ov = g[e as int].1;
        let ghost start_ds = details_view(duplicates@);
        proof {
            assert(ov == occurrences_view(occ@));
        }
        if occ.len() > 1 {
            let mut k: usize = 0;
            while k < occ.len()
                invariant
                    g == global_view(global@),
                    places_fit(g, path@, w as nat),
                    chars_lines(lines@) == lv,
                    lines@.len() == lv.len(),
                    0 <= e < global@.len(),
                    g[e as int].1.len() > 1,
                    ov == g[e as int].1,
                    ov == occurrences_view(occ@),
                    0 <= k <= occ@.len(),
                    details_view(duplicates@) == place_details(start_ds, ov, path@, lv, w as nat, k as nat),
                decreases occ@.len() - k,
            {
                let start = occ[k].1;
                proof {
                    assert(ov[k as int] == (occ@[k as int].0@, start));
                }
                let ghost prev = details_view(duplicates@);
                if str_eq(occ[k].0.as_str(), path) && !has_detail_line(duplicates, start) && start > 0 {
                    proof {
                        assert(g[e as int].1[k as int].0 == path@ && g[e as int].1[k as int].1 > 0);
                        assert(g[e as int].1[k as int].1 + w <= usize::MAX);
                    }
                    if start + w <= lines.len() {
                        let others = places_except_of(occ, path, start);
                        if others.len() > 0 {
                            let text = join_window(&lines, start - 1, w);
                            let content = string_from_chars(&text);
                            duplicates.push(RepetitionDetail { content, line: start, occurrences: others });
                            proof {
                                assert(details_view(duplicates@) =~= prev.push(detail_model(duplicates@.last())));
                            }
                        }
                    }
                }
                k = k + 1;
            }
        }
        e = e + 1;
    }
}

/// Looks a file's repeated windows up again when its report holds none yet
/// and it has line hashes to look them up in.
pub fn inspect_report(
    duplicates: &mut Vec<RepetitionDetail>,
    hashes: &Vec<(usize, u64)>,
    content: &[u8],
    w: usize,
    path: &str,
)
    requires
        hashes@.len() < usize::MAX,
        old(duplicates)@.len() == 0 && w <= hashes@.len() ==> inspection_in_bounds(raw_hashes(hashes@), w as nat),
    ensures
        details_view(final(duplicates)@) == (if old(duplicates)@.len() == 0 && hashes@.len() > 0 && w <= hashes@.len() {
            duplicate_details(hashes@, lines_of(content_text(content@)), w as nat, path@)
        } else {
            details_view(old(duplicates)@)
        }),
{
    if duplicates.len() == 0 && hashes.len() > 0 && w <= hashes.len() {
        *duplicates = inspect_duplicates(hashes, content, w, path);
    }
}

/// Where a report stands in the presented order.
#[derive(Clone, Copy)]
pub struct ReportRank {
    /// No error-level issue was found.
    pub sweet: bool,
    /// Number of issues.
    pub issues: usize,
    /// Number of lines.
    pub lines: usize,
}

/// `a` is presented before `b`: sweet reports first, then more issues
/// first, then more lines first.
pub open spec fn ranks_before(a: ReportRank, b: ReportRank) -> bool {
    ||| a.sweet && !b.sweet
    ||| a.sweet == b.sweet && a.issues > b.issues
    ||| a.sweet == b.sweet && a.issues == b.issues && a.lines > b.lines
}

/// `r` lists each of `0 .. n` exactly once.
pub open spec fn is_permutation(r: Seq<usize>, n: nat) -> bool {
    &&& r.len() == n
    &&& forall|i: int| 0 <= i < r.len() ==> #[trigger] r[i] < n
    &&& forall|i: int, j: int| 0 <= i < j < r.len() ==> r[i] != r[j]
}

/// Listing the reports by `r` presents none before one that ranks before
/// it, and reports of equal rank in the order they were given.
pub open spec fn presented_in_order(keys: Seq<ReportRank>, r: Seq<usize>) -> bool {
    forall|i: int, j: int|
        0 <= i < j < r.len() ==> !ranks_before(#[trigger] keys[r[j] as int], #[trigger] keys[r[i] as int])
            && (keys[r[i] as int] == keys[r[j] as int] ==> r[i] < r[j])
}

/// Ranking before is a strict order that no two equal ranks stand in.
proof fn lemma_rank_order(a: ReportRank, b: ReportRank, c: ReportRank)
    ensures
        ranks_before(a, b) ==> !ranks_before(b, a) && a != b,
        ranks_before(a, b) && !ranks_before(c, b) ==> ranks_before(a, c),
        !ranks_before(a, b) && !ranks_before(b, a) ==> a == b,
{
}

fn rank_before(a: ReportRank, b: ReportRank) -> (r: bool)
    ensures
        r == ranks_before(a, b),
{
    (a.sweet && !b.sweet) || (a.sweet == b.sweet && a.issues > b.issues) || (a.sweet == b.sweet
        && a.issues == b.issues && a.lines > b.lines)
}

/// The order in which reports are presented, as their indices: a stable
/// sort by rank.
pub fn report_order(keys: &Vec<ReportRank>) -> (r: Vec<usize>)
    ensures
        is_permutation(r@, keys@.len()),
        presented_in_order(keys@, r@),
{
    let n = keys.len();
    let mut out: Vec<usize> = Vec::new();
    let mut k: usize = 0;
    while k < n
        invariant
            n == keys@.len(),
            0 <= k <= n,
            is_permutation(out@, k as nat),
            presented_in_order(keys@, out@),
        decreases n - k,
    {
        let key = keys[k];
        let mut p: usize = 0;
        while p < out.len() && !rank_before(key, keys[out[p]])
            invariant
                n == keys@.len(),
                k < n,
                key == keys@[k as int],
                is_permutation(out@, k as nat),
                0 <= p <= out@.len(),
                forall|q: int| 0 <= q < p ==> !ranks_before(key, #[trigger] keys@[out@[q] as int]),
            decreases out@.len() - p,
        {
            p = p + 1;
        }
        let ghost old_out = out@;
        out.insert(p, k);
        proof {
            assert(out@ == old_out.insert(p as int, k));
            assert forall|i: int| 0 <= i < out@.len() implies #[trigger] out@[i] < k + 1 by {
                if i < p {
                    assert(out@[i] == old_out[i]);
                } else if i > p {
                    assert(out@[i] == old_out[i - 1]);
                }
            }
            assert forall|i: int, j: int| 0 <= i < j < out@.len() implies out@[i] != out@[j] by {
                if i != p && j != p {
                    let oi = if i < p { i } else { i - 1 };
                    let oj = if j < p { j } else { j - 1 };
                    assert(out@[i] == old_out[oi]);
                    assert(out@[j] == old_out[oj]);
                } else if i == p {
                    assert(out@[j] == old_out[j - 1]);
                } else {
                    if i < p {
                        assert(out@[i] == old_out[i]);
                    } else {
                        assert(out@[i] == old_out[i - 1]);
                    }
                }
            }
            assert forall|i: int, j: int| 0 <= i < j < out@.len() implies !ranks_before(
                #[trigger] keys@[out@[j] as int],
                #[trigger] keys@[out@[i] as int],
            ) && (keys@[out@[i] as int] == keys@[out@[j] as int] ==> out@[i] < out@[j]) by {
                if i != p && j != p {
                    let oi = if i < p { i } else { i - 1 };
                    let oj = if j < p { j } else { j - 1 };
                    assert(out@[i] == old_out[oi]);
                    assert(out@[j] == old_out[oj]);
                    assert(oi < oj);
                    assert(!ranks_before(keys@[old_out[oj] as int], keys@[old_out[oi] as int]));
                } else if j == p {
                    assert(out@[i] == old_out[i]);
                    assert(!ranks_before(key, keys@[old_out[i] as int]));
                } else {
                    assert(out@[j] == old_out[j - 1]);
                    assert(p < old_out.len());
                    assert(ranks_before(key, keys@[old_out[p as int] as int]));
                    if j - 1 > p {
                        assert(!ranks_before(keys@[old_out[j - 1] as int], keys@[old_out[p as int] as int]));
                    }
                    lemma_rank_order(key, keys@[old_out[p as int] as int], keys@[old_out[j - 1] as int]);
                }
            }
        }
        k = k + 1;
    }
    out
}

} // verus!
