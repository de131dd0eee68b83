//! Locating repeated windows of lines inside one file, for inspection.
//!
//! A file's line hashes are grouped into windows of `w` consecutive hashes;
//! windows with equal hashes form a group, numbered by position from 1. Each
//! member of a group that occurs more than once yields one detail: the text
//! of the `w` source lines from its start line, and the other members' start
//! lines. Groups are visited in the order of their first member.

use vstd::prelude::*;
use vstd::utf8::{valid_utf8, decode_utf8};
use crate::analyzer::repetition::{window_hashes, position_groups, compute_window_hashes, get_chunks, groups_view, lemma_groups_keys, lemma_groups_members};
use crate::analyzer::{raw_hashes, hash_values};
use crate::report::RepetitionDetail;
use crate::stdlib::{str_from_utf8, string_from_chars};
use crate::text::{lines_of, join_lines, chars_of, split_lines, append_chars};

verus! {

broadcast use vstd::std_specs::hash::group_hash_axioms;

/// A detail as plain values: snippet, start line, and the other places.
pub struct DetailModel {
    pub content: Seq<char>,
    pub line: usize,
    pub occurrences: Seq<(Seq<char>, usize)>,
}

pub open spec fn occurrences_view(v: Seq<(String, usize)>) -> Seq<(Seq<char>, usize)> {
    v.map_values(|o: (String, usize)| (o.0@, o.1))
}

pub open spec fn detail_model(d: RepetitionDetail) -> DetailModel {
    DetailModel { content: d.content@, line: d.line, occurrences: occurrences_view(d.occurrences@) }
}

pub open spec fn details_view(v: Seq<RepetitionDetail>) -> Seq<DetailModel> {
    v.map_values(|d: RepetitionDetail| detail_model(d))
}

/// The text of a file's bytes: their decoding when they are UTF-8, else nothing.
pub open spec fn content_text(b: Seq<u8>) -> Seq<char> {
    if valid_utf8(b) {
        decode_utf8(b)
    } else {
        Seq::empty()
    }
}

pub open spec fn chars_lines(ls: Seq<Vec<char>>) -> Seq<Seq<char>> {
    ls.map_values(|l: Vec<char>| l@)
}

/// Every member of a repeated window group starts at an entry of the hash
/// list (only windows of no lines can start past its end).
pub open spec fn inspection_in_bounds(raw: Seq<u64>, w: nat) -> bool {
    let ws = window_hashes(raw, w);
    let g = position_groups(ws);
    forall|i: int| 0 <= i < ws.len() && #[trigger] g[ws[i]].len() > 1 ==> i < raw.len()
}

/// The start lines of the members of `grp` (positions from 1) other than the
/// `q`-th, each with `path`.
pub open spec fn other_places(h: Seq<(usize, u64)>, path: Seq<char>, grp: Seq<usize>, q: int) -> Seq<(Seq<char>, usize)> {
    (grp.take(q) + grp.skip(q + 1)).map_values(|i: usize| (path, h[i - 1].0))
}

/// The `w` lines from line `start` (counted from 1), joined.
pub open spec fn snippet(lines: Seq<Seq<char>>, start: int, w: int) -> Seq<char> {
    join_lines(lines.subrange(start - 1, start - 1 + w))
}

/// The details of the first `k` members of the group `grp`.
pub open spec fn group_details(
    h: Seq<(usize, u64)>,
    lines: Seq<Seq<char>>,
    w: nat,
    path: Seq<char>,
    grp: Seq<usize>,
    k: nat,
) -> Seq<DetailModel>
    decreases k,
{
    if k == 0 {
        Seq::empty()
    } else {
        let prev = group_details(h, lines, w, path, grp, (k - 1) as nat);
        let q = k - 1;
        let start = h[grp[q] - 1].0;
        if start > 0 && start + w <= lines.len() {
            prev.push(DetailModel {
                content: snippet(lines, start as int, w as int),
                line: start,
                occurrences: other_places(h, path, grp, q),
            })
        } else {
            prev
        }
    }
}

/// The details of the repeated groups whose first member is one of the first `k` windows.
pub open spec fn window_details(
    h: Seq<(usize, u64)>,
    lines: Seq<Seq<char>>,
    w: nat,
    path: Seq<char>,
    ws: Seq<u64>,
    k: nat,
) -> Seq<DetailModel>
    decreases k,
{
    if k == 0 {
        Seq::empty()
    } else {
        let prev = window_details(h, lines, w, path, ws, (k - 1) as nat);
        let grp = position_groups(ws)[ws[k - 1]];
        if grp[0] == k && grp.len() > 1 {
            prev + group_details(h, lines, w, path, grp, grp.len())
        } else {
            prev
        }
    }
}

/// The details of all repeated windows of a file whose lines are `lines`.
pub open spec fn duplicate_details(h: Seq<(usize, u64)>, lines: Seq<Seq<char>>, w: nat, path: Seq<char>) -> Seq<DetailModel> {
    let ws = window_hashes(raw_hashes(h), w);
    window_details(h, lines, w, path, ws, ws.len())
}

/// The lines `from .. from + count` of `lines`, joined with `'\n'`.
pub(crate) fn join_window(lines: &Vec<Vec<char>>, from: usize, count: usize) -> (r: Vec<char>)
    requires
        from + count <= lines@.len(),
    ensures
        r@ == join_lines(chars_lines(lines@).subrange(from as int, from + count)),
{
    let ghost sub = chars_lines(lines@).subrange(from as int, from + count);
    let mut out: Vec<char> = Vec::new();
    let mut k: usize = 0;
    let n = lines.len();
    proof {
        assert(sub.take(0) =~= Seq::<Seq<char>>::empty());
    }
    while k < count
        invariant
            n == lines@.len(),
            from + count <= lines@.len(),
            sub == chars_lines(lines@).subrange(from as int, from + count),
            0 <= k <= count,
            out@ == join_lines(sub.take(k as int)),
        decreases count - k,
    {
        let ghost before = out@;
        if k > 0 {
            out.push('\n');
        }
        append_chars(&mut out, &lines[from + k]);
        k = k + 1;
        proof {
            let t = sub.take(k as int);
            assert(t.drop_last() =~= sub.take(k - 1));
            assert(t.last() == lines@[from + k - 1]@);
            if k == 1 {
                assert(before =~= Seq::<char>::empty());
                assert(out@ =~= t[0]);
            } else {
                assert(out@ =~= before.push('\n') + t.last());
            }
        }
    }
    proof {
        assert(sub.take(count as int) =~= sub);
    }
    out
}

/// The start lines of the members of `grp` other than the `q`-th, each with `path`.
fn other_places_of(hashes: &Vec<(usize, u64)>, path: &str, grp: &Vec<usize>, q: usize) -> (r: Vec<(String, usize)>)
    requires
        q < grp@.len(),
        forall|k: int| 0 <= k < grp@.len() ==> 1 <= #[trigger] grp@[k] <= hashes@.len(),
    ensures
        occurrences_view(r@) == other_places(hashes@, path@, grp@, q as int),
{
    let ghost f = |i: usize| (path@, hashes@[i - 1].0);
    let glen = grp.len();
    let mut out: Vec<(String, usize)> = Vec::new();
    let mut r: usize = 0;
    while r < q
        invariant
            q < grp@.len(),
            glen == grp@.len(),
            forall|k: int| 0 <= k < grp@.len() ==> 1 <= #[trigger] grp@[k] <= hashes@.len(),
            f == (|i: usize| (path@, hashes@[i - 1].0)),
            0 <= r <= q,
            occurrences_view(out@) == grp@.take(r as int).map_values(f),
        decreases q - r,
    {
        let line = hashes[grp[r] - 1].0;
        let ghost prev = out@;
        let owned = path.to_owned();
        out.push((owned, line));
        proof {
            assert(occurrences_view(out@) =~= occurrences_view(prev).push((path@, line)));
            assert(grp@.take(r + 1) =~= grp@.take(r as int).push(grp@[r as int]));
            assert(f(grp@[r as int]) == (path@, line));
        }
        r = r + 1;
        proof {
            assert(occurrences_view(out@) =~= grp@.take(r as int).map_values(f));
        }
    }
    r = q + 1;
    proof {
        assert(grp@.subrange(q + 1, r as int) =~= Seq::<usize>::empty());
        assert(occurrences_view(out@) =~= (grp@.take(q as int) + grp@.subrange(q + 1, r as int)).map_values(f));
    }
    while r < grp.len()
        invariant
            q < grp@.len(),
            forall|k: int| 0 <= k < grp@.len() ==> 1 <= #[trigger] grp@[k] <= hashes@.len(),
            f == (|i: usize| (path@, hashes@[i - 1].0)),
            q + 1 <= r <= grp@.len(),
            occurrences_view(out@) == (grp@.take(q as int) + grp@.subrange(q + 1, r as int)).map_values(f),
        decreases grp@.len() - r,
    {
        let line = hashes[grp[r] - 1].0;
        let ghost prev = out@;
        let owned = path.to_owned();
        out.push((owned, line));
        proof {
            assert(occurrences_view(out@) =~= occurrences_view(prev).push((path@, line)));
            assert(grp@.take(q as int) + grp@.subrange(q + 1, r + 1) =~= (grp@.take(q as int) + grp@.subrange(q + 1, r as int)).push(grp@[r as int]));
            assert(f(grp@[r as int]) == (path@, line));
        }
        r = r + 1;
        proof {
            assert(occurrences_view(out@) =~= (grp@.take(q as int) + grp@.subrange(q + 1, r as int)).map_values(f));
        }
    }
    proof {
        assert(grp@.subrange(q + 1, grp@.len() as int) =~= grp@.skip(q + 1));
    }
    out
}

/// Appends the details of every member of the repeated group `grp`.
fn push_group_details(
    out: &mut Vec<RepetitionDetail>,
    hashes: &Vec<(usize, u64)>,
    lines: &Vec<Vec<char>>,
    w: usize,
    path: &str,
    grp: &Vec<usize>,
)
    requires
        forall|k: int| 0 <= k < grp@.len() ==> 1 <= #[trigger] grp@[k] <= hashes@.len(),
    ensures
        details_view(final(out)@) == details_view(old(out)@) + group_details(
            hashes@,
            chars_lines(lines@),
            w as nat,
            path@,
            grp@,
            grp@.len(),
        ),
{
    let ghost lv = chars_lines(lines@);
    let ghost base = details_view(out@);
    let mut q: usize = 0;
    proof {
        assert(details_view(out@) =~= base + group_details(hashes@, lv, w as nat, path@, grp@, 0));
    }
    while q < grp.len()
        invariant
            forall|k: int| 0 <= k < grp@.len() ==> 1 <= #[trigger] grp@[k] <= hashes@.len(),
            lv == chars_lines(lines@),
            lv.len() == lines@.len(),
            0 <= q <= grp@.len(),
            details_view(out@) == base + group_details(hashes@, lv, w as nat, path@, grp@, q as nat),
        decreases grp@.len() - q,
    {
        let start = hashes[grp[q] - 1].0;
        let others = other_places_of(hashes, path, grp, q);
        let ghost before = details_view(out@);
        if start > 0 && start <= lines.len() && w <= lines.len() - start {
            let text = join_window(lines, start - 1, w);
            let content = string_from_chars(&text);
            out.push(RepetitionDetail { content, line: start, occurrences: others });
            proof {
                assert(details_view(out@) =~= before.push(detail_model(out@.last())));
            }
        }
        q = q + 1;
        proof {
            assert(details_view(out@) =~= base + group_details(hashes@, lv, w as nat, path@, grp@, q as nat));
        }
    }
}

/// Whether every member of a repeated window group starts at an entry of `hashes`.
pub fn duplicates_in_bounds(hashes: &Vec<(usize, u64)>, window_size: usize) -> (r: bool)
    requires
        hashes@.len() < usize::MAX,
    ensures
        r == inspection_in_bounds(raw_hashes(hashes@), window_size as nat),
{
    if window_size >= 1 || hashes.len() < window_size {
        return true;
    }
    let raw = hash_values(hashes.as_slice());
    let ws = compute_window_hashes(raw.as_slice(), window_size);
    let chunks = get_chunks(raw.as_slice(), window_size);
    let ghost g = position_groups(ws@);
    proof {
        lemma_groups_keys(ws@);
    }
    let mut i: usize = 0;
    while i < ws.len()
        invariant
            raw@ == raw_hashes(hashes@),
            raw@.len() == hashes@.len(),
            ws@ == window_hashes(raw@, window_size as nat),
            g == position_groups(ws@),
            groups_view(chunks@) == g,
            forall|k: int| 0 <= k < ws@.len() ==> #[trigger] g.contains_key(ws@[k]),
            0 <= i <= ws@.len(),
            forall|k: int| 0 <= k < i && #[trigger] g[ws@[k]].len() > 1 ==> k < raw@.len(),
        decreases ws@.len() - i,
    {
        let repeated = match chunks.get(&ws[i]) {
            Some(v) => v.len() > 1,
            None => false,
        };
        proof {
            assert(g.contains_key(ws@[i as int]));
            assert(groups_view(chunks@)[ws@[i as int]] == chunks@[ws@[i as int]]@);
        }
        if repeated && i >= hashes.len() {
            return false;
        }
        i = i + 1;
    }
    true
}

/// The lines of a file's bytes, as `str::lines` yields them from its text.
pub fn content_lines(content: &[u8]) -> (r: Vec<Vec<char>>)
    ensures
        chars_lines(r@) == lines_of(content_text(content@)),
{
    match str_from_utf8(content) {
        Some(text) => {
            proof {
                vstd::utf8::encode_utf8_decode_utf8(text@);
            }
            let chars = chars_of(text);
            let r = split_lines(&chars);
            proof {
                assert(chars_lines(r@) =~= lines_of(content_text(content@)));
            }
            r
        },
        None => {
            let r: Vec<Vec<char>> = Vec::new();
            proof {
                assert(chars_lines(r@) =~= lines_of(content_text(content@)));
            }
            r
        },
    }
}

/// The details of every member of every repeated window group of a file.
pub fn inspect_duplicates(hashes: &Vec<(usize, u64)>, content: &[u8], w: usize, path: &str) -> (r: Vec<RepetitionDetail>)
    requires
        w <= hashes@.len() < usize::MAX,
        inspection_in_bounds(raw_hashes(hashes@), w as nat),
    ensures
        details_view(r@) == duplicate_details(hashes@, lines_of(content_text(content@)), w as nat, path@),
{
    let raw = hash_values(hashes.as_slice());
    let ws = compute_window_hashes(raw.as_slice(), w);
    let chunks = get_chunks(raw.as_slice(), w);
    let lines = content_lines(content);
    let ghost lv = chars_lines(lines@);
    let ghost g = position_groups(ws@);
    proof {
        lemma_groups_keys(ws@);
        lemma_groups_members(ws@);
    }
    let mut out: Vec<RepetitionDetail> = Vec::new();
    let mut i: usize = 0;
    proof {
        assert(details_view(out@) =~= window_details(hashes@, lv, w as nat, path@, ws@, 0));
    }
    while i < ws.len()
        invariant
            raw@ == raw_hashes(hashes@),
            raw@.len() == hashes@.len(),
            ws@ == window_hashes(raw@, w as nat),
            ws@.len() <= hashes@.len() + 1,
            g == position_groups(ws@),
            groups_view(chunks@) == g,
            lv == chars_lines(lines@),
            forall|k: int| 0 <= k < ws@.len() ==> #[trigger] g.contains_key(ws@[k]),
            forall|hv: u64| #[trigger] g.contains_key(hv) ==> g[hv].len() > 0,
            forall|hv: u64, k: int|
                #![trigger g[hv][k]]
                g.contains_key(hv) && 0 <= k < g[hv].len() ==> 1 <= g[hv][k] <= ws@.len() && ws@[g[hv][k] - 1] == hv,
            inspection_in_bounds(raw@, w as nat),
            0 <= i <= ws@.len(),
            details_view(out@) == window_details(hashes@, lv, w as nat, path@, ws@, i as nat),
        decreases ws@.len() - i,
    {
        let hv = ws[i];
        proof {
            assert(g.contains_key(hv));
            assert(groups_view(chunks@)[hv] == chunks@[hv]@);
        }
        let ghost before = details_view(out@);
        match chunks.get(&hv) {
            Some(grp) => {
                if grp[0] == i + 1 && grp.len() > 1 {
                    proof {
                        assert forall|k: int| 0 <= k < grp@.len() implies 1 <= #[trigger] grp@[k] <= hashes@.len() by {
                            let p = g[hv][k];
                            assert(1 <= p <= ws@.len() && ws@[p - 1] == hv);
                            assert(g[ws@[p - 1]].len() > 1);
                        }
                    }
                    push_group_details(&mut out, hashes, &lines, w, path, grp);
                }
            },
            None => {},
        }
        i = i + 1;
        proof {
            let grp = g[ws@[i - 1]];
            assert(grp == chunks@[hv]@);
            assert(details_view(out@) == window_details(hashes@, lv, w as nat, path@, ws@, i as nat));
        }
    }
    out
}

} // verus!
