//! Logic for identifying code clones and measuring duplication.
//!
//! Lines and windows of lines are compared through their `DefaultHasher`
//! hashes, fed as `Hash` feeds a slice on a 64-bit little-endian machine:
//! the slice's length as eight bytes, then its contents. A line is hashed
//! from its bytes without surrounding ASCII whitespace, a window from the
//! bytes of its line hashes.

use vstd::prelude::*;
use std::collections::hash_map::DefaultHasher;
use std::collections::{HashMap, HashSet};
use std::hash::Hasher;
use vstd::std_specs::hash::DefaultHasherAdditionalSpecFns;
use crate::text::{is_ascii_ws, is_ascii_whitespace, split_seq, split_byte_lines};

verus! {

broadcast use vstd::std_specs::hash::group_hash_axioms;

/// The eight little-endian bytes of `x`.
pub open spec fn le_bytes(x: u64) -> Seq<u8> {
    seq![
        (x & 0xFF) as u8,
        ((x >> 8u64) & 0xFF) as u8,
        ((x >> 16u64) & 0xFF) as u8,
        ((x >> 24u64) & 0xFF) as u8,
        ((x >> 32u64) & 0xFF) as u8,
        ((x >> 40u64) & 0xFF) as u8,
        ((x >> 48u64) & 0xFF) as u8,
        ((x >> 56u64) & 0xFF) as u8,
    ]
}

/// The little-endian bytes of a sequence of hashes, one after the other.
pub open spec fn hashes_bytes(ws: Seq<u64>) -> Seq<u8>
    decreases ws.len(),
{
    if ws.len() == 0 {
        Seq::empty()
    } else {
        hashes_bytes(ws.drop_last()) + le_bytes(ws.last())
    }
}

/// What a fresh `DefaultHasher` finishes with after a write of the length
/// `len` and a write of `body`.
pub open spec fn prefixed_hash(len: nat, body: Seq<u8>) -> u64 {
    DefaultHasher::spec_finish(seq![le_bytes(len as u64), body])
}

/// The hash of a run of bytes: its length, then the bytes.
pub open spec fn bytes_hash(b: Seq<u8>) -> u64 {
    prefixed_hash(b.len(), b)
}

/// The hash of a window of consecutive line hashes: their number, then
/// their bytes.
pub open spec fn window_hash(w: Seq<u64>) -> u64 {
    prefixed_hash(w.len(), hashes_bytes(w))
}

/// The hash of each window of `w` consecutive hashes, in order.
pub open spec fn window_hashes(hashes: Seq<u64>, w: nat) -> Seq<u64> {
    if hashes.len() < w {
        Seq::empty()
    } else {
        Seq::new(
            (hashes.len() - w + 1) as nat,
            |i: int| window_hash(hashes.subrange(i, i + w)),
        )
    }
}

/// For each value of `ws`, the 1-based positions where it occurs, in increasing order.
pub open spec fn position_groups(ws: Seq<u64>) -> Map<u64, Seq<usize>>
    decreases ws.len(),
{
    if ws.len() == 0 {
        Map::empty()
    } else {
        let m = position_groups(ws.drop_last());
        let h = ws.last();
        let p = ws.len() as usize;
        if m.contains_key(h) {
            m.insert(h, m[h].push(p))
        } else {
            m.insert(h, seq![p])
        }
    }
}

/// The windows of `w` hashes, grouped by their hash.
pub open spec fn chunk_groups(hashes: Seq<u64>, w: nat) -> Map<u64, Seq<usize>> {
    position_groups(window_hashes(hashes, w))
}

pub open spec fn groups_view(m: Map<u64, Vec<usize>>) -> Map<u64, Seq<usize>> {
    m.map_values(|v: Vec<usize>| v@)
}

/// Appends the eight little-endian bytes of `x`.
fn push_le_bytes(bytes: &mut Vec<u8>, x: u64)
    ensures
        final(bytes)@ == old(bytes)@ + le_bytes(x),
{
    bytes.push((x & 0xFF) as u8);
    bytes.push(((x >> 8u64) & 0xFF) as u8);
    bytes.push(((x >> 16u64) & 0xFF) as u8);
    bytes.push(((x >> 24u64) & 0xFF) as u8);
    bytes.push(((x >> 32u64) & 0xFF) as u8);
    bytes.push(((x >> 40u64) & 0xFF) as u8);
    bytes.push(((x >> 48u64) & 0xFF) as u8);
    bytes.push(((x >> 56u64) & 0xFF) as u8);
    proof {
        assert(bytes@ =~= old(bytes)@ + le_bytes(x));
    }
}

/// The hash of `body` preceded by the length `len`.
fn hash_prefixed(len: usize, body: &[u8]) -> (r: u64)
    ensures
        r == prefixed_hash(len as nat, body@),
{
    let mut prefix: Vec<u8> = Vec::new();
    push_le_bytes(&mut prefix, len as u64);
    let mut h = DefaultHasher::new();
    h.write(prefix.as_slice());
    h.write(body);
    proof {
        assert(prefix@ =~= le_bytes(len as u64));
        assert(h@ =~= seq![le_bytes((len as nat) as u64), body@]);
    }
    h.finish()
}

/// The hash of a run of bytes.
pub fn hash_bytes(b: &[u8]) -> (r: u64)
    ensures
        r == bytes_hash(b@),
{
    hash_prefixed(b.len(), b)
}

/// The hash of the window `hashes[i..i + w]`.
fn hash_window(hashes: &[u64], i: usize, w: usize) -> (r: u64)
    requires
        i + w <= hashes@.len(),
    ensures
        r == window_hash(hashes@.subrange(i as int, i + w)),
{
    let ghost win = hashes@.subrange(i as int, i + w);
    let mut bytes: Vec<u8> = Vec::new();
    let mut k: usize = 0;
    let n = hashes.len();
    proof {
        assert(win.take(0) =~= Seq::<u64>::empty());
    }
    while k < w
        invariant
            n == hashes@.len(),
            i + w <= n,
            win == hashes@.subrange(i as int, i + w),
            0 <= k <= w,
            bytes@ == hashes_bytes(win.take(k as int)),
        decreases w - k,
    {
        let x = hashes[i + k];
        push_le_bytes(&mut bytes, x);
        proof {
            assert(win.take(k + 1).drop_last() =~= win.take(k as int));
            assert(win.take(k + 1).last() == x);
            assert(bytes@ =~= hashes_bytes(win.take(k + 1)));
        }
        k = k + 1;
    }
    proof {
        assert(win.take(w as int) =~= win);
    }
    hash_prefixed(w, bytes.as_slice())
}

/// The hash of each window of `w` consecutive hashes.
pub fn compute_window_hashes(hashes: &[u64], w: usize) -> (r: Vec<u64>)
    requires
        w > 0 || hashes@.len() < usize::MAX,
    ensures
        r@ == window_hashes(hashes@, w as nat),
{
    let mut out: Vec<u64> = Vec::new();
    if hashes.len() < w {
        proof {
            assert(out@ =~= window_hashes(hashes@, w as nat));
        }
        return out;
    }
    let count = hashes.len() - w + 1;
    let mut i: usize = 0;
    while i < count
        invariant
            count == hashes@.len() - w + 1,
            0 <= i <= count,
            out@ == window_hashes(hashes@, w as nat).take(i as int),
        decreases count - i,
    {
        let h = hash_window(hashes, i, w);
        out.push(h);
        i = i + 1;
        proof {
            assert(out@ =~= window_hashes(hashes@, w as nat).take(i as int));
        }
    }
    proof {
        assert(out@ =~= window_hashes(hashes@, w as nat));
    }
    out
}

/// Every value of `ws` has a group, and a group lists 1-based positions of `ws`.
pub proof fn lemma_groups_keys(ws: Seq<u64>)
    ensures
        forall|i: int| 0 <= i < ws.len() ==> #[trigger] position_groups(ws).contains_key(ws[i]),
        forall|h: u64| #[trigger] position_groups(ws).contains_key(h) ==> position_groups(ws)[h].len() > 0,
    decreases ws.len(),
{
    if ws.len() > 0 {
        let p = ws.drop_last();
        lemma_groups_keys(p);
        let m = position_groups(p);
        let h = ws.last();
        let g = position_groups(ws);
        assert(g == if m.contains_key(h) {
            m.insert(h, m[h].push(ws.len() as usize))
        } else {
            m.insert(h, seq![ws.len() as usize])
        });
        assert forall|i: int| 0 <= i < ws.len() implies #[trigger] g.contains_key(ws[i]) by {
            if i < ws.len() - 1 {
                assert(ws[i] == p[i]);
                assert(m.contains_key(p[i]));
            }
        }
        assert forall|k: u64| #[trigger] g.contains_key(k) implies g[k].len() > 0 by {
            if k != h {
                assert(m.contains_key(k));
            }
        }
    }
}

/// Each group lists positions (from 1) of windows with that hash.
pub proof fn lemma_groups_members(ws: Seq<u64>)
    requires
        ws.len() <= usize::MAX,
    ensures
        forall|h: u64, k: int|
            #![trigger position_groups(ws)[h][k]]
            position_groups(ws).contains_key(h) && 0 <= k < position_groups(ws)[h].len() ==> 1
                <= position_groups(ws)[h][k] <= ws.len() && ws[position_groups(ws)[h][k] - 1] == h,
    decreases ws.len(),
{
    if ws.len() > 0 {
        let p = ws.drop_last();
        lemma_groups_members(p);
        let m = position_groups(p);
        let hv = ws.last();
        let g = position_groups(ws);
        assert(g == if m.contains_key(hv) {
            m.insert(hv, m[hv].push(ws.len() as usize))
        } else {
            m.insert(hv, seq![ws.len() as usize])
        });
        assert forall|h: u64, k: int|
            #![trigger g[h][k]]
            g.contains_key(h) && 0 <= k < g[h].len() implies 1 <= g[h][k] <= ws.len() && ws[g[h][k]
                - 1] == h by {
            if h == hv {
                if m.contains_key(hv) && k < m[hv].len() {
                    assert(g[h][k] == m[hv][k]);
                    assert(p[m[hv][k] - 1] == hv);
                    assert(ws[m[hv][k] - 1] == p[m[hv][k] - 1]);
                } else {
                    assert(g[h][k] == ws.len() as usize);
                    assert(ws[ws.len() - 1] == hv);
                }
            } else {
                assert(g[h] == m[h]);
                assert(m.contains_key(h));
                assert(m[h][k] == g[h][k]);
                assert(p[m[h][k] - 1] == h);
                assert(ws[m[h][k] - 1] == p[m[h][k] - 1]);
            }
        }
    }
}

/// Breaks a list of hashes into windows and maps each chunk (via its hash) to its positions.
pub fn get_chunks(hashes: &[u64], window_size: usize) -> (r: HashMap<u64, Vec<usize>>)
    requires
        window_size > 0 || hashes@.len() < usize::MAX,
    ensures
        groups_view(r@) == chunk_groups(hashes@, window_size as nat),
{
    let mut chunks: HashMap<u64, Vec<usize>> = HashMap::new();
    if hashes.len() < window_size {
        proof {
            assert(groups_view(chunks@) =~= Map::<u64, Seq<usize>>::empty());
        }
        return chunks;
    }
    let count = hashes.len() - window_size + 1;
    let ghost ws = window_hashes(hashes@, window_size as nat);
    let mut i: usize = 0;
    proof {
        assert(ws.take(0) =~= Seq::<u64>::empty());
        assert(groups_view(chunks@) =~= Map::<u64, Seq<usize>>::empty());
    }
    while i < count
        invariant
            count == hashes@.len() - window_size + 1,
            ws == window_hashes(hashes@, window_size as nat),
            ws.len() == count,
            0 <= i <= count,
            groups_view(chunks@) == position_groups(ws.take(i as int)),
        decreases count - i,
    {
        let h = hash_window(hashes, i, window_size);
        proof {
            assert(ws.take(i + 1).drop_last() =~= ws.take(i as int));
            assert(ws.take(i + 1).last() == h);
        }
        let ghost before = chunks@;
        let mut positions = match chunks.remove(&h) {
            Some(v) => v,
            None => Vec::new(),
        };
        positions.push(i + 1);
        chunks.insert(h, positions);
        i = i + 1;
        proof {
            let m = position_groups(ws.take(i - 1));
            if m.contains_key(h) {
                assert(groups_view(chunks@) =~= m.insert(h, m[h].push(i as usize)));
            } else {
                assert(groups_view(chunks@) =~= m.insert(h, seq![i as usize]));
            }
        }
    }
    proof {
        assert(ws.take(count as int) =~= ws);
    }
    chunks
}

/// Number of ASCII whitespace bytes at the start of `b`.
pub open spec fn lead_ascii_ws(b: Seq<u8>) -> nat
    decreases b.len(),
{
    if b.len() == 0 || !is_ascii_ws(b[0]) {
        0
    } else {
        1 + lead_ascii_ws(b.drop_first())
    }
}

/// Number of ASCII whitespace bytes at the end of `b`.
pub open spec fn trail_ascii_ws(b: Seq<u8>) -> nat
    decreases b.len(),
{
    if b.len() == 0 || !is_ascii_ws(b.last()) {
        0
    } else {
        1 + trail_ascii_ws(b.drop_last())
    }
}

/// `b` without surrounding ASCII whitespace.
pub open spec fn trim_ascii(b: Seq<u8>) -> Seq<u8> {
    if lead_ascii_ws(b) == b.len() {
        Seq::empty()
    } else {
        b.subrange(lead_ascii_ws(b) as int, b.len() - trail_ascii_ws(b))
    }
}

pub proof fn lemma_lead_ascii_ws(b: Seq<u8>)
    ensures
        lead_ascii_ws(b) <= b.len(),
        forall|i: int| 0 <= i < lead_ascii_ws(b) ==> is_ascii_ws(#[trigger] b[i]),
        lead_ascii_ws(b) < b.len() ==> !is_ascii_ws(b[lead_ascii_ws(b) as int]),
    decreases b.len(),
{
    if b.len() > 0 && is_ascii_ws(b[0]) {
        lemma_lead_ascii_ws(b.drop_first());
        assert forall|i: int| 0 <= i < lead_ascii_ws(b) implies is_ascii_ws(#[trigger] b[i]) by {
            if i > 0 {
                assert(b[i] == b.drop_first()[i - 1]);
            }
        }
    }
}

pub proof fn lemma_trail_ascii_ws(b: Seq<u8>)
    ensures
        trail_ascii_ws(b) <= b.len(),
        lead_ascii_ws(b) < b.len() ==> lead_ascii_ws(b) + trail_ascii_ws(b) < b.len(),
    decreases b.len(),
{
    lemma_lead_ascii_ws(b);
    if b.len() > 0 && is_ascii_ws(b.last()) {
        lemma_trail_ascii_ws(b.drop_last());
        lemma_lead_ascii_ws(b.drop_last());
        if lead_ascii_ws(b) < b.len() {
            assert(lead_ascii_ws(b.drop_last()) == lead_ascii_ws(b)) by {
                lemma_lead_prefix(b, lead_ascii_ws(b) as int);
            }
        }
    }
}

/// The leading whitespace count is the same for a prefix that reaches past it.
proof fn lemma_lead_prefix(b: Seq<u8>, k: int)
    requires
        k == lead_ascii_ws(b),
        k < b.len(),
    ensures
        lead_ascii_ws(b.drop_last()) == k || b.len() - 1 == k,
    decreases b.len(),
{
    if b.len() > 0 && is_ascii_ws(b[0]) && b.len() > 1 {
        assert(b.drop_last().drop_first() =~= b.drop_first().drop_last());
        lemma_lead_prefix(b.drop_first(), k - 1);
    }
}

/// `b` without surrounding ASCII whitespace.
pub fn trim_bytes(bytes: &[u8]) -> (r: &[u8])
    ensures
        r@ == trim_ascii(bytes@),
{
    let n = bytes.len();
    let mut start: usize = 0;
    proof {
        assert(bytes@.skip(0) =~= bytes@);
    }
    while start < n && is_ascii_whitespace(bytes[start])
        invariant
            n == bytes@.len(),
            start <= n,
            lead_ascii_ws(bytes@) == start + lead_ascii_ws(bytes@.skip(start as int)),
        decreases n - start,
    {
        proof {
            assert(bytes@.skip(start as int).drop_first() =~= bytes@.skip(start + 1));
        }
        start = start + 1;
    }
    proof {
        if start < n {
            assert(bytes@.skip(start as int)[0] == bytes@[start as int]);
        }
    }
    if start == n {
        let r = vstd::slice::slice_subrange(bytes, n, n);
        proof {
            assert(r@ =~= trim_ascii(bytes@));
        }
        return r;
    }
    let mut end = n;
    proof {
        assert(bytes@.take(n as int) =~= bytes@);
        lemma_trail_ascii_ws(bytes@);
    }
    while end > start && is_ascii_whitespace(bytes[end - 1])
        invariant
            n == bytes@.len(),
            start < n,
            start == lead_ascii_ws(bytes@),
            lead_ascii_ws(bytes@) + trail_ascii_ws(bytes@) < n,
            start <= end <= n,
            trail_ascii_ws(bytes@) == (n - end) + trail_ascii_ws(bytes@.take(end as int)),
        decreases end,
    {
        proof {
            assert(bytes@.take(end as int).drop_last() =~= bytes@.take(end - 1));
        }
        end = end - 1;
    }
    proof {
        lemma_lead_ascii_ws(bytes@);
        if end > start {
            assert(bytes@.take(end as int).last() == bytes@[end - 1]);
        } else {
            assert(!is_ascii_ws(bytes@[start as int]));
            assert(bytes@.take(end as int).last() == bytes@[start as int]);
            assert(false);
        }
    }
    let r = vstd::slice::slice_subrange(bytes, start, end);
    r
}

/// Positions (1-based) covered by a window whose hash occurs more than once.
pub open spec fn duplicated_positions(hashes: Seq<u64>, w: nat) -> Set<usize> {
    let ws = window_hashes(hashes, w);
    let g = position_groups(ws);
    Set::new(
        |x: usize|
            exists|i: int|
                0 <= i < ws.len() && #[trigger] g[ws[i]].len() > 1 && i + 1 <= x < i + 1 + w,
    )
}

/// The positions, counted from 1, that some repeated window covers.
pub fn duplicated_set(hashes: &[u64], w: usize) -> (r: HashSet<usize>)
    requires
        w > 0 || hashes@.len() < usize::MAX,
    ensures
        r@ == duplicated_positions(hashes@, w as nat),
{
    let hn = hashes.len();
    let ws = compute_window_hashes(hashes, w);
    let chunks = get_chunks(hashes, w);
    let ghost g = position_groups(ws@);
    proof {
        lemma_groups_keys(ws@);
    }
    let mut set: HashSet<usize> = HashSet::new();
    let mut i: usize = 0;
    while i < ws.len()
        invariant
            ws@ == window_hashes(hashes@, w as nat),
            g == position_groups(ws@),
            groups_view(chunks@) == g,
            forall|k: int| 0 <= k < ws@.len() ==> #[trigger] g.contains_key(ws@[k]),
            ws@.len() == 0 || ws@.len() + w - 1 == hashes@.len(),
            w > 0 || hashes@.len() < usize::MAX,
            hn == hashes@.len(),
            0 <= i <= ws@.len(),
            set@ == Set::new(
                |x: usize|
                    exists|k: int|
                        0 <= k < i && #[trigger] g[ws@[k]].len() > 1 && k + 1 <= x < k + 1 + w,
            ),
        decreases ws@.len() - i,
    {
        let h = ws[i];
        let repeated = match chunks.get(&h) {
            Some(v) => v.len() > 1,
            None => false,
        };
        proof {
            assert(g.contains_key(ws@[i as int]));
            assert(groups_view(chunks@)[h] == chunks@[h]@);
            assert(repeated == (g[ws@[i as int]].len() > 1));
        }
        let ghost before = set@;
        if repeated {
            let mut t: usize = 0;
            while t < w
                invariant
                    0 <= i < ws@.len(),
                    ws@.len() + w - 1 == hashes@.len(),
                    w > 0 || hashes@.len() < usize::MAX,
                    hn == hashes@.len(),
                    0 <= t <= w,
                    set@ == before.union(Set::new(|x: usize| i + 1 <= x < i + 1 + t)),
                decreases w - t,
            {
                set.insert(i + 1 + t);
                t = t + 1;
                proof {
                    assert(set@ =~= before.union(Set::new(|x: usize| i + 1 <= x < i + 1 + t)));
                }
            }
        }
        i = i + 1;
        proof {
            let target = Set::new(
                |x: usize|
                    exists|k: int|
                        0 <= k < i && #[trigger] g[ws@[k]].len() > 1 && k + 1 <= x < k + 1 + w,
            );
            assert(set@ =~= target) by {
                assert forall|x: usize| set@.contains(x) implies target.contains(x) by {
                    if !before.contains(x) {
                        assert(g[ws@[i - 1]].len() > 1 && i <= x < i + w);
                    } else {
                        let k = choose|k: int|
                            0 <= k < i - 1 && #[trigger] g[ws@[k]].len() > 1 && k + 1 <= x < k + 1 + w;
                        assert(g[ws@[k]].len() > 1);
                    }
                }
                assert forall|x: usize| target.contains(x) implies set@.contains(x) by {
                    let k = choose|k: int|
                        0 <= k < i && #[trigger] g[ws@[k]].len() > 1 && k + 1 <= x < k + 1 + w;
                    if k < i - 1 {
                        assert(g[ws@[k]].len() > 1);
                        assert(before.contains(x));
                    }
                }
            }
        }
    }
    set
}

/// The outcome of a repetition analysis.
pub struct RepetitionResult {
    /// How many lines lie in some repeated window of lines.
    pub duplicated_lines: usize,
    /// How many lines were compared (the pieces between `'\n'` bytes).
    pub line_count: usize,
    /// The hash of each line, without its surrounding ASCII whitespace.
    pub hashes: Vec<u64>,
}

/// The hash of each line of the content.
pub open spec fn content_line_hashes(content: Seq<u8>) -> Seq<u64> {
    let ls = split_seq(content, 10u8);
    Seq::new(ls.len(), |j: int| bytes_hash(trim_ascii(ls[j])))
}

/// Analyze content for repeated lines: the duplication percentage is
/// `duplicated_lines / line_count * 100`.
pub fn analyze_repetition(content: &[u8], window_size: usize) -> (r: RepetitionResult)
    ensures
        content@.len() == 0 || window_size == 0 ==> r.duplicated_lines == 0 && r.line_count == 0
            && r.hashes@.len() == 0,
        content@.len() > 0 && window_size > 0 ==> {
            &&& r.hashes@ == content_line_hashes(content@)
            &&& r.line_count == r.hashes@.len()
            &&& r.duplicated_lines == if r.line_count < window_size {
                0
            } else {
                duplicated_positions(r.hashes@, window_size as nat).len()
            }
        },
        r.duplicated_lines <= r.line_count,
{
    if content.len() == 0 || window_size == 0 {
        return RepetitionResult { duplicated_lines: 0, line_count: 0, hashes: Vec::new() };
    }
    let ranges = split_byte_lines(content);
    let ghost ls = split_seq(content@, 10u8);
    let mut hashes: Vec<u64> = Vec::new();
    let mut j: usize = 0;
    while j < ranges.len()
        invariant
            ls == split_seq(content@, 10u8),
            ranges@.len() == ls.len(),
            forall|t: int|
                #![trigger ranges@[t]]
                0 <= t < ranges@.len() ==> ranges@[t].0 <= ranges@[t].1 <= content@.len()
                    && content@.subrange(ranges@[t].0 as int, ranges@[t].1 as int) == ls[t],
            0 <= j <= ranges@.len(),
            hashes@ == content_line_hashes(content@).take(j as int),
        decreases ranges@.len() - j,
    {
        let (a, e) = ranges[j];
        let line = vstd::slice::slice_subrange(content, a, e);
        let t = trim_bytes(line);
        let h = hash_bytes(t);
        hashes.push(h);
        j = j + 1;
        proof {
            assert(hashes@ =~= content_line_hashes(content@).take(j as int));
        }
    }
    proof {
        assert(hashes@ =~= content_line_hashes(content@));
    }
    let line_count = hashes.len();
    if line_count < window_size {
        return RepetitionResult { duplicated_lines: 0, line_count, hashes };
    }
    let set = duplicated_set(hashes.as_slice(), window_size);
    let duplicated_lines = set.len();
    proof {
        let n = line_count as int;
        let w = window_size as int;
        let positions = Seq::new(line_count as nat, |k: int| (k + 1) as usize);
        let dup = duplicated_positions(hashes@, window_size as nat);
        assert(dup.subset_of(positions.to_set())) by {
            assert forall|x: usize| dup.contains(x) implies positions.to_set().contains(x) by {
                let ws = window_hashes(hashes@, window_size as nat);
                let g = position_groups(ws);
                let i = choose|i: int| 0 <= i < ws.len() && #[trigger] g[ws[i]].len() > 1 && i + 1 <= x < i + 1 + w;
                assert(ws.len() == n - w + 1);
                assert(positions[x - 1] == x);
            }
        }
        positions.lemma_cardinality_of_set();
        vstd::seq_lib::seq_to_set_is_finite(positions);
        vstd::set_lib::lemma_len_subset(dup, positions.to_set());
    }
    RepetitionResult { duplicated_lines, line_count, hashes }
}

} // verus!
