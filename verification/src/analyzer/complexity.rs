//! Logic for measuring code complexity and control flow depth.

use vstd::prelude::*;
use crate::text::{
    chars_of, lines_of, split_lines, lead_ws, width, char_width, char_utf8_len,
    leading_ws_from, lemma_width_take_step, lemma_lines_width, lemma_width_subrange,
};

verus! {

/// The line has only whitespace.
pub open spec fn is_blank(line: Seq<char>) -> bool {
    lead_ws(line) == line.len()
}

/// Number of tabs in `s`.
pub open spec fn tab_count(s: Seq<char>) -> nat
    decreases s.len(),
{
    if s.len() == 0 {
        0
    } else {
        tab_count(s.drop_last()) + if s.last() == '\t' {
            1nat
        } else {
            0nat
        }
    }
}

/// Number of bytes of the characters of `s` other than tabs.
pub open spec fn untabbed_width(s: Seq<char>) -> nat
    decreases s.len(),
{
    if s.len() == 0 {
        0
    } else {
        untabbed_width(s.drop_last()) + if s.last() == '\t' {
            0nat
        } else {
            char_width(s.last())
        }
    }
}

/// The indentation of a line.
pub open spec fn indentation(line: Seq<char>) -> Seq<char> {
    line.take(lead_ws(line) as int)
}

/// Nesting depth of a non-blank line: each tab of its indentation is one
/// level, and so is each `indent_size` bytes of the rest of it.
pub open spec fn line_depth(line: Seq<char>, indent_size: nat) -> nat {
    let ind = indentation(line);
    tab_count(ind) + if untabbed_width(ind) > 0 {
        untabbed_width(ind) / indent_size
    } else {
        0
    }
}

/// Whether the depth of this line is computed by dividing by `indent_size`.
pub open spec fn divides_by_indent(line: Seq<char>) -> bool {
    !is_blank(line) && untabbed_width(indentation(line)) > 0
}

/// The input on which depths are defined: a zero indent size is only
/// harmless when no non-blank line is indented with spaces.
pub open spec fn depth_defined(s: Seq<char>, indent_size: nat) -> bool {
    indent_size > 0 || forall|j: int|
        0 <= j < lines_of(s).len() ==> !divides_by_indent(#[trigger] lines_of(s)[j])
}

/// `(line number, depth)` for each non-blank line, numbered from 1.
pub open spec fn depth_entries(ls: Seq<Seq<char>>, indent_size: nat) -> Seq<(int, int)>
    decreases ls.len(),
{
    if ls.len() == 0 {
        Seq::empty()
    } else {
        let prev = depth_entries(ls.drop_last(), indent_size);
        if is_blank(ls.last()) {
            prev
        } else {
            prev.push((ls.len() as int, line_depth(ls.last(), indent_size) as int))
        }
    }
}

/// The depth entries of a text.
pub open spec fn line_depths(s: Seq<char>, indent_size: nat) -> Seq<(int, int)> {
    depth_entries(lines_of(s), indent_size)
}

/// The greatest depth among the entries, or 0.
pub open spec fn max_depth_of(es: Seq<(int, int)>) -> int
    decreases es.len(),
{
    if es.len() == 0 {
        0
    } else {
        let m = max_depth_of(es.drop_last());
        if es.last().1 > m {
            es.last().1
        } else {
            m
        }
    }
}

/// The entries whose depth exceeds `threshold`, in order.
pub open spec fn deeper_than(es: Seq<(int, int)>, threshold: int) -> Seq<(int, int)>
    decreases es.len(),
{
    if es.len() == 0 {
        Seq::empty()
    } else {
        let prev = deeper_than(es.drop_last(), threshold);
        if es.last().1 > threshold {
            prev.push(es.last())
        } else {
            prev
        }
    }
}

/// Lines deeper than a limit exist exactly when the greatest depth exceeds it.
pub proof fn lemma_deeper_iff_max_exceeds(es: Seq<(int, int)>, threshold: int)
    requires
        threshold >= 0,
    ensures
        (deeper_than(es, threshold).len() == 0) <==> max_depth_of(es) <= threshold,
    decreases es.len(),
{
    if es.len() > 0 {
        lemma_deeper_iff_max_exceeds(es.drop_last(), threshold);
    }
}

pub open spec fn pairs_view(v: Seq<(usize, usize)>) -> Seq<(int, int)> {
    v.map_values(|p: (usize, usize)| (p.0 as int, p.1 as int))
}

/// Estimates the maximum nesting depth of a file's control flow.
///
/// Analysis is based on leading whitespace indentation.
/// Each tab or `indent_size` spaces equals one nesting level.
pub fn analyze_depth(content: &str, indent_size: usize) -> (r: usize)
    requires
        depth_defined(content@, indent_size as nat),
    ensures
        r == max_depth_of(line_depths(content@, indent_size as nat)),
{
    let depths = get_line_depths(content, indent_size);
    let mut best: usize = 0;
    let mut i: usize = 0;
    let ghost es = line_depths(content@, indent_size as nat);
    proof {
        assert(es.take(0) =~= Seq::<(int, int)>::empty());
    }
    while i < depths.len()
        invariant
            0 <= i <= depths@.len(),
            pairs_view(depths@) == es,
            best == max_depth_of(es.take(i as int)),
        decreases depths@.len() - i,
    {
        proof {
            assert(es.take(i + 1).drop_last() =~= es.take(i as int));
            assert(es.take(i + 1).last() == es[i as int]);
        }
        if depths[i].1 > best {
            best = depths[i].1;
        }
        i = i + 1;
    }
    proof {
        assert(es.take(i as int) =~= es);
    }
    best
}

/// Find lines where the nesting depth exceeds a given threshold.
pub fn find_deep_lines(content: &str, indent_size: usize, threshold: usize) -> (r: Vec<(usize, usize)>)
    requires
        depth_defined(content@, indent_size as nat),
    ensures
        pairs_view(r@) == deeper_than(line_depths(content@, indent_size as nat), threshold as int),
{
    let depths = get_line_depths(content, indent_size);
    let mut out: Vec<(usize, usize)> = Vec::new();
    let mut i: usize = 0;
    let ghost es = line_depths(content@, indent_size as nat);
    proof {
        assert(es.take(0) =~= Seq::<(int, int)>::empty());
        assert(pairs_view(out@) =~= Seq::<(int, int)>::empty());
    }
    while i < depths.len()
        invariant
            0 <= i <= depths@.len(),
            pairs_view(depths@) == es,
            pairs_view(out@) == deeper_than(es.take(i as int), threshold as int),
        decreases depths@.len() - i,
    {
        proof {
            assert(es.take(i + 1).drop_last() =~= es.take(i as int));
            assert(es.take(i + 1).last() == es[i as int]);
        }
        let e = depths[i];
        if e.1 > threshold {
            out.push(e);
            proof {
                assert(pairs_view(out@) =~= deeper_than(es.take(i as int), threshold as int).push(
                    es[i as int],
                ));
            }
        }
        i = i + 1;
    }
    proof {
        assert(es.take(i as int) =~= es);
    }
    out
}

/// Internal helper to calculate depth for each non-empty line.
fn get_line_depths(content: &str, indent_size: usize) -> (r: Vec<(usize, usize)>)
    requires
        depth_defined(content@, indent_size as nat),
    ensures
        pairs_view(r@) == line_depths(content@, indent_size as nat),
{
    let total = content.as_bytes().len();
    let chars = chars_of(content);
    let lines = split_lines(&chars);
    let ghost ls = lines_of(content@);
    proof {
        lemma_lines_width(content@);
        assert(ls.take(0) =~= Seq::<Seq<char>>::empty());
        assert(pairs_view(Seq::<(usize, usize)>::empty()) =~= Seq::<(int, int)>::empty());
    }
    let mut out: Vec<(usize, usize)> = Vec::new();
    let mut i: usize = 0;
    while i < lines.len()
        invariant
            0 <= i <= lines@.len() == ls.len(),
            forall|j: int| 0 <= j < lines@.len() ==> #[trigger] lines@[j]@ == ls[j],
            forall|j: int| 0 <= j < ls.len() ==> #[trigger] width(ls[j]) <= total,
            depth_defined(content@, indent_size as nat),
            ls == lines_of(content@),
            pairs_view(out@) == depth_entries(ls.take(i as int), indent_size as nat),
        decreases lines@.len() - i,
    {
        let line = &lines[i];
        let lead = leading_ws_from(line, 0);
        proof {
            assert(line@.skip(0) =~= line@);
            assert(ls.take(i + 1).drop_last() =~= ls.take(i as int));
            assert(ls.take(i + 1).last() == ls[i as int]);
            assert(width(ls[i as int]) <= total);
        }
        if lead < line.len() {
            let mut lw: usize = 0;
            let mut tabs: usize = 0;
            let mut k: usize = 0;
            proof {
                assert(line@.take(0) =~= Seq::<char>::empty());
                assert(vstd::utf8::encode_utf8(Seq::<char>::empty()) =~= Seq::<u8>::empty());
            }
            while k < lead
                invariant
                    0 <= k <= lead < line@.len(),
                    lw == untabbed_width(line@.take(k as int)),
                    tabs == tab_count(line@.take(k as int)),
                    tabs + lw <= width(line@.take(k as int)),
                    width(line@.take(k as int)) <= width(line@),
                    width(line@) <= total,
                decreases lead - k,
            {
                proof {
                    lemma_width_take_step(line@, k as int);
                    lemma_width_subrange(line@, 0, k + 1);
                    assert(line@.take(k + 1) =~= line@.subrange(0, k + 1));
                    assert(line@.take(k + 1).drop_last() =~= line@.take(k as int));
                    assert(line@.take(k + 1).last() == line@[k as int]);
                }
                if line[k] == '\t' {
                    tabs = tabs + 1;
                } else {
                    lw = lw + char_utf8_len(line[k]);
                }
                k = k + 1;
            }
            proof {
                assert(line@.take(lead as int) == indentation(ls[i as int]));
            }
            let depth = if lw > 0 {
                proof {
                    assert(divides_by_indent(ls[i as int]));
                    assert(indent_size > 0);
                    assert(lw / indent_size <= lw) by (nonlinear_arith)
                        requires
                            indent_size > 0,
                    ;
                }
                tabs + lw / indent_size
            } else {
                tabs
            };
            out.push((i + 1, depth));
            proof {
                assert(pairs_view(out@) =~= depth_entries(ls.take(i as int), indent_size as nat).push(
                    ((i + 1) as int, depth as int),
                ));
            }
        }
        i = i + 1;
    }
    proof {
        assert(ls.take(i as int) =~= ls);
    }
    out
}

/// The depth entries of the lines are numbered by increasing line number,
/// each a line of the text.
proof fn lemma_entries_ordered(ls: Seq<Seq<char>>, indent_size: nat)
    ensures
        forall|i: int, j: int|
            0 <= i < j < depth_entries(ls, indent_size).len() ==> #[trigger] depth_entries(ls, indent_size)[i].0
                < #[trigger] depth_entries(ls, indent_size)[j].0,
        forall|i: int|
            0 <= i < depth_entries(ls, indent_size).len() ==> 1 <= #[trigger] depth_entries(ls, indent_size)[i].0
                <= ls.len(),
    decreases ls.len(),
{
    if ls.len() > 0 {
        lemma_entries_ordered(ls.drop_last(), indent_size);
        let prev = depth_entries(ls.drop_last(), indent_size);
        let es = depth_entries(ls, indent_size);
        if !is_blank(ls.last()) {
            let e = (ls.len() as int, line_depth(ls.last(), indent_size) as int);
            assert(es == prev.push(e));
            assert forall|i: int| 0 <= i < es.len() implies 1 <= #[trigger] es[i].0 <= ls.len() by {
                if i < prev.len() {
                    assert(es[i] == prev[i]);
                }
            }
            assert forall|i: int, j: int| 0 <= i < j < es.len() implies #[trigger] es[i].0 < #[trigger] es[j].0 by {
                assert(es[i] == prev[i]);
                if j < prev.len() {
                    assert(es[j] == prev[j]);
                }
            }
        }
    }
}

/// The entries deeper than a limit keep the order of the entries, come from
/// them, and are deeper than the limit but no deeper than the deepest entry.
proof fn lemma_deeper_ordered(es: Seq<(int, int)>, threshold: int)
    requires
        forall|i: int, j: int| 0 <= i < j < es.len() ==> #[trigger] es[i].0 < #[trigger] es[j].0,
    ensures
        forall|i: int, j: int|
            0 <= i < j < deeper_than(es, threshold).len() ==> #[trigger] deeper_than(es, threshold)[i].0
                < #[trigger] deeper_than(es, threshold)[j].0,
        forall|i: int|
            0 <= i < deeper_than(es, threshold).len() ==> exists|j: int|
                0 <= j < es.len() && es[j] == #[trigger] deeper_than(es, threshold)[i],
        forall|i: int|
            0 <= i < deeper_than(es, threshold).len() ==> threshold < #[trigger] deeper_than(es, threshold)[i].1
                <= max_depth_of(es),
    decreases es.len(),
{
    if es.len() > 0 {
        let p = es.drop_last();
        assert forall|i: int, j: int| 0 <= i < j < p.len() implies #[trigger] p[i].0 < #[trigger] p[j].0 by {
            assert(p[i] == es[i] && p[j] == es[j]);
        }
        lemma_deeper_ordered(p, threshold);
        let prev = deeper_than(p, threshold);
        let r = deeper_than(es, threshold);
        assert forall|i: int| 0 <= i < prev.len() implies exists|j: int| 0 <= j < es.len() && es[j] == #[trigger] prev[i] by {
            let j = choose|j: int| 0 <= j < p.len() && p[j] == prev[i];
            assert(es[j] == prev[i]);
        }
        if es.last().1 > threshold {
            assert(r == prev.push(es.last()));
            assert forall|i: int| 0 <= i < prev.len() implies #[trigger] prev[i].0 < es.last().0 by {
                let j = choose|j: int| 0 <= j < p.len() && p[j] == prev[i];
                assert(es[j] == prev[i]);
                assert(es[j].0 < es[es.len() - 1].0);
            }
            assert forall|i: int| 0 <= i < r.len() implies exists|j: int| 0 <= j < es.len() && es[j] == #[trigger] r[i] by {
                if i == prev.len() {
                    assert(es[es.len() - 1] == r[i]);
                } else {
                    assert(r[i] == prev[i]);
                }
            }
            assert forall|i: int, j: int| 0 <= i < j < r.len() implies #[trigger] r[i].0 < #[trigger] r[j].0 by {
                if j == prev.len() {
                    assert(r[i] == prev[i]);
                } else {
                    assert(r[i] == prev[i] && r[j] == prev[j]);
                }
            }
        }
    }
}

/// The deep lines of a text are listed by increasing line number; each is a
/// line of the text, deeper than the limit and no deeper than the text's
/// greatest depth.
pub proof fn lemma_deep_lines_ordered(s: Seq<char>, indent_size: nat, threshold: int)
    ensures
        forall|i: int, j: int|
            0 <= i < j < deeper_than(line_depths(s, indent_size), threshold).len() ==> #[trigger] deeper_than(
                line_depths(s, indent_size),
                threshold,
            )[i].0 < #[trigger] deeper_than(line_depths(s, indent_size), threshold)[j].0,
        forall|i: int|
            0 <= i < deeper_than(line_depths(s, indent_size), threshold).len() ==> {
                let e = #[trigger] deeper_than(line_depths(s, indent_size), threshold)[i];
                &&& 1 <= e.0 <= lines_of(s).len()
                &&& threshold < e.1 <= max_depth_of(line_depths(s, indent_size))
            },
{
    let es = line_depths(s, indent_size);
    lemma_entries_ordered(lines_of(s), indent_size);
    lemma_deeper_ordered(es, threshold);
    let r = deeper_than(es, threshold);
    assert forall|i: int| 0 <= i < r.len() implies 1 <= #[trigger] r[i].0 <= lines_of(s).len() by {
        let j = choose|j: int| 0 <= j < es.len() && es[j] == r[i];
        assert(1 <= es[j].0 <= lines_of(s).len());
    }
}

} // verus!
