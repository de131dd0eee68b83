//! Properties of whitespace normalization: the text it gives is in normal
//! form (no surrounding whitespace, no whitespace before a line break, no
//! run of more than one empty line), and a text in normal form is left as
//! it is, so normalizing twice gives what normalizing once gives.

use vstd::prelude::*;
use crate::analyzer::uncomment::{normalize_lines, normalized};
use crate::text::{is_ws, lead_ws, trail_ws, trim, trim_end, trim_start, split_seq, strip_cr, lines_of};

verus! {

/// No character of `s` is a line break.
pub open spec fn no_break(s: Seq<char>) -> bool {
    forall|i: int| 0 <= i < s.len() ==> #[trigger] s[i] != '\n'
}

/// Every line break is preceded by a line break or by a character that is
/// not whitespace.
pub open spec fn no_space_before_break(s: Seq<char>) -> bool {
    forall|i: int| 0 < i < s.len() && #[trigger] s[i] == '\n' ==> s[i - 1] == '\n' || !is_ws(s[i - 1])
}

/// No three line breaks in a row.
pub open spec fn no_triple_break(s: Seq<char>) -> bool {
    forall|i: int| 0 <= i && i + 2 < s.len() && #[trigger] s[i] == '\n' && s[i + 1] == '\n' ==> s[i + 2] != '\n'
}

/// A text in normal form: no whitespace at either end, none before a line
/// break, and no more than one empty line in a row.
pub open spec fn normal_form(s: Seq<char>) -> bool {
    &&& (s.len() > 0 ==> !is_ws(s[0]) && !is_ws(s.last()))
    &&& no_space_before_break(s)
    &&& no_triple_break(s)
}

proof fn lemma_lead_ws(s: Seq<char>)
    ensures
        lead_ws(s) <= s.len(),
        lead_ws(s) < s.len() ==> !is_ws(s[lead_ws(s) as int]),
    decreases s.len(),
{
    if s.len() > 0 && is_ws(s[0]) {
        lemma_lead_ws(s.drop_first());
    }
}

proof fn lemma_trail_ws(s: Seq<char>)
    ensures
        trail_ws(s) <= s.len(),
        trail_ws(s) < s.len() ==> !is_ws(s[s.len() - trail_ws(s) - 1]),
    decreases s.len(),
{
    if s.len() > 0 && is_ws(s.last()) {
        lemma_trail_ws(s.drop_last());
    }
}

/// What `trim` leaves is a piece of the text that neither begins nor ends
/// with whitespace.
proof fn lemma_trim(s: Seq<char>)
    ensures
        exists|a: int, b: int| 0 <= a <= b <= s.len() && trim(s) == s.subrange(a, b),
        trim(s).len() > 0 ==> !is_ws(trim(s)[0]) && !is_ws(trim(s).last()),
{
    lemma_lead_ws(s);
    let u = trim_start(s);
    lemma_trail_ws(u);
    let l = lead_ws(s) as int;
    let t = trim(s);
    let e = u.len() - trail_ws(u);
    assert(t == u.take(e));
    assert(t =~= s.subrange(l, l + e));
    if t.len() > 0 {
        assert(t[0] == s[l]);
        assert(t.last() == u[e - 1]);
    }
}

/// A text that neither begins nor ends with whitespace is its own trim.
proof fn lemma_trim_unchanged(s: Seq<char>)
    requires
        s.len() > 0 ==> !is_ws(s[0]) && !is_ws(s.last()),
    ensures
        trim(s) == s,
{
    assert(lead_ws(s) == 0);
    assert(s.skip(0) =~= s);
    assert(trail_ws(s) == 0);
    assert(s.take(s.len() as int) =~= s);
}

/// A text without line breaks is one piece.
proof fn lemma_split_single(b: Seq<char>)
    requires
        no_break(b),
    ensures
        split_seq(b, '\n') == seq![b],
    decreases b.len(),
{
    if b.len() > 0 {
        lemma_split_single(b.drop_last());
        assert(b.drop_last().push(b.last()) =~= b);
        assert(split_seq(b, '\n') =~= seq![b]);
    } else {
        assert(b =~= Seq::<char>::empty());
        assert(split_seq(b, '\n') =~= seq![b]);
    }
}

/// Splitting `a`, a line break and a text `b` without one gives the pieces
/// of `a` and then `b`.
proof fn lemma_split_last_piece(a: Seq<char>, b: Seq<char>)
    requires
        no_break(b),
    ensures
        split_seq(a.push('\n') + b, '\n') == split_seq(a, '\n').push(b),
    decreases b.len(),
{
    let t = a.push('\n') + b;
    if b.len() == 0 {
        assert(t =~= a.push('\n'));
        assert(t.drop_last() =~= a);
        assert(Seq::<char>::empty() =~= b);
    } else {
        lemma_split_last_piece(a, b.drop_last());
        assert(t.drop_last() =~= a.push('\n') + b.drop_last());
        assert(b.drop_last().push(b.last()) =~= b);
        assert(split_seq(t, '\n') =~= split_seq(a, '\n').push(b));
    }
}

/// The pieces of a split hold no line break.
proof fn lemma_split_pieces(s: Seq<char>)
    ensures
        forall|j: int| 0 <= j < split_seq(s, '\n').len() ==> no_break(#[trigger] split_seq(s, '\n')[j]),
    decreases s.len(),
{
    if s.len() > 0 {
        lemma_split_pieces(s.drop_last());
        let prev = split_seq(s.drop_last(), '\n');
        crate::text::lemma_split_seq_nonempty(s.drop_last(), '\n');
        if s.last() != '\n' {
            let g = split_seq(s, '\n');
            assert forall|j: int| 0 <= j < g.len() implies no_break(#[trigger] g[j]) by {
                if j == g.len() - 1 {
                    assert(no_break(prev.last()));
                    assert(g[j] == prev.last().push(s.last()));
                    assert forall|i: int| 0 <= i < g[j].len() implies #[trigger] g[j][i] != '\n' by {
                        if i < prev.last().len() {
                            assert(g[j][i] == prev.last()[i]);
                        }
                    }
                } else {
                    assert(g[j] == prev[j]);
                }
            }
        } else {
            let g = split_seq(s, '\n');
            assert forall|j: int| 0 <= j < g.len() implies no_break(#[trigger] g[j]) by {
                if j < prev.len() {
                    assert(g[j] == prev[j]);
                }
            }
        }
    }
}

/// Position of the last line break of `s`, or -1 when there is none.
spec fn last_break(s: Seq<char>) -> int
    decreases s.len(),
{
    if s.len() == 0 {
        -1
    } else if s.last() == '\n' {
        s.len() - 1
    } else {
        last_break(s.drop_last())
    }
}

proof fn lemma_last_break(s: Seq<char>)
    ensures
        -1 <= last_break(s) < s.len(),
        last_break(s) >= 0 ==> s[last_break(s)] == '\n',
        forall|j: int| last_break(s) < j < s.len() ==> #[trigger] s[j] != '\n',
    decreases s.len(),
{
    if s.len() > 0 && s.last() != '\n' {
        lemma_last_break(s.drop_last());
        assert forall|j: int| last_break(s) < j < s.len() implies #[trigger] s[j] != '\n' by {
            if j < s.len() - 1 {
                assert(s.drop_last()[j] == s[j]);
            }
        }
    }
}

/// A text that can begin a text in normal form, up to and including a line
/// break.
spec fn prefix_form(t: Seq<char>) -> bool {
    &&& t.len() > 0
    &&& !is_ws(t[0])
    &&& (t.last() == '\n' || !is_ws(t.last()))
    &&& no_space_before_break(t)
    &&& no_triple_break(t)
    &&& !(t.len() >= 2 && t.last() == '\n' && t[t.len() - 2] == '\n')
}

/// Whitespace normalization rebuilds such a text from its pieces.
proof fn lemma_normalize_prefix(t: Seq<char>)
    requires
        prefix_form(t),
    ensures
        normalize_lines(split_seq(t, '\n')) == (t, t.last() == '\n'),
        forall|j: int|
            0 <= j < split_seq(t, '\n').len() && (#[trigger] split_seq(t, '\n')[j]).len() > 0 ==> !is_ws(
                split_seq(t, '\n')[j].last(),
            ),
        t.last() != '\n' ==> split_seq(t, '\n').last().len() > 0,
    decreases t.len(),
{
    lemma_last_break(t);
    let i = last_break(t);
    if i < 0 {
        assert(no_break(t));
        lemma_split_single(t);
        let g = split_seq(t, '\n');
        assert(g.drop_last() =~= Seq::<Seq<char>>::empty());
        assert(trail_ws(t) == 0);
        assert(trim_end(t) =~= t);
        assert(Seq::<char>::empty() + t =~= t);
        assert(normalize_lines(g.drop_last()) == (Seq::<char>::empty(), false));
        assert(g.last() == t);
        assert(t.last() != '\n');
        assert(normalize_lines(g) == (t, false));
    } else {
        let a = t.take(i);
        let b = t.skip(i + 1);
        assert(t =~= a.push('\n') + b);
        assert(no_break(b)) by {
            assert forall|k: int| 0 <= k < b.len() implies #[trigger] b[k] != '\n' by {
                assert(b[k] == t[i + 1 + k]);
            }
        }
        lemma_split_last_piece(a, b);
        assert(is_ws('\n'));
        assert(i > 0);
        assert(a[0] == t[0]);
        assert(t[i] == '\n');
        assert(a.last() == t[i - 1]);
        assert(no_space_before_break(a)) by {
            assert forall|k: int| 0 < k < a.len() && #[trigger] a[k] == '\n' implies a[k - 1] == '\n' || !is_ws(a[k - 1]) by {
                assert(a[k] == t[k] && a[k - 1] == t[k - 1]);
            }
        }
        assert(no_triple_break(a)) by {
            assert forall|k: int| 0 <= k && k + 2 < a.len() && #[trigger] a[k] == '\n' && a[k + 1] == '\n' implies a[k + 2] != '\n' by {
                assert(a[k] == t[k] && a[k + 1] == t[k + 1] && a[k + 2] == t[k + 2]);
            }
        }
        if a.len() >= 2 && a.last() == '\n' && a[a.len() - 2] == '\n' {
            assert(t[i - 2] == '\n' && t[i - 1] == '\n' && t[i] == '\n');
        }
        lemma_normalize_prefix(a);
        let g = split_seq(t, '\n');
        let ga = split_seq(a, '\n');
        assert(g == ga.push(b));
        assert(g.drop_last() =~= ga);
        assert(g.last() == b);
        assert(normalize_lines(ga) == (a, a.last() == '\n'));
        if b.len() == 0 {
            assert(trim_end(b) =~= b);
            assert(t =~= a.push('\n'));
            if a.last() == '\n' {
                assert(t[t.len() - 2] == '\n');
            }
            assert(normalize_lines(g) == (a.push('\n'), true));
        } else {
            assert(b.last() == t.last());
            assert(trail_ws(b) == 0);
            assert(trim_end(b) =~= b);
            assert(normalize_lines(g) == (a.push('\n') + b, false));
        }
        assert forall|j: int| 0 <= j < g.len() && (#[trigger] g[j]).len() > 0 implies !is_ws(g[j].last()) by {
            if j < ga.len() {
                assert(g[j] == ga[j]);
            }
        }
    }
}

/// A text in normal form is left as it is by whitespace normalization.
pub proof fn lemma_normal_form_unchanged(t: Seq<char>)
    requires
        normal_form(t),
    ensures
        normalized(t) == t,
{
    let g = split_seq(t, '\n');
    if t.len() == 0 {
        assert(g =~= seq![Seq::<char>::empty()]);
        assert(lines_of(t) =~= Seq::<Seq<char>>::empty());
        assert(trim(Seq::<char>::empty()) =~= Seq::<char>::empty()) by {
            lemma_trim_unchanged(Seq::<char>::empty());
        }
    } else {
        assert(is_ws('\n'));
        assert(is_ws('\r'));
        lemma_normalize_prefix(t);
        crate::text::lemma_split_seq_nonempty(t, '\n');
        assert(lines_of(t) =~= g) by {
            assert forall|j: int| 0 <= j < g.len() - 1 implies strip_cr(#[trigger] g[j]) == g[j] by {
                if g[j].len() > 0 {
                    assert(!is_ws(g[j].last()));
                }
            }
        }
        lemma_trim_unchanged(t);
    }
}

/// The shape of what whitespace normalization has built after some lines.
spec fn built_form(res: Seq<char>, last_empty: bool) -> bool {
    &&& last_empty <==> (res.len() > 0 && res.last() == '\n')
    &&& (res.len() > 0 && res.last() != '\n' ==> !is_ws(res.last()))
    &&& no_space_before_break(res)
    &&& no_triple_break(res)
    &&& !(res.len() >= 2 && res.last() == '\n' && res[res.len() - 2] == '\n')
}

/// A line without its trailing whitespace holds no line break and, unless
/// empty, ends with a character that is not whitespace.
proof fn lemma_trim_end_line(l: Seq<char>)
    requires
        no_break(l),
    ensures
        no_break(trim_end(l)),
        trim_end(l).len() > 0 ==> !is_ws(trim_end(l).last()),
{
    lemma_trail_ws(l);
    let t = trim_end(l);
    assert forall|k: int| 0 <= k < t.len() implies #[trigger] t[k] != '\n' by {
        assert(t[k] == l[k]);
    }
}

/// Whitespace normalization keeps what it builds in shape.
proof fn lemma_normalize_built(ls: Seq<Seq<char>>)
    requires
        forall|j: int| 0 <= j < ls.len() ==> no_break(#[trigger] ls[j]),
    ensures
        built_form(normalize_lines(ls).0, normalize_lines(ls).1),
    decreases ls.len(),
{
    if ls.len() == 0 {
        return;
    }
    let p = ls.drop_last();
    assert forall|j: int| 0 <= j < p.len() implies no_break(#[trigger] p[j]) by {
        assert(p[j] == ls[j]);
    }
    lemma_normalize_built(p);
    let (res, le) = normalize_lines(p);
    assert(no_break(ls[ls.len() - 1]));
    lemma_trim_end_line(ls.last());
    let t = trim_end(ls.last());
    assert(is_ws('\n'));
    if t.len() == 0 {
        if !le {
            let r2 = res.push('\n');
            assert(normalize_lines(ls) == (r2, true));
            assert forall|k: int| 0 < k < r2.len() && #[trigger] r2[k] == '\n' implies r2[k - 1] == '\n' || !is_ws(r2[k - 1]) by {
                if k < res.len() {
                    assert(r2[k] == res[k] && r2[k - 1] == res[k - 1]);
                } else {
                    assert(r2[k - 1] == res.last());
                }
            }
            assert forall|k: int| 0 <= k && k + 2 < r2.len() && #[trigger] r2[k] == '\n' && r2[k + 1] == '\n' implies r2[k + 2] != '\n' by {
                if k + 2 < res.len() {
                    assert(r2[k] == res[k] && r2[k + 1] == res[k + 1] && r2[k + 2] == res[k + 2]);
                } else {
                    assert(r2[k + 1] == res.last());
                }
            }
        } else {
            assert(normalize_lines(ls) == (res, true));
        }
    } else if res.len() > 0 {
        let r2 = res.push('\n') + t;
        let n = res.len() as int;
        assert(normalize_lines(ls) == (r2, false));
        assert(r2[n] == '\n');
        assert forall|k: int| 0 <= k < t.len() implies #[trigger] r2[n + 1 + k] == t[k] by {}
        assert forall|k: int| 0 <= k < n implies #[trigger] r2[k] == res[k] by {}
        assert(r2.last() == t.last());
        assert(t[0] != '\n');
        assert forall|k: int| 0 < k < r2.len() && #[trigger] r2[k] == '\n' implies r2[k - 1] == '\n' || !is_ws(r2[k - 1]) by {
            if k < n {
                assert(r2[k] == res[k] && r2[k - 1] == res[k - 1]);
            } else if k == n {
                assert(r2[k - 1] == res.last());
            } else {
                assert(r2[k] == t[k - n - 1]);
            }
        }
        assert forall|k: int| 0 <= k && k + 2 < r2.len() && #[trigger] r2[k] == '\n' && r2[k + 1] == '\n' implies r2[k + 2] != '\n' by {
            if k + 2 < n {
                assert(r2[k] == res[k] && r2[k + 1] == res[k + 1] && r2[k + 2] == res[k + 2]);
            } else if k + 2 == n {
                assert(r2[k] == res[n - 2] && r2[k + 1] == res[n - 1]);
            } else if k + 1 == n {
                assert(r2[k + 2] == t[0]);
            } else if k == n {
                assert(r2[k + 1] == t[0]);
            } else {
                assert(r2[k] == t[k - n - 1]);
            }
        }
    } else {
        assert(normalize_lines(ls) == (res + t, false));
        assert(res + t =~= t);
        assert(t.last() != '\n');
    }
}

/// Whitespace normalization gives a text in normal form.
pub proof fn lemma_normalized_in_normal_form(s: Seq<char>)
    ensures
        normal_form(normalized(s)),
{
    let g = split_seq(s, '\n');
    let ls = lines_of(s);
    lemma_split_pieces(s);
    crate::text::lemma_split_seq_nonempty(s, '\n');
    assert(ls.len() <= g.len());
    assert forall|j: int| 0 <= j < ls.len() implies no_break(#[trigger] ls[j]) by {
        assert(no_break(g[j]));
        assert(ls[j] == strip_cr(g[j]) || ls[j] == g[j]);
        let l = ls[j];
        assert forall|k: int| 0 <= k < l.len() implies #[trigger] l[k] != '\n' by {
            assert(l[k] == g[j][k]);
        }
    }
    lemma_normalize_built(ls);
    let r = normalize_lines(ls).0;
    lemma_trim(r);
    let t = trim(r);
    let (a, b) = choose|a: int, b: int| 0 <= a <= b <= r.len() && t == r.subrange(a, b);
    assert forall|k: int| 0 < k < t.len() && #[trigger] t[k] == '\n' implies t[k - 1] == '\n' || !is_ws(t[k - 1]) by {
        assert(t[k] == r[a + k] && t[k - 1] == r[a + k - 1]);
    }
    assert forall|k: int| 0 <= k && k + 2 < t.len() && #[trigger] t[k] == '\n' && t[k + 1] == '\n' implies t[k + 2] != '\n' by {
        assert(t[k] == r[a + k] && t[k + 1] == r[a + k + 1] && t[k + 2] == r[a + k + 2]);
    }
}

/// Normalizing whitespace twice gives what normalizing once gives.
pub proof fn lemma_normalized_idempotent(s: Seq<char>)
    ensures
        normalized(normalized(s)) == normalized(s),
{
    lemma_normalized_in_normal_form(s);
    lemma_normal_form_unchanged(normalized(s));
}

} // verus!
