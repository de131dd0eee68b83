//! Text model shared by the analyzers: lines, whitespace, prefixes and
//! substrings, stated over `Seq<char>` (for `&str` input) and `Seq<u8>`
//! (for raw file bytes).

use vstd::prelude::*;
use vstd::std_specs::iter::IteratorSpec;
use vstd::string::StringSliceAdditionalSpecFns;

verus! {

/// Unicode `White_Space` (the property that `char::is_whitespace` tests).
pub open spec fn is_ws(c: char) -> bool {
    let u = c as u32;
    ||| (0x9 <= u && u <= 0xD)
    ||| u == 0x20
    ||| u == 0x85
    ||| u == 0xA0
    ||| u == 0x1680
    ||| (0x2000 <= u && u <= 0x200A)
    ||| u == 0x2028
    ||| u == 0x2029
    ||| u == 0x202F
    ||| u == 0x205F
    ||| u == 0x3000
}

/// ASCII whitespace as `u8::is_ascii_whitespace` defines it.
pub open spec fn is_ascii_ws(b: u8) -> bool {
    b == 0x20 || b == 0x09 || b == 0x0A || b == 0x0C || b == 0x0D
}

pub fn is_whitespace(c: char) -> (b: bool)
    ensures
        b == is_ws(c),
{
    let u = c as u32;
    (0x9 <= u && u <= 0xD) || u == 0x20 || u == 0x85 || u == 0xA0 || u == 0x1680 || (0x2000 <= u
        && u <= 0x200A) || u == 0x2028 || u == 0x2029 || u == 0x202F || u == 0x205F || u == 0x3000
}

pub fn is_ascii_whitespace(b: u8) -> (r: bool)
    ensures
        r == is_ascii_ws(b),
{
    b == 0x20 || b == 0x09 || b == 0x0A || b == 0x0C || b == 0x0D
}

/// The pieces of `s` between occurrences of `sep`, as `split` yields them:
/// there is always at least one piece, and `n` separators give `n + 1` pieces.
pub open spec fn split_seq<T>(s: Seq<T>, sep: T) -> Seq<Seq<T>>
    decreases s.len(),
{
    if s.len() == 0 {
        seq![Seq::empty()]
    } else {
        let prev = split_seq(s.drop_last(), sep);
        if s.last() == sep {
            prev.push(Seq::empty())
        } else {
            prev.update(prev.len() - 1, prev.last().push(s.last()))
        }
    }
}

pub proof fn lemma_split_seq_nonempty<T>(s: Seq<T>, sep: T)
    ensures
        split_seq(s, sep).len() >= 1,
    decreases s.len(),
{
    if s.len() > 0 {
        lemma_split_seq_nonempty(s.drop_last(), sep);
    }
}

/// Removes one `'\r'` at the end of a line.
pub open spec fn strip_cr(l: Seq<char>) -> Seq<char> {
    if l.len() > 0 && l.last() == '\r' {
        l.drop_last()
    } else {
        l
    }
}

/// The lines of a text as `str::lines` yields them: pieces separated by `'\n'`,
/// each terminated piece without one trailing `'\r'`, and no final empty piece.
pub open spec fn lines_of(s: Seq<char>) -> Seq<Seq<char>> {
    let g = split_seq(s, '\n');
    let n = g.len() as int;
    let k = if g.last().len() == 0 {
        n - 1
    } else {
        n
    };
    Seq::new(
        k as nat,
        |j: int|
            if j < n - 1 {
                strip_cr(g[j])
            } else {
                g[j]
            },
    )
}

/// Number of whitespace characters at the start of `s`.
pub open spec fn lead_ws(s: Seq<char>) -> nat
    decreases s.len(),
{
    if s.len() == 0 || !is_ws(s[0]) {
        0
    } else {
        1 + lead_ws(s.drop_first())
    }
}

/// Number of whitespace characters at the end of `s`.
pub open spec fn trail_ws(s: Seq<char>) -> nat
    decreases s.len(),
{
    if s.len() == 0 || !is_ws(s.last()) {
        0
    } else {
        1 + trail_ws(s.drop_last())
    }
}

/// `str::trim_start`.
pub open spec fn trim_start(s: Seq<char>) -> Seq<char> {
    s.skip(lead_ws(s) as int)
}

/// `str::trim_end`.
pub open spec fn trim_end(s: Seq<char>) -> Seq<char> {
    s.take(s.len() - trail_ws(s))
}

/// `str::trim`.
pub open spec fn trim(s: Seq<char>) -> Seq<char> {
    trim_end(trim_start(s))
}

pub open spec fn starts_with<T>(s: Seq<T>, p: Seq<T>) -> bool {
    p.len() <= s.len() && s.subrange(0, p.len() as int) == p
}

/// `p` occurs in `s` at position `i`.
pub open spec fn occurs_at<T>(s: Seq<T>, p: Seq<T>, i: int) -> bool {
    0 <= i && i + p.len() <= s.len() && s.subrange(i, i + p.len()) == p
}

pub open spec fn contains_seq<T>(s: Seq<T>, p: Seq<T>) -> bool {
    exists|i: int| occurs_at(s, p, i)
}

/// The first position at or after `i` where `p` occurs in `s`.
pub open spec fn find_from<T>(s: Seq<T>, p: Seq<T>, i: int) -> Option<int>
    decreases s.len() + 1 - i,
{
    if i < 0 || i + p.len() > s.len() {
        None
    } else if occurs_at(s, p, i) {
        Some(i)
    } else {
        find_from(s, p, i + 1)
    }
}

pub proof fn lemma_find_from<T>(s: Seq<T>, p: Seq<T>, i: int)
    requires
        0 <= i,
    ensures
        find_from(s, p, i) is None ==> forall|j: int| i <= j ==> !occurs_at(s, p, j),
        find_from(s, p, i) matches Some(k) ==> i <= k && occurs_at(s, p, k) && forall|j: int|
            i <= j < k ==> !occurs_at(s, p, j),
    decreases s.len() + 1 - i,
{
    if i + p.len() <= s.len() && !occurs_at(s, p, i) {
        lemma_find_from(s, p, i + 1);
    }
}

/// Length in bytes of the UTF-8 encoding of `s`.
pub open spec fn width(s: Seq<char>) -> nat {
    vstd::utf8::encode_utf8(s).len()
}

/// Length in bytes of the UTF-8 encoding of one character.
pub open spec fn char_width(c: char) -> nat {
    let u = c as u32;
    if u <= 0x7F {
        1
    } else if u <= 0x7FF {
        2
    } else if u <= 0xFFFF {
        3
    } else {
        4
    }
}

pub fn char_utf8_len(c: char) -> (r: usize)
    ensures
        r == char_width(c),
{
    let u = c as u32;
    if u <= 0x7F {
        1
    } else if u <= 0x7FF {
        2
    } else if u <= 0xFFFF {
        3
    } else {
        4
    }
}

pub proof fn lemma_width_concat(a: Seq<char>, b: Seq<char>)
    ensures
        width(a + b) == width(a) + width(b),
    decreases a.len(),
{
    if a.len() > 0 {
        assert((a + b).drop_first() =~= a.drop_first() + b);
        assert((a + b)[0] == a[0]);
        lemma_width_concat(a.drop_first(), b);
    } else {
        assert(a + b =~= b);
    }
}

pub proof fn lemma_width_char(c: char)
    ensures
        width(seq![c]) == char_width(c),
{
    vstd::utf8::char_is_scalar(c);
    assert(seq![c].drop_first() =~= Seq::<char>::empty());
    assert(seq![c][0] == c);
    assert(vstd::utf8::encode_utf8(Seq::<char>::empty()) =~= Seq::<u8>::empty());
    assert(vstd::utf8::encode_utf8(seq![c]) =~= vstd::utf8::encode_scalar(c as u32));
    assert(vstd::utf8::encode_scalar(c as u32).len() == char_width(c));
}

/// The width of a prefix grows by one character at a time.
pub proof fn lemma_width_take_step(s: Seq<char>, k: int)
    requires
        0 <= k < s.len(),
    ensures
        width(s.take(k + 1)) == width(s.take(k)) + char_width(s[k]),
{
    assert(s.take(k + 1) =~= s.take(k) + seq![s[k]]);
    lemma_width_concat(s.take(k), seq![s[k]]);
    lemma_width_char(s[k]);
}

pub proof fn lemma_width_subrange(s: Seq<char>, a: int, b: int)
    requires
        0 <= a <= b <= s.len(),
    ensures
        width(s.subrange(a, b)) <= width(s),
{
    assert(s =~= s.take(a) + s.subrange(a, b) + s.skip(b));
    lemma_width_concat(s.take(a) + s.subrange(a, b), s.skip(b));
    lemma_width_concat(s.take(a), s.subrange(a, b));
}

/// No piece of a split is wider than the whole.
pub proof fn lemma_split_width(s: Seq<char>)
    ensures
        forall|j: int|
            0 <= j < split_seq(s, '\n').len() ==> #[trigger] width(split_seq(s, '\n')[j])
                <= width(s),
    decreases s.len(),
{
    if s.len() > 0 {
        let p = s.drop_last();
        lemma_split_width(p);
        lemma_split_seq_nonempty(p, '\n');
        assert(s =~= p + seq![s.last()]);
        lemma_width_concat(p, seq![s.last()]);
        let g = split_seq(s, '\n');
        let pg = split_seq(p, '\n');
        assert forall|j: int| 0 <= j < g.len() implies #[trigger] width(g[j]) <= width(s) by {
            if s.last() != '\n' && j == pg.len() - 1 {
                lemma_width_concat(pg.last(), seq![s.last()]);
                assert(pg.last().push(s.last()) =~= pg.last() + seq![s.last()]);
            } else if j < pg.len() {
                assert(width(pg[j]) <= width(p));
            } else {
                assert(g[j] =~= Seq::<char>::empty());
            }
        }
    }
}

/// No line is wider than the whole text.
pub proof fn lemma_lines_width(s: Seq<char>)
    ensures
        forall|j: int|
            0 <= j < lines_of(s).len() ==> #[trigger] width(lines_of(s)[j]) <= width(s),
{
    lemma_split_width(s);
    lemma_split_seq_nonempty(s, '\n');
    let g = split_seq(s, '\n');
    assert forall|j: int| 0 <= j < lines_of(s).len() implies #[trigger] width(lines_of(s)[j])
        <= width(s) by {
        assert(width(g[j]) <= width(s));
        if g[j].len() > 0 && g[j].last() == '\r' {
            lemma_width_subrange(g[j], 0, g[j].len() - 1);
            assert(g[j].drop_last() =~= g[j].subrange(0, g[j].len() - 1));
        }
    }
}

/// The characters of each string of a list.
pub fn strs_chars(xs: &[&str]) -> (r: Vec<Vec<char>>)
    ensures
        r@.len() == xs@.len(),
        forall|j: int| 0 <= j < xs@.len() ==> #[trigger] r@[j]@ == xs@[j]@,
{
    let mut r: Vec<Vec<char>> = Vec::new();
    let mut i: usize = 0;
    while i < xs.len()
        invariant
            0 <= i <= xs@.len(),
            r@.len() == i,
            forall|j: int| 0 <= j < i ==> #[trigger] r@[j]@ == xs@[j]@,
        decreases xs@.len() - i,
    {
        r.push(chars_of(xs[i]));
        i = i + 1;
    }
    r
}

/// `p` occurs at position `k` of `s` exactly when the rest of `s` from `k` starts with `p`.
pub proof fn lemma_occurs_at_skip<T>(s: Seq<T>, p: Seq<T>, k: int)
    requires
        0 <= k <= s.len(),
    ensures
        occurs_at(s, p, k) == starts_with(s.skip(k), p),
{
    if p.len() + k <= s.len() {
        assert(s.skip(k).subrange(0, p.len() as int) =~= s.subrange(k, k + p.len()));
    }
}

/// Searching `s` from `k` on is searching what follows position `k`.
pub proof fn lemma_find_from_skip<T>(s: Seq<T>, p: Seq<T>, k: int)
    requires
        0 <= k <= s.len(),
    ensures
        (find_from(s, p, k) is Some) == contains_seq(s.skip(k), p),
{
    lemma_find_from(s, p, k);
    lemma_find_from(s.skip(k), p, 0);
    if find_from(s, p, k) is Some {
        let i = find_from(s, p, k)->0;
        assert(s.skip(k).subrange(i - k, i - k + p.len()) =~= s.subrange(i, i + p.len()));
        assert(occurs_at(s.skip(k), p, i - k));
    }
    if contains_seq(s.skip(k), p) {
        let i = choose|i: int| occurs_at(s.skip(k), p, i);
        assert(s.skip(k).subrange(i, i + p.len()) =~= s.subrange(i + k, i + k + p.len()));
        assert(occurs_at(s, p, i + k));
    }
}

/// The characters of a string slice.
pub fn chars_of(s: &str) -> (v: Vec<char>)
    ensures
        v@ == s@,
{
    let mut v: Vec<char> = Vec::new();
    for c in it: s.chars()
        invariant
            v@ == it.seq().take(it.index() as int),
            it.seq() == s@,
    {
        v.push(c);
    }
    v
}

/// The lines of a character sequence, as `lines_of` states them.
pub fn split_lines(chars: &Vec<char>) -> (ls: Vec<Vec<char>>)
    ensures
        ls@.len() == lines_of(chars@).len(),
        forall|j: int| 0 <= j < ls@.len() ==> #[trigger] ls@[j]@ == lines_of(chars@)[j],
{
    let mut out: Vec<Vec<char>> = Vec::new();
    let mut cur: Vec<char> = Vec::new();
    let n = chars.len();
    let mut i: usize = 0;
    proof {
        assert(chars@.take(0) =~= Seq::<char>::empty());
    }
    while i < n
        invariant
            n == chars@.len(),
            0 <= i <= n,
            split_seq(chars@.take(i as int), '\n').len() == out@.len() + 1,
            forall|j: int|
                0 <= j < out@.len() ==> #[trigger] out@[j]@ == strip_cr(
                    split_seq(chars@.take(i as int), '\n')[j],
                ),
            cur@ == split_seq(chars@.take(i as int), '\n').last(),
        decreases n - i,
    {
        let c = chars[i];
        let ghost before = chars@.take(i as int);
        proof {
            assert(chars@.take(i + 1).drop_last() =~= before);
            lemma_split_seq_nonempty(before, '\n');
        }
        if c == '\n' {
            let mut line = cur;
            let len = line.len();
            if len > 0 && line[len - 1] == '\r' {
                line.pop();
            }
            proof {
                assert(line@ =~= strip_cr(split_seq(before, '\n').last()));
            }
            out.push(line);
            cur = Vec::new();
            i = i + 1;
            proof {
                let g = split_seq(chars@.take(i as int), '\n');
                assert(g == split_seq(before, '\n').push(Seq::empty()));
                assert forall|j: int| 0 <= j < out@.len() implies #[trigger] out@[j]@ == strip_cr(
                    g[j],
                ) by {
                    if j < out@.len() - 1 {
                    }
                }
                assert(cur@ =~= g.last());
            }
        } else {
            cur.push(c);
            i = i + 1;
            proof {
                let g = split_seq(chars@.take(i as int), '\n');
                let pg = split_seq(before, '\n');
                assert(g == pg.update(pg.len() - 1, pg.last().push(c)));
                assert forall|j: int| 0 <= j < out@.len() implies #[trigger] out@[j]@ == strip_cr(
                    g[j],
                ) by {}
            }
        }
    }
    proof {
        assert(chars@.take(n as int) =~= chars@);
    }
    let ghost g = split_seq(chars@, '\n');
    if cur.len() > 0 {
        out.push(cur);
        proof {
            assert forall|j: int| 0 <= j < out@.len() implies #[trigger] out@[j]@ == lines_of(
                chars@,
            )[j] by {}
        }
    } else {
        proof {
            assert forall|j: int| 0 <= j < out@.len() implies #[trigger] out@[j]@ == lines_of(
                chars@,
            )[j] by {}
        }
    }
    out
}

/// Number of leading whitespace characters of `s` from position `start` on.
pub fn leading_ws_from(s: &Vec<char>, start: usize) -> (r: usize)
    requires
        start <= s@.len(),
    ensures
        r == lead_ws(s@.skip(start as int)),
        start + r <= s@.len(),
{
    let n = s.len();
    let mut i = start;
    while i < n && is_whitespace(s[i])
        invariant
            start <= i <= n == s@.len(),
            lead_ws(s@.skip(start as int)) == (i - start) + lead_ws(s@.skip(i as int)),
        decreases n - i,
    {
        proof {
            assert(s@.skip(i as int).drop_first() =~= s@.skip(i + 1));
        }
        i = i + 1;
    }
    proof {
        if i < n {
            assert(s@.skip(i as int)[0] == s@[i as int]);
        }
    }
    i - start
}

/// Number of trailing whitespace characters of `s`.
pub fn trailing_ws(s: &Vec<char>) -> (r: usize)
    ensures
        r == trail_ws(s@),
        r <= s@.len(),
{
    let mut k = s.len();
    proof {
        assert(s@.take(k as int) =~= s@);
    }
    while k > 0 && is_whitespace(s[k - 1])
        invariant
            k <= s@.len(),
            trail_ws(s@) == (s@.len() - k) + trail_ws(s@.take(k as int)),
        decreases k,
    {
        proof {
            assert(s@.take(k as int).drop_last() =~= s@.take(k - 1));
        }
        k = k - 1;
    }
    proof {
        if k > 0 {
            assert(s@.take(k as int).last() == s@[k - 1]);
        }
    }
    s.len() - k
}

/// String equality, decided on the UTF-8 bytes.
pub fn str_eq(a: &str, b: &str) -> (r: bool)
    ensures
        r == (a@ == b@),
{
    let x = a.as_bytes();
    let y = b.as_bytes();
    let n = x.len();
    proof {
        vstd::utf8::encode_utf8_decode_utf8(a@);
        vstd::utf8::encode_utf8_decode_utf8(b@);
    }
    if n != y.len() {
        return false;
    }
    let mut i: usize = 0;
    while i < n
        invariant
            n == x@.len() == y@.len(),
            x@ == a.spec_bytes(),
            y@ == b.spec_bytes(),
            0 <= i <= n,
            forall|j: int| 0 <= j < i ==> x@[j] == y@[j],
        decreases n - i,
    {
        if x[i] != y[i] {
            proof {
                if a@ == b@ {
                    assert(x@ == y@);
                }
            }
            return false;
        }
        i = i + 1;
    }
    proof {
        assert(x@ =~= y@);
    }
    true
}

/// The characters of `s` from `start` up to `end`.
pub fn copy_range(s: &Vec<char>, start: usize, end: usize) -> (r: Vec<char>)
    requires
        start <= end <= s@.len(),
    ensures
        r@ == s@.subrange(start as int, end as int),
{
    let mut r: Vec<char> = Vec::new();
    let mut i = start;
    while i < end
        invariant
            start <= i <= end <= s@.len(),
            r@ == s@.subrange(start as int, i as int),
        decreases end - i,
    {
        r.push(s[i]);
        i = i + 1;
        proof {
            assert(r@ =~= s@.subrange(start as int, i as int));
        }
    }
    r
}

/// `s` without leading and trailing whitespace.
pub fn trimmed(s: &Vec<char>) -> (r: Vec<char>)
    ensures
        r@ == trim(s@),
{
    let lead = leading_ws_from(s, 0);
    proof {
        assert(s@.skip(0) =~= s@);
    }
    let rest = copy_range(s, lead, s.len());
    proof {
        assert(rest@ =~= trim_start(s@));
    }
    let tail = trailing_ws(&rest);
    let r = copy_range(&rest, 0, rest.len() - tail);
    proof {
        assert(r@ =~= trim_end(rest@));
    }
    r
}

/// `s` without trailing whitespace.
pub fn trimmed_end(s: &Vec<char>) -> (r: Vec<char>)
    ensures
        r@ == trim_end(s@),
{
    let tail = trailing_ws(s);
    let r = copy_range(s, 0, s.len() - tail);
    proof {
        assert(r@ =~= trim_end(s@));
    }
    r
}

/// Equality of character sequences.
pub fn chars_eq(a: &Vec<char>, b: &Vec<char>) -> (r: bool)
    ensures
        r == (a@ == b@),
{
    if a.len() != b.len() {
        return false;
    }
    let r = chars_occur_at(a, b, 0);
    proof {
        assert(a@.subrange(0, b@.len() as int) =~= a@);
    }
    r
}

/// The bytes of an ASCII text.
pub open spec fn ascii_bytes(s: Seq<char>) -> Seq<u8> {
    s.map_values(|c: char| c as u8)
}

/// `u8::to_ascii_lowercase`.
pub open spec fn ascii_lower_byte(b: u8) -> u8 {
    if 65 <= b <= 90 {
        (b + 32) as u8
    } else {
        b
    }
}

/// `<[u8]>::to_ascii_lowercase`.
pub open spec fn ascii_lower(s: Seq<u8>) -> Seq<u8> {
    s.map_values(|b: u8| ascii_lower_byte(b))
}

/// The pieces of `s` between `'\n'` bytes, as index ranges into `s`.
pub fn split_byte_lines(s: &[u8]) -> (r: Vec<(usize, usize)>)
    ensures
        r@.len() == split_seq(s@, 10u8).len(),
        forall|j: int|
            #![trigger r@[j]]
            0 <= j < r@.len() ==> r@[j].0 <= r@[j].1 <= s@.len() && s@.subrange(
                r@[j].0 as int,
                r@[j].1 as int,
            ) == split_seq(s@, 10u8)[j],
{
    let mut out: Vec<(usize, usize)> = Vec::new();
    let mut start: usize = 0;
    let n = s.len();
    let mut i: usize = 0;
    proof {
        assert(s@.take(0) =~= Seq::<u8>::empty());
        assert(s@.subrange(0, 0) =~= Seq::<u8>::empty());
    }
    while i < n
        invariant
            n == s@.len(),
            0 <= start <= i <= n,
            split_seq(s@.take(i as int), 10u8).len() == out@.len() + 1,
            forall|j: int|
                #![trigger out@[j]]
                0 <= j < out@.len() ==> out@[j].0 <= out@[j].1 <= i && s@.subrange(
                    out@[j].0 as int,
                    out@[j].1 as int,
                ) == split_seq(s@.take(i as int), 10u8)[j],
            s@.subrange(start as int, i as int) == split_seq(s@.take(i as int), 10u8).last(),
        decreases n - i,
    {
        let ghost before = s@.take(i as int);
        proof {
            assert(s@.take(i + 1).drop_last() =~= before);
            assert(s@.take(i + 1).last() == s@[i as int]);
            lemma_split_seq_nonempty(before, 10u8);
        }
        if s[i] == 10u8 {
            out.push((start, i));
            i = i + 1;
            start = i;
            proof {
                let g = split_seq(s@.take(i as int), 10u8);
                assert(g == split_seq(before, 10u8).push(Seq::empty()));
                assert(s@.subrange(start as int, i as int) =~= Seq::<u8>::empty());
                assert forall|j: int| #![trigger out@[j]] 0 <= j < out@.len() implies out@[j].0 <= out@[j].1
                    <= i && s@.subrange(out@[j].0 as int, out@[j].1 as int) == g[j] by {}
            }
        } else {
            i = i + 1;
            proof {
                let g = split_seq(s@.take(i as int), 10u8);
                let pg = split_seq(before, 10u8);
                assert(g == pg.update(pg.len() - 1, pg.last().push(s@[i - 1])));
                assert(s@.subrange(start as int, i as int) =~= s@.subrange(start as int, i - 1).push(
                    s@[i - 1],
                ));
                assert forall|j: int| #![trigger out@[j]] 0 <= j < out@.len() implies out@[j].0 <= out@[j].1
                    <= i && s@.subrange(out@[j].0 as int, out@[j].1 as int) == g[j] by {
                    assert(g[j] == pg[j]);
                }
            }
        }
    }
    out.push((start, n));
    proof {
        assert(s@.take(n as int) =~= s@);
    }
    out
}

/// The first position, counted from `start`, where `p` occurs within `s[start..end]`.
pub fn find_bytes_in(s: &[u8], start: usize, end: usize, p: &[u8]) -> (r: Option<usize>)
    requires
        start <= end <= s@.len(),
    ensures
        match r {
            Some(k) => find_from(s@.subrange(start as int, end as int), p@, 0) == Some(k as int),
            None => find_from(s@.subrange(start as int, end as int), p@, 0) is None,
        },
{
    let ghost sub = s@.subrange(start as int, end as int);
    let mut k: usize = 0;
    let len = end - start;
    while k <= len
        invariant
            k <= len,
            start <= end <= s@.len(),
            len == end - start,
            sub == s@.subrange(start as int, end as int),
            find_from(sub, p@, 0) == find_from(sub, p@, k as int),
        decreases len + 1 - k,
    {
        if p.len() > len - k {
            return None;
        }
        let hit = bytes_occur_at(s, p, start + k);
        proof {
            if p@.len() == 0 {
                assert(sub.subrange(k as int, k as int) =~= p@);
                assert(s@.subrange(start + k, start + k) =~= p@);
            }
            if k + p@.len() <= len {
                assert(sub.subrange(k as int, k + p@.len()) =~= s@.subrange(
                    start + k,
                    start + k + p@.len(),
                ));
            }
        }
        if hit {
            return Some(k);
        }
        if k == len {
            return None;
        }
        k = k + 1;
    }
    None
}

/// The whitespace-separated words of `s`, as `str::split_whitespace` yields them.
pub open spec fn words(s: Seq<char>) -> Seq<Seq<char>>
    decreases s.len(),
{
    if s.len() == 0 {
        Seq::empty()
    } else {
        let p = words(s.drop_last());
        let c = s.last();
        if is_ws(c) {
            p
        } else if s.len() >= 2 && !is_ws(s[s.len() - 2]) {
            p.update(p.len() - 1, p.last().push(c))
        } else {
            p.push(seq![c])
        }
    }
}

pub proof fn lemma_words_nonempty(s: Seq<char>)
    requires
        s.len() > 0,
        !is_ws(s.last()),
    ensures
        words(s).len() > 0,
    decreases s.len(),
{
    if s.len() >= 2 && !is_ws(s[s.len() - 2]) {
        assert(s.drop_last().last() == s[s.len() - 2]);
        lemma_words_nonempty(s.drop_last());
    }
}

/// The words of a character sequence, as `words` states them.
pub fn split_words(s: &Vec<char>) -> (r: Vec<Vec<char>>)
    ensures
        r@.len() == words(s@).len(),
        forall|j: int| 0 <= j < r@.len() ==> #[trigger] r@[j]@ == words(s@)[j],
{
    let mut out: Vec<Vec<char>> = Vec::new();
    let mut cur: Vec<char> = Vec::new();
    let mut in_word = false;
    let n = s.len();
    let mut i: usize = 0;
    proof {
        assert(s@.take(0) =~= Seq::<char>::empty());
    }
    while i < n
        invariant
            n == s@.len(),
            0 <= i <= n,
            in_word == (i > 0 && !is_ws(s@[i - 1])),
            words(s@.take(i as int)).len() == out@.len() + if in_word { 1int } else { 0int },
            forall|j: int| 0 <= j < out@.len() ==> #[trigger] out@[j]@ == words(s@.take(i as int))[j],
            in_word ==> cur@ == words(s@.take(i as int)).last(),
        decreases n - i,
    {
        let c = s[i];
        let ghost before = s@.take(i as int);
        proof {
            assert(s@.take(i + 1).drop_last() =~= before);
            assert(s@.take(i + 1).last() == c);
            if in_word {
                assert(before.last() == s@[i - 1]);
                lemma_words_nonempty(before);
            }
        }
        if is_whitespace(c) {
            if in_word {
                out.push(cur);
                cur = Vec::new();
                in_word = false;
                proof {
                    let w = words(s@.take(i + 1));
                    assert(w == words(before));
                    assert forall|j: int| 0 <= j < out@.len() implies #[trigger] out@[j]@ == w[j] by {}
                }
            }
        } else {
            if in_word {
                cur.push(c);
                proof {
                    let w = words(s@.take(i + 1));
                    let pw = words(before);
                    assert(before.len() >= 1 && before[before.len() - 1] == s@[i - 1]);
                    assert(w == pw.update(pw.len() - 1, pw.last().push(c)));
                    assert forall|j: int| 0 <= j < out@.len() implies #[trigger] out@[j]@ == w[j] by {
                        assert(w[j] == pw[j]);
                    }
                }
            } else {
                cur = Vec::new();
                cur.push(c);
                in_word = true;
                proof {
                    let w = words(s@.take(i + 1));
                    let pw = words(before);
                    assert(w == pw.push(seq![c]));
                    assert(cur@ =~= seq![c]);
                    assert forall|j: int| 0 <= j < out@.len() implies #[trigger] out@[j]@ == w[j] by {}
                }
            }
        }
        i = i + 1;
    }
    proof {
        assert(s@.take(n as int) =~= s@);
    }
    if in_word {
        out.push(cur);
        proof {
            assert forall|j: int| 0 <= j < out@.len() implies #[trigger] out@[j]@ == words(s@)[j] by {}
        }
    }
    out
}

/// The decimal digit for `d < 10`.
pub open spec fn digit_char(d: nat) -> char {
    ((d + 48) as u8) as char
}

/// The decimal representation of `n`, as `Display` writes an integer.
pub open spec fn decimal(n: nat) -> Seq<char>
    decreases n,
{
    if n < 10 {
        seq![digit_char(n)]
    } else {
        decimal(n / 10).push(digit_char(n % 10))
    }
}

/// The decimal representation of `n`.
pub fn decimal_chars(n: usize) -> (r: Vec<char>)
    ensures
        r@ == decimal(n as nat),
    decreases n,
{
    if n < 10 {
        let mut r: Vec<char> = Vec::new();
        r.push(((n as u8) + 48) as char);
        proof {
            assert(r@ =~= decimal(n as nat));
        }
        r
    } else {
        let mut r = decimal_chars(n / 10);
        r.push((((n % 10) as u8) + 48) as char);
        proof {
            assert(r@ =~= decimal(n as nat));
        }
        r
    }
}

/// Lines joined with `'\n'` between them.
pub open spec fn join_lines(ls: Seq<Seq<char>>) -> Seq<char>
    decreases ls.len(),
{
    if ls.len() == 0 {
        Seq::empty()
    } else if ls.len() == 1 {
        ls[0]
    } else {
        join_lines(ls.drop_last()).push('\n') + ls.last()
    }
}

/// Appends the characters of `t` to `out`.
pub fn append_chars(out: &mut Vec<char>, t: &Vec<char>)
    ensures
        final(out)@ == old(out)@ + t@,
{
    let mut k: usize = 0;
    while k < t.len()
        invariant
            0 <= k <= t@.len(),
            out@ == old(out)@ + t@.take(k as int),
        decreases t@.len() - k,
    {
        out.push(t[k]);
        k = k + 1;
        proof {
            assert(out@ =~= old(out)@ + t@.take(k as int));
        }
    }
    proof {
        assert(t@.take(k as int) =~= t@);
    }
}

/// Whether `p` occurs in `s` at position `i`.
pub fn chars_occur_at(s: &Vec<char>, p: &Vec<char>, i: usize) -> (b: bool)
    ensures
        b == occurs_at(s@, p@, i as int),
{
    if i > s.len() || p.len() > s.len() - i {
        return false;
    }
    let mut k: usize = 0;
    let n = s.len();
    while k < p.len()
        invariant
            n == s@.len(),
            i + p@.len() <= n,
            0 <= k <= p@.len(),
            forall|j: int| 0 <= j < k ==> s@[i + j] == p@[j],
        decreases p@.len() - k,
    {
        if s[i + k] != p[k] {
            proof {
                assert(s@.subrange(i as int, i + p@.len())[k as int] != p@[k as int]);
            }
            return false;
        }
        k = k + 1;
    }
    proof {
        assert(s@.subrange(i as int, i + p@.len()) =~= p@);
    }
    true
}

/// Whether `p` occurs in `s` at or after position `start`.
pub fn chars_contain_from(s: &Vec<char>, start: usize, p: &Vec<char>) -> (b: bool)
    ensures
        b == (find_from(s@, p@, start as int) is Some),
{
    let mut i = start;
    proof {
        lemma_find_from(s@, p@, start as int);
    }
    let n = s.len();
    while i <= n
        invariant
            n == s@.len(),
            start <= i,
            find_from(s@, p@, start as int) == find_from(s@, p@, i as int),
        decreases s@.len() + 1 - i,
    {
        if chars_occur_at(s, p, i) {
            return true;
        }
        if p.len() > n - i || i == n {
            proof {
                if p@.len() == 0 {
                    assert(s@.subrange(i as int, i as int) =~= p@);
                }
            }
            return false;
        }
        i = i + 1;
    }
    false
}

/// Whether `p` occurs in the byte sequence `s` at position `i`.
pub fn bytes_occur_at(s: &[u8], p: &[u8], i: usize) -> (b: bool)
    ensures
        b == occurs_at(s@, p@, i as int),
{
    if i > s.len() || p.len() > s.len() - i {
        return false;
    }
    let mut k: usize = 0;
    let n = s.len();
    while k < p.len()
        invariant
            n == s@.len(),
            i + p@.len() <= n,
            0 <= k <= p@.len(),
            forall|j: int| 0 <= j < k ==> s@[i + j] == p@[j],
        decreases p@.len() - k,
    {
        if s[i + k] != p[k] {
            proof {
                assert(s@.subrange(i as int, i + p@.len())[k as int] != p@[k as int]);
            }
            return false;
        }
        k = k + 1;
    }
    proof {
        assert(s@.subrange(i as int, i + p@.len()) =~= p@);
    }
    true
}

} // verus!
