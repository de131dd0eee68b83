//! Analysis exclusion logic based on `@sweetignore` and `@swt-disable` comments.

use vstd::prelude::*;
use vstd::utf8::{
    encode_utf8, encode_scalar, is_ascii_chars, is_ascii_chars_encode_utf8, leading_byte_width_1,
    leading_byte_width_2,
    leading_byte_width_3, leading_byte_width_4, last_continuation_byte, second_last_continuation_byte,
    third_last_continuation_byte,
};
use crate::stdlib::{str_from_utf8, to_lowercase, lowercase, string_from_chars};
use crate::text::{
    ascii_bytes, ascii_lower, ascii_lower_byte, chars_of, contains_seq, find_from, find_bytes_in,
    split_byte_lines, split_seq, split_words, str_eq, words, lemma_find_from, chars_contain_from,
    lemma_find_from_skip, occurs_at,
};

verus! {

/// A set of rule names.
pub struct DisabledRules {
    rules: Vec<String>,
}

impl View for DisabledRules {
    type V = Set<Seq<char>>;

    closed spec fn view(&self) -> Set<Seq<char>> {
        Set::new(|r: Seq<char>| exists|i: int| 0 <= i < self.rules@.len() && #[trigger] self.rules@[i]@ == r)
    }
}

impl DisabledRules {
    /// No rule disabled.
    pub fn new() -> (r: Self)
        ensures
            r@ == Set::<Seq<char>>::empty(),
    {
        let r = DisabledRules { rules: Vec::new() };
        proof {
            assert(r@ =~= Set::<Seq<char>>::empty());
        }
        r
    }

    /// Whether `rule` is disabled.
    pub fn contains(&self, rule: &str) -> (b: bool)
        ensures
            b == self@.contains(rule@),
    {
        let mut i: usize = 0;
        while i < self.rules.len()
            invariant
                0 <= i <= self.rules@.len(),
                forall|j: int| 0 <= j < i ==> #[trigger] self.rules@[j]@ != rule@,
            decreases self.rules@.len() - i,
        {
            if str_eq(self.rules[i].as_str(), rule) {
                return true;
            }
            i = i + 1;
        }
        false
    }

    /// Adds `rule` to the set.
    pub fn insert(&mut self, rule: String)
        ensures
            final(self)@ == old(self)@.insert(rule@),
    {
        let mut i: usize = 0;
        while i < self.rules.len()
            invariant
                0 <= i <= self.rules@.len(),
                forall|j: int| 0 <= j < i ==> #[trigger] self.rules@[j]@ != rule@,
            decreases self.rules@.len() - i,
        {
            if str_eq(self.rules[i].as_str(), rule.as_str()) {
                proof {
                    assert(self@ =~= self@.insert(rule@));
                }
                return;
            }
            i = i + 1;
        }
        let ghost before = *self;
        self.rules.push(rule);
        proof {
            assert(self@ =~= before@.insert(rule@)) by {
                assert forall|r: Seq<char>| #[trigger] self@.contains(r) == before@.insert(rule@).contains(r) by {
                    if before@.contains(r) {
                        let k = choose|k: int| 0 <= k < before.rules@.len() && #[trigger] before.rules@[k]@ == r;
                        assert(self.rules@[k] == before.rules@[k]);
                    }
                    if self@.contains(r) {
                        let k = choose|k: int| 0 <= k < self.rules@.len() && #[trigger] self.rules@[k]@ == r;
                        if k < before.rules@.len() {
                            assert(self.rules@[k] == before.rules@[k]);
                        }
                    }
                    if r == rule@ {
                        assert(self.rules@[before.rules@.len() as int]@ == r);
                    }
                }
            }
        }
    }
}

pub open spec fn ignore_marker() -> Seq<u8> {
    ascii_bytes("@sweetignore"@)
}

pub open spec fn disable_marker() -> Seq<u8> {
    ascii_bytes("@swt-disable"@)
}

/// The first `n` lines of the content (pieces between `'\n'` bytes).
pub open spec fn first_lines(content: Seq<u8>, n: nat) -> Seq<Seq<u8>> {
    let g = split_seq(content, 10u8);
    g.take(if n < g.len() { n as int } else { g.len() as int })
}

/// One of the first ten lines holds `@sweetignore`.
pub open spec fn is_ignored_content(content: Seq<u8>) -> bool {
    let ls = first_lines(content, 10);
    exists|j: int| 0 <= j < ls.len() && contains_seq(#[trigger] ls[j], ignore_marker())
}

/// The rules that one line disables: after the first `@swt-disable` (in any
/// letter case), the whitespace-separated words, lowercased, when that part
/// of the line is valid UTF-8.
pub open spec fn line_rules(line: Seq<u8>) -> Seq<Seq<char>> {
    match find_from(ascii_lower(line), disable_marker(), 0) {
        None => Seq::empty(),
        Some(p) => {
            let part = line.skip(p + disable_marker().len());
            if vstd::utf8::valid_utf8(part) {
                words(vstd::utf8::decode_utf8(part)).map_values(|w: Seq<char>| lowercase(w))
            } else {
                Seq::empty()
            }
        },
    }
}

/// The rules that some of the lines disable.
pub open spec fn rules_of_lines(ls: Seq<Seq<u8>>) -> Set<Seq<char>>
    decreases ls.len(),
{
    if ls.len() == 0 {
        Set::empty()
    } else {
        rules_of_lines(ls.drop_last()).union(line_rules(ls.last()).to_set())
    }
}

/// The rules disabled by `@swt-disable` comments in the first 20 lines.
pub open spec fn disabled_rules_of(content: Seq<u8>) -> Set<Seq<char>> {
    rules_of_lines(first_lines(content, 20))
}

fn ignore_marker_bytes() -> (r: &'static [u8])
    ensures
        r@ == ignore_marker(),
{
    let r = "@sweetignore".as_bytes();
    proof {
        reveal_strlit("@sweetignore");
        vstd::string::is_ascii_spec_bytes("@sweetignore");
        assert(r@ =~= ignore_marker());
    }
    r
}

fn disable_marker_bytes() -> (r: &'static [u8])
    ensures
        r@ == disable_marker(),
{
    let r = "@swt-disable".as_bytes();
    proof {
        reveal_strlit("@swt-disable");
        vstd::string::is_ascii_spec_bytes("@swt-disable");
        assert(r@ =~= disable_marker());
    }
    r
}

/// Check if a file should be ignored globally via a top-level @sweetignore.
pub fn is_file_ignored(content: &[u8]) -> (b: bool)
    ensures
        b == is_ignored_content(content@),
{
    let marker = ignore_marker_bytes();
    let ranges = split_byte_lines(content);
    let ghost ls = first_lines(content@, 10);
    let limit = if ranges.len() < 10 { ranges.len() } else { 10 };
    let mut j: usize = 0;
    while j < limit
        invariant
            ls == first_lines(content@, 10),
            0 <= j <= limit == ls.len(),
            limit <= ranges@.len(),
            ranges@.len() == split_seq(content@, 10u8).len(),
            forall|t: int| 0 <= t < ls.len() ==> #[trigger] ls[t] == split_seq(content@, 10u8)[t],
            forall|t: int|
                #![trigger ranges@[t]]
                0 <= t < ranges@.len() ==> ranges@[t].0 <= ranges@[t].1 <= content@.len()
                    && content@.subrange(ranges@[t].0 as int, ranges@[t].1 as int) == split_seq(
                    content@,
                    10u8,
                )[t],
            marker@ == ignore_marker(),
            forall|t: int| 0 <= t < j ==> !contains_seq(#[trigger] ls[t], ignore_marker()),
        decreases limit - j,
    {
        let (a, e) = ranges[j];
        let found = find_bytes_in(content, a, e, marker);
        proof {
            let line = content@.subrange(a as int, e as int);
            assert(ls[j as int] == line);
            lemma_find_from_skip(line, marker@, 0);
            assert(line.skip(0) =~= line);
        }
        if found.is_some() {
            proof {
                assert(contains_seq(ls[j as int], ignore_marker()));
            }
            return true;
        }
        j = j + 1;
    }
    false
}

/// Check if a specific line or block is marked for exclusion.
pub fn is_line_ignored(line: &str) -> (b: bool)
    ensures
        b == contains_seq(line@, "@sweetignore"@),
{
    let chars = chars_of(line);
    let marker = chars_of("@sweetignore");
    proof {
        lemma_find_from_skip(chars@, marker@, 0);
        assert(chars@.skip(0) =~= chars@);
    }
    chars_contain_from(&chars, 0, &marker)
}

/// The rules that line `s[a..e]` disables, added to `disabled`.
fn collect_line_rules(s: &[u8], a: usize, e: usize, disabled: &mut DisabledRules)
    requires
        a <= e <= s@.len(),
    ensures
        final(disabled)@ == old(disabled)@.union(line_rules(s@.subrange(a as int, e as int)).to_set()),
{
    let ghost line = s@.subrange(a as int, e as int);
    let mut lower: Vec<u8> = Vec::new();
    let mut k = a;
    while k < e
        invariant
            a <= k <= e <= s@.len(),
            lower@ == ascii_lower(s@.subrange(a as int, k as int)),
        decreases e - k,
    {
        let b = s[k];
        let lb = if 65 <= b && b <= 90 { b + 32 } else { b };
        lower.push(lb);
        k = k + 1;
        proof {
            assert(lower@ =~= ascii_lower(s@.subrange(a as int, k as int)));
        }
    }
    let marker = disable_marker_bytes();
    let n = lower.len();
    let pos = find_bytes_in(lower.as_slice(), 0, n, marker);
    proof {
        assert(lower@.subrange(0, n as int) =~= lower@);
    }
    match pos {
        None => {
            proof {
                assert(line_rules(line).to_set() =~= Set::<Seq<char>>::empty());
                assert(disabled@.union(Set::<Seq<char>>::empty()) =~= disabled@);
            }
        },
        Some(p) => {
            proof {
                lemma_find_from(lower@, marker@, 0);
            }
            let start = a + p + marker.len();
            let part = vstd::slice::slice_subrange(s, start, e);
            proof {
                assert(part@ =~= line.skip(p + disable_marker().len()));
            }
            match str_from_utf8(part) {
                None => {
                    proof {
                        assert(line_rules(line).to_set() =~= Set::<Seq<char>>::empty());
                        assert(disabled@.union(Set::<Seq<char>>::empty()) =~= disabled@);
                    }
                },
                Some(text) => {
                    proof {
                        vstd::utf8::encode_utf8_decode_utf8(text@);
                    }
                    let chars = chars_of(text);
                    let ws = split_words(&chars);
                    let ghost rules = line_rules(line);
                    let ghost start_set = disabled@;
                    let mut i: usize = 0;
                    while i < ws.len()
                        invariant
                            0 <= i <= ws@.len() == rules.len(),
                            forall|j: int| 0 <= j < ws@.len() ==> #[trigger] lowercase(ws@[j]@) == rules[j],
                            disabled@ == start_set.union(rules.take(i as int).to_set()),
                        decreases ws@.len() - i,
                    {
                        let word = string_from_chars(&ws[i]);
                        let rule = to_lowercase(word.as_str());
                        proof {
                            assert(rule@ == lowercase(word@));
                            assert(word@ == ws@[i as int]@);
                        }
                        disabled.insert(rule);
                        i = i + 1;
                        proof {
                            assert(disabled@ =~= start_set.union(rules.take(i as int).to_set())) by {
                                assert forall|r: Seq<char>| #[trigger] rules.take(i as int).to_set().contains(r) == (rules.take(i - 1).to_set().contains(r) || r == rules[i - 1]) by {
                                    if rules.take(i as int).contains(r) {
                                        let t = choose|t: int| 0 <= t < i && #[trigger] rules.take(i as int)[t] == r;
                                        if t < i - 1 {
                                            assert(rules.take(i - 1)[t] == r);
                                        }
                                    }
                                    if rules.take(i - 1).contains(r) {
                                        let t = choose|t: int| 0 <= t < i - 1 && #[trigger] rules.take(i - 1)[t] == r;
                                        assert(rules.take(i as int)[t] == r);
                                    }
                                    if r == rules[i - 1] {
                                        assert(rules.take(i as int)[i - 1] == r);
                                    }
                                }
                            }
                        }
                    }
                    proof {
                        assert(rules.take(i as int) =~= rules);
                    }
                },
            }
        },
    }
}

/// Extract a set of rules to be disabled for a specific file.
///
/// Looks for comments like `@swt-disable <rule1> <rule2>` in the first 20 lines.
pub fn get_disabled_rules(content: &[u8]) -> (r: DisabledRules)
    ensures
        r@ == disabled_rules_of(content@),
{
    let mut disabled = DisabledRules::new();
    let ranges = split_byte_lines(content);
    let ghost ls = first_lines(content@, 20);
    let limit = if ranges.len() < 20 { ranges.len() } else { 20 };
    let mut j: usize = 0;
    proof {
        assert(ls.take(0) =~= Seq::<Seq<u8>>::empty());
    }
    while j < limit
        invariant
            ls == first_lines(content@, 20),
            0 <= j <= limit == ls.len(),
            limit <= ranges@.len(),
            ranges@.len() == split_seq(content@, 10u8).len(),
            forall|t: int| 0 <= t < ls.len() ==> #[trigger] ls[t] == split_seq(content@, 10u8)[t],
            forall|t: int|
                #![trigger ranges@[t]]
                0 <= t < ranges@.len() ==> ranges@[t].0 <= ranges@[t].1 <= content@.len()
                    && content@.subrange(ranges@[t].0 as int, ranges@[t].1 as int) == split_seq(
                    content@,
                    10u8,
                )[t],
            disabled@ == rules_of_lines(ls.take(j as int)),
        decreases limit - j,
    {
        let (a, e) = ranges[j];
        proof {
            assert(ls.take(j + 1).drop_last() =~= ls.take(j as int));
            assert(ls.take(j + 1).last() == content@.subrange(a as int, e as int));
        }
        collect_line_rules(content, a, e, &mut disabled);
        j = j + 1;
    }
    proof {
        assert(ls.take(j as int) =~= ls);
    }
    disabled
}

/// The UTF-8 encoding of a concatenation is the concatenation of the encodings.
pub(crate) proof fn lemma_encode_concat(a: Seq<char>, b: Seq<char>)
    ensures
        encode_utf8(a + b) == encode_utf8(a) + encode_utf8(b),
    decreases a.len(),
{
    if a.len() == 0 {
        assert(a + b =~= b);
        assert(encode_utf8(a) =~= Seq::<u8>::empty());
        assert(encode_utf8(a) + encode_utf8(b) =~= encode_utf8(b));
    } else {
        lemma_encode_concat(a.drop_first(), b);
        assert((a + b).drop_first() =~= a.drop_first() + b);
        assert((a + b)[0] == a[0]);
        assert(encode_utf8(a + b) =~= encode_utf8(a) + encode_utf8(b));
    }
}

/// Only `'\n'` is encoded with the byte 10.
pub(crate) proof fn lemma_scalar_not_newline(c: char)
    requires
        c != '\n',
    ensures
        forall|j: int| 0 <= j < vstd::utf8::encode_scalar(c as u32).len() ==> #[trigger] vstd::utf8::encode_scalar(c as u32)[j] != 10u8,
{
    let v = c as u32;
    assert(v != 10u32);
    assert(v != 10u32 && v <= 0x7f ==> vstd::utf8::leading_byte_width_1(v) != 10u8) by (bit_vector);
    assert(vstd::utf8::leading_byte_width_2(v) != 10u8) by (bit_vector);
    assert(vstd::utf8::leading_byte_width_3(v) != 10u8) by (bit_vector);
    assert(vstd::utf8::leading_byte_width_4(v) != 10u8) by (bit_vector);
    assert(vstd::utf8::last_continuation_byte(v) != 10u8) by (bit_vector);
    assert(vstd::utf8::second_last_continuation_byte(v) != 10u8) by (bit_vector);
    assert(vstd::utf8::third_last_continuation_byte(v) != 10u8) by (bit_vector);
}

/// A text without `'\n'` is encoded without the byte 10.
pub(crate) proof fn lemma_encode_no_newline(s: Seq<char>)
    requires
        forall|i: int| 0 <= i < s.len() ==> #[trigger] s[i] != '\n',
    ensures
        forall|j: int| 0 <= j < encode_utf8(s).len() ==> #[trigger] encode_utf8(s)[j] != 10u8,
    decreases s.len(),
{
    if s.len() > 0 {
        lemma_encode_no_newline(s.drop_first());
        lemma_scalar_not_newline(s[0]);
        let e = vstd::utf8::encode_scalar(s[0] as u32);
        assert(encode_utf8(s) == e + encode_utf8(s.drop_first()));
        assert forall|j: int| 0 <= j < encode_utf8(s).len() implies #[trigger] encode_utf8(s)[j] != 10u8 by {
            if j < e.len() {
                assert(encode_utf8(s)[j] == e[j]);
            } else {
                assert(encode_utf8(s)[j] == encode_utf8(s.drop_first())[j - e.len()]);
            }
        }
    }
}

/// Bytes without a separator form a single piece.
pub(crate) proof fn lemma_split_without_sep(a: Seq<u8>)
    requires
        forall|j: int| 0 <= j < a.len() ==> #[trigger] a[j] != 10u8,
    ensures
        split_seq(a, 10u8) == seq![a],
    decreases a.len(),
{
    if a.len() > 0 {
        lemma_split_without_sep(a.drop_last());
        assert(a.drop_last().push(a.last()) =~= a);
        assert(split_seq(a, 10u8) =~= seq![a]);
    } else {
        assert(a =~= Seq::<u8>::empty());
        assert(split_seq(a, 10u8) =~= seq![a]);
    }
}


/// A character below 0x80 is encoded as its one byte; any other character is
/// encoded with bytes of 0x80 or more.
pub(crate) proof fn lemma_scalar_ascii(c: char)
    ensures
        (c as u32) < 0x80 ==> encode_scalar(c as u32) == seq![(c as u32) as u8],
        (c as u32) >= 0x80 ==> forall|j: int|
            0 <= j < encode_scalar(c as u32).len() ==> #[trigger] encode_scalar(c as u32)[j] >= 0x80,
{
    let v = c as u32;
    if v < 0x80 {
        assert(v < 0x80 ==> leading_byte_width_1(v) == v as u8) by (bit_vector);
        assert(encode_scalar(v) =~= seq![v as u8]);
    } else {
        assert(leading_byte_width_2(v) >= 0x80) by (bit_vector);
        assert(leading_byte_width_3(v) >= 0x80) by (bit_vector);
        assert(leading_byte_width_4(v) >= 0x80) by (bit_vector);
        assert(last_continuation_byte(v) >= 0x80) by (bit_vector);
        assert(second_last_continuation_byte(v) >= 0x80) by (bit_vector);
        assert(third_last_continuation_byte(v) >= 0x80) by (bit_vector);
    }
}

/// Two characters below 0x80 with the same byte are the same.
pub(crate) proof fn lemma_ascii_byte_injective(c: char, d: char)
    requires
        (c as u32) < 0x80,
        (d as u32) < 0x80,
        (c as u32) as u8 == (d as u32) as u8,
    ensures
        c == d,
{
    let a = c as u32;
    let b = d as u32;
    assert(a < 0x80 && b < 0x80 && a as u8 == b as u8 ==> a == b) by (bit_vector);
    vstd::utf8::char_u32_cast(c, a);
    vstd::utf8::char_u32_cast(d, b);
}

/// When the encoding of `s` begins with that of the ASCII text `p`, `s`
/// begins with `p`.
proof fn lemma_ascii_prefix(s: Seq<char>, p: Seq<char>)
    requires
        is_ascii_chars(p),
        occurs_at(encode_utf8(s), encode_utf8(p), 0),
    ensures
        occurs_at(s, p, 0),
    decreases p.len(),
{
    if p.len() == 0 {
        assert(s.subrange(0, 0) =~= p);
    } else {
        is_ascii_chars_encode_utf8(p);
        let es = encode_utf8(s);
        let ep = encode_utf8(p);
        if s.len() == 0 {
            assert(es =~= Seq::<u8>::empty());
        }
        let e0 = encode_scalar(s[0] as u32);
        let es1 = encode_utf8(s.drop_first());
        assert(es == e0 + es1);
        lemma_scalar_ascii(s[0]);
        lemma_scalar_ascii(p[0]);
        assert((p[0] as u32) < 0x80);
        let ep1 = encode_utf8(p.drop_first());
        assert(ep == encode_scalar(p[0] as u32) + ep1);
        assert(ep[0] == (p[0] as u32) as u8);
        assert(es.subrange(0, ep.len() as int)[0] == ep[0]);
        assert(es[0] == ep[0]);
        let pv = p[0] as u32;
        let pb = pv as u8;
        assert(pb < 0x80) by (bit_vector)
            requires
                pb == pv as u8,
                pv < 0x80,
        ;
        assert((s[0] as u32) < 0x80);
        assert(es[0] == (s[0] as u32) as u8);
        lemma_ascii_byte_injective(s[0], p[0]);
        assert(es1 =~= es.subrange(1, es.len() as int));
        assert(ep1 =~= ep.subrange(1, ep.len() as int));
        assert(es1.subrange(0, ep1.len() as int) =~= es.subrange(1, ep.len() as int));
        assert(es.subrange(0, ep.len() as int).subrange(1, ep.len() as int) =~= es.subrange(1, ep.len() as int));
        assert(is_ascii_chars(p.drop_first()));
        lemma_ascii_prefix(s.drop_first(), p.drop_first());
        assert(s.subrange(0, p.len() as int) =~= p) by {
            assert forall|k: int| 0 <= k < p.len() implies s.subrange(0, p.len() as int)[k] == p[k] by {
                if k > 0 {
                    assert(s.drop_first().subrange(0, p.len() - 1)[k - 1] == p.drop_first()[k - 1]);
                }
            }
        }
    }
}

/// An ASCII text found in the encoding of `s` is found in `s`.
proof fn lemma_ascii_found(s: Seq<char>, p: Seq<char>)
    requires
        p.len() > 0,
        is_ascii_chars(p),
        contains_seq(encode_utf8(s), encode_utf8(p)),
    ensures
        contains_seq(s, p),
    decreases s.len(),
{
    let es = encode_utf8(s);
    let ep = encode_utf8(p);
    is_ascii_chars_encode_utf8(p);
    let j = choose|j: int| occurs_at(es, ep, j);
    if s.len() == 0 {
        assert(es =~= Seq::<u8>::empty());
    }
    let e0 = encode_scalar(s[0] as u32);
    let rest = encode_utf8(s.drop_first());
    assert(es == e0 + rest);
    lemma_scalar_ascii(s[0]);
    lemma_scalar_ascii(p[0]);
    assert(es.subrange(j, j + ep.len())[0] == ep[0]);
    assert(es[j] == ep[0]);
    assert(ep == encode_scalar(p[0] as u32) + encode_utf8(p.drop_first()));
    assert((p[0] as u32) < 0x80);
    let pv = p[0] as u32;
    let pb = pv as u8;
    assert(ep[0] == pb);
    assert(pb < 0x80) by (bit_vector)
        requires
            pb == pv as u8,
            pv < 0x80,
    ;
    if j == 0 {
        lemma_ascii_prefix(s, p);
    } else if j < e0.len() {
        assert(es[j] == e0[j]);
        assert((s[0] as u32) >= 0x80);
        assert(false);
    } else {
        let k = j - e0.len();
        assert(rest.subrange(k, k + ep.len()) =~= es.subrange(j, j + ep.len()));
        assert(occurs_at(rest, ep, k));
        lemma_ascii_found(s.drop_first(), p);
        let i = choose|i: int| occurs_at(s.drop_first(), p, i);
        assert(s.subrange(i + 1, i + 1 + p.len()) =~= s.drop_first().subrange(i, i + p.len()));
        assert(occurs_at(s, p, i + 1));
    }
}

/// A text found in `s` is found, encoded, in the encoding of `s`.
proof fn lemma_encoded_found(s: Seq<char>, p: Seq<char>)
    requires
        contains_seq(s, p),
    ensures
        contains_seq(encode_utf8(s), encode_utf8(p)),
{
    let i = choose|i: int| occurs_at(s, p, i);
    let a = s.take(i);
    let c = s.skip(i + p.len());
    assert(s =~= a + p + c);
    lemma_encode_concat(a + p, c);
    lemma_encode_concat(a, p);
    let ea = encode_utf8(a);
    let ep = encode_utf8(p);
    assert(encode_utf8(s).subrange(ea.len() as int, (ea.len() + ep.len()) as int) =~= ep);
    assert(occurs_at(encode_utf8(s), ep, ea.len() as int));
}

/// On a single line of text, checking the line and checking the file agree:
/// both find `@sweetignore` exactly when the line holds it.
pub proof fn lemma_line_and_file_ignore_agree(line: Seq<char>)
    requires
        forall|i: int| 0 <= i < line.len() ==> #[trigger] line[i] != '\n',
    ensures
        is_ignored_content(encode_utf8(line)) <==> contains_seq(line, "@sweetignore"@),
{
    let b = encode_utf8(line);
    let m = "@sweetignore"@;
    reveal_strlit("@sweetignore");
    lemma_encode_no_newline(line);
    lemma_split_without_sep(b);
    let ls = first_lines(b, 10);
    assert(ls =~= seq![b]);
    assert(is_ascii_chars(m));
    is_ascii_chars_encode_utf8(m);
    assert(ignore_marker() =~= encode_utf8(m));
    if contains_seq(line, m) {
        lemma_encoded_found(line, m);
        assert(contains_seq(ls[0], ignore_marker()));
    }
    if is_ignored_content(b) {
        let j = choose|j: int| 0 <= j < ls.len() && contains_seq(#[trigger] ls[j], ignore_marker());
        assert(j == 0);
        lemma_ascii_found(line, m);
    }
}

} // verus!
