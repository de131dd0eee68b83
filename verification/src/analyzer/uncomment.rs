//! Comment stripping with documentation preservation.
//!
//! The contract of `remove_comments` is the stripping automaton, stated as a
//! step function over a model state (`StripModel`), followed by whitespace
//! normalization.

use vstd::prelude::*;
use crate::languages::{Language, LanguageRegistry, LanguageSpec, language_for};
use crate::stdlib::string_from_chars;
use crate::text::{chars_of, lines_of, split_lines, str_eq, trim, trim_end, trimmed, trimmed_end};

verus! {

/// The state of the comment stripper between two steps.
pub struct StripModel {
    pub pos: int,
    pub in_string: bool,
    pub string_char: char,
    pub in_block: bool,
    pub in_line: bool,
    pub out: Seq<char>,
}

/// What the stripper needs to know of a language.
pub struct StripConfig {
    pub line_prefix: Option<Seq<char>>,
    pub block: Option<(Seq<char>, Seq<char>)>,
    pub aggressive: bool,
}

pub open spec fn strip_config(l: LanguageSpec, aggressive: bool) -> StripConfig {
    StripConfig { line_prefix: l.line_comment, block: l.block_comment, aggressive }
}

pub open spec fn is_quote_char(c: char) -> bool {
    c == '"' || c == '\'' || c == '`'
}

/// The character after position `i` is `c`.
pub open spec fn next_is(s: Seq<char>, i: int, c: char) -> bool {
    i + 1 < s.len() && s[i + 1] == c
}

/// A `/*` block comment opens at `i`.
pub open spec fn block_opens(s: Seq<char>, cfg: StripConfig, i: int) -> bool {
    match cfg.block {
        Some((start, _)) => start.len() > 1 && s[i] == start[0] && next_is(s, i, start[1]) && start
            == "/*"@,
        None => false,
    }
}

/// The block comment closes at `i`.
pub open spec fn block_closes(s: Seq<char>, cfg: StripConfig, i: int) -> bool {
    match cfg.block {
        Some((_, end)) => end.len() > 1 && s[i] == end[0] && next_is(s, i, end[1]),
        None => false,
    }
}

/// A line comment opens at `i` (its first two characters match).
pub open spec fn line_opens(s: Seq<char>, cfg: StripConfig, i: int) -> bool {
    match cfg.line_prefix {
        Some(p) => p.len() > 0 && s[i] == p[0] && (p.len() == 1 || next_is(s, i, p[1])),
        None => false,
    }
}

/// One iteration of the stripping loop, at a position inside the text.
pub open spec fn strip_step(s: Seq<char>, cfg: StripConfig, st: StripModel) -> StripModel {
    let i = st.pos;
    let c = s[i];
    if st.in_block {
        if block_closes(s, cfg, i) {
            StripModel { in_block: false, pos: i + 2, ..st }
        } else if c == '\n' {
            StripModel { out: st.out.push('\n'), pos: i + 1, ..st }
        } else {
            StripModel { pos: i + 1, ..st }
        }
    } else if st.in_line {
        if c == '\n' {
            StripModel { in_line: false, out: st.out.push('\n'), pos: i + 1, ..st }
        } else {
            StripModel { pos: i + 1, ..st }
        }
    } else if st.in_string {
        if c == '\\' {
            if i + 1 < s.len() {
                StripModel { out: st.out.push(c).push(s[i + 1]), pos: i + 2, ..st }
            } else {
                StripModel { out: st.out.push(c), pos: i + 1, ..st }
            }
        } else {
            StripModel {
                out: st.out.push(c),
                in_string: c != st.string_char,
                pos: i + 1,
                ..st
            }
        }
    } else if is_quote_char(c) {
        StripModel { in_string: true, string_char: c, out: st.out.push(c), pos: i + 1, ..st }
    } else if block_opens(s, cfg, i) {
        let p = i + 2;
        let is_doc = p < s.len() && s[p] == '*';
        if !cfg.aggressive && is_doc {
            StripModel { out: st.out + "/**"@, pos: p + 1, ..st }
        } else {
            StripModel { in_block: true, pos: p, ..st }
        }
    } else if line_opens(s, cfg, i) {
        let prefix = cfg.line_prefix->0;
        let p = if prefix.len() > 1 {
            i + 2
        } else {
            i + 1
        };
        let is_doc = prefix == "//"@ && p < s.len() && (s[p] == '/' || s[p] == '!');
        if !cfg.aggressive && is_doc {
            StripModel { out: st.out + prefix, pos: p, ..st }
        } else {
            StripModel { in_line: true, pos: p, ..st }
        }
    } else {
        StripModel { out: st.out.push(c), pos: i + 1, ..st }
    }
}

/// Steps until the end of the text.
pub open spec fn strip_run(s: Seq<char>, cfg: StripConfig, st: StripModel) -> StripModel
    decreases s.len() - st.pos,
{
    if st.pos < 0 || st.pos >= s.len() {
        st
    } else {
        strip_run(s, cfg, strip_step(s, cfg, st))
    }
}

pub open spec fn strip_start() -> StripModel {
    StripModel {
        pos: 0,
        in_string: false,
        string_char: '"',
        in_block: false,
        in_line: false,
        out: Seq::empty(),
    }
}

/// The text with its comments removed (before whitespace normalization).
pub open spec fn stripped(s: Seq<char>, cfg: StripConfig) -> Seq<char> {
    strip_run(s, cfg, strip_start()).out
}

/// Whitespace normalization after some lines: the text so far, and whether
/// the last line kept was empty.
pub open spec fn normalize_lines(ls: Seq<Seq<char>>) -> (Seq<char>, bool)
    decreases ls.len(),
{
    if ls.len() == 0 {
        (Seq::empty(), false)
    } else {
        let (res, last_empty) = normalize_lines(ls.drop_last());
        let t = trim_end(ls.last());
        if t.len() == 0 {
            if !last_empty {
                (res.push('\n'), true)
            } else {
                (res, true)
            }
        } else if res.len() > 0 {
            (res.push('\n') + t, false)
        } else {
            (res + t, false)
        }
    }
}

/// Trailing whitespace trimmed from each line, runs of empty lines collapsed
/// to one, and whitespace trimmed from both ends.
pub open spec fn normalized(s: Seq<char>) -> Seq<char> {
    trim(normalize_lines(lines_of(s)).0)
}

/// What `remove_comments` returns for a text in a language (or none).
pub open spec fn uncommented(s: Seq<char>, lang: Option<LanguageSpec>, aggressive: bool) -> Seq<char> {
    match lang {
        None => s,
        Some(l) => normalized(stripped(s, strip_config(l, aggressive))),
    }
}

/// Trims trailing spaces and collapses consecutive empty lines.
pub fn normalize_whitespace(content: &str) -> (r: String)
    ensures
        r@ == normalized(content@),
{
    let chars = chars_of(content);
    let out = normalize_chars(&chars);
    string_from_chars(&out)
}

/// Trims trailing spaces and collapses consecutive empty lines, on characters.
fn normalize_chars(content: &Vec<char>) -> (r: Vec<char>)
    ensures
        r@ == normalized(content@),
{
    let lines = split_lines(content);
    let ghost ls = lines_of(content@);
    let mut res: Vec<char> = Vec::new();
    let mut last_was_empty = false;
    let mut i: usize = 0;
    proof {
        assert(ls.take(0) =~= Seq::<Seq<char>>::empty());
    }
    while i < lines.len()
        invariant
            0 <= i <= lines@.len() == ls.len(),
            ls == lines_of(content@),
            forall|j: int| 0 <= j < lines@.len() ==> #[trigger] lines@[j]@ == ls[j],
            (res@, last_was_empty) == normalize_lines(ls.take(i as int)),
        decreases lines@.len() - i,
    {
        proof {
            assert(ls.take(i + 1).drop_last() =~= ls.take(i as int));
            assert(ls.take(i + 1).last() == ls[i as int]);
        }
        let t = trimmed_end(&lines[i]);
        let ghost before = res@;
        if t.len() == 0 {
            if !last_was_empty {
                res.push('\n');
                last_was_empty = true;
            }
        } else {
            if res.len() > 0 {
                res.push('\n');
            }
            let ghost mid = res@;
            let mut k: usize = 0;
            while k < t.len()
                invariant
                    0 <= k <= t@.len(),
                    res@ == mid + t@.take(k as int),
                decreases t@.len() - k,
            {
                res.push(t[k]);
                k = k + 1;
                proof {
                    assert(res@ =~= mid + t@.take(k as int));
                }
            }
            proof {
                assert(t@.take(k as int) =~= t@);
                if before.len() > 0 {
                    assert(res@ =~= before.push('\n') + t@);
                } else {
                    assert(res@ =~= before + t@);
                }
            }
            last_was_empty = false;
        }
        i = i + 1;
    }
    proof {
        assert(ls.take(i as int) =~= ls);
    }
    trimmed(&res)
}

/// Appends the characters of `t` to `out`.
fn push_all(out: &mut Vec<char>, t: &Vec<char>)
    ensures
        final(out)@ == old(out)@ + t@,
{
    let mut k: usize = 0;
    while k < t.len()
        invariant
            0 <= k <= t@.len(),
            out@ == old(out)@ + t@.take(k as int),
        decreases t@.len() - k,
    {
        out.push(t[k]);
        k = k + 1;
        proof {
            assert(out@ =~= old(out)@ + t@.take(k as int));
        }
    }
    proof {
        assert(t@.take(k as int) =~= t@);
    }
}

/// Removes comments from source code while optionally preserving documentation.
///
/// Uses language-specific delimiters from the registry to identify and strip comments.
pub fn remove_comments(content: &str, extension: &str, aggressive: bool) -> (r: String)
    ensures
        r@ == uncommented(content@, language_for(extension@), aggressive),
{
    let registry = LanguageRegistry::get();
    let lang = match registry.get_by_extension(extension) {
        Some(l) => l,
        None => {
            return content.to_owned();
        },
    };
    let ghost cfg = strip_config(lang.rules(), aggressive);
    let s = chars_of(content);
    let n = s.len();
    let line_prefix: Option<Vec<char>> = match lang.line_comment() {
        Some(p) => Some(chars_of(p)),
        None => None,
    };
    let prefix_is_slashes = match lang.line_comment() {
        Some(p) => str_eq(p, "//"),
        None => false,
    };
    let block: Option<(Vec<char>, Vec<char>)> = match lang.block_comment() {
        Some((a, b)) => Some((chars_of(a), chars_of(b))),
        None => None,
    };
    let start_is_slash_star = match lang.block_comment() {
        Some((a, _)) => str_eq(a, "/*"),
        None => false,
    };
    let doc_open = chars_of("/**");
    let mut out: Vec<char> = Vec::new();
    let mut in_string = false;
    let mut string_char = '"';
    let mut in_block = false;
    let mut in_line = false;
    let mut i: usize = 0;
    proof {
        assert(out@ =~= Seq::<char>::empty());
    }
    while i < n
        invariant
            n == s@.len() == content@.len(),
            s@ == content@,
            0 <= i <= n,
            cfg == strip_config(lang.rules(), aggressive),
            match line_prefix {
                Some(p) => cfg.line_prefix == Some(p@),
                None => cfg.line_prefix is None,
            },
            prefix_is_slashes == (cfg.line_prefix matches Some(p) && p == "//"@),
            match block {
                Some((a, b)) => cfg.block == Some((a@, b@)),
                None => cfg.block is None,
            },
            start_is_slash_star == (cfg.block matches Some(b) && b.0 == "/*"@),
            doc_open@ == "/**"@,
            strip_run(s@, cfg, StripModel { pos: i as int, in_string, string_char, in_block, in_line, out: out@ })
                == strip_run(s@, cfg, strip_start()),
        decreases n - i,
    {
        let c = s[i];
        let ghost st = StripModel { pos: i as int, in_string, string_char, in_block, in_line, out: out@ };
        let ghost nx = strip_step(s@, cfg, st);
        if in_block {
            let closes = match &block {
                Some((_, end)) => end.len() > 1 && c == end[0] && i + 1 < n && s[i + 1] == end[1],
                None => false,
            };
            if closes {
                in_block = false;
                i = i + 2;
            } else {
                if c == '\n' {
                    out.push('\n');
                }
                i = i + 1;
            }
        } else if in_line {
            if c == '\n' {
                in_line = false;
                out.push('\n');
            }
            i = i + 1;
        } else if in_string {
            out.push(c);
            if c == '\\' {
                if i + 1 < n {
                    out.push(s[i + 1]);
                    i = i + 2;
                } else {
                    i = i + 1;
                }
            } else {
                if c == string_char {
                    in_string = false;
                }
                i = i + 1;
            }
        } else if c == '"' || c == '\'' || c == '`' {
            in_string = true;
            string_char = c;
            out.push(c);
            i = i + 1;
        } else {
            let opens_block = match &block {
                Some((start, _)) => start_is_slash_star && start.len() > 1 && c == start[0] && i + 1 < n
                    && s[i + 1] == start[1],
                None => false,
            };
            let opens_line = match &line_prefix {
                Some(p) => p.len() > 0 && c == p[0] && (p.len() == 1 || (i + 1 < n && s[i + 1] == p[1])),
                None => false,
            };
            if opens_block {
                let p = i + 2;
                let is_doc = p < n && s[p] == '*';
                if !aggressive && is_doc {
                    push_all(&mut out, &doc_open);
                    i = p + 1;
                } else {
                    in_block = true;
                    i = p;
                }
            } else if opens_line {
                let prefix = match &line_prefix {
                    Some(p) => p,
                    None => {
                        proof {
                            assert(false);
                        }
                        return content.to_owned();
                    },
                };
                let p = if prefix.len() > 1 { i + 2 } else { i + 1 };
                let is_doc = prefix_is_slashes && p < n && (s[p] == '/' || s[p] == '!');
                if !aggressive && is_doc {
                    push_all(&mut out, prefix);
                    i = p;
                } else {
                    in_line = true;
                    i = p;
                }
            } else {
                out.push(c);
                i = i + 1;
            }
        }
        proof {
            assert(StripModel { pos: i as int, in_string, string_char, in_block, in_line, out: out@ } == nx);
        }
    }
    let normalized = normalize_chars(&out);
    string_from_chars(&normalized)
}

/// Text without a line break has none to count.
proof fn lemma_no_breaks(x: Seq<char>)
    requires
        crate::languages::one_line(x),
    ensures
        crate::analyzer::scanner::char_breaks(x) == 0,
    decreases x.len(),
{
    if x.len() > 0 {
        assert(crate::languages::one_line(x.drop_last())) by {
            assert forall|k: int| 0 <= k < x.drop_last().len() implies #[trigger] x.drop_last()[k] != '\n' by {
                assert(x.drop_last()[k] == x[k]);
            }
        }
        lemma_no_breaks(x.drop_last());
        assert(x[x.len() - 1] != '\n');
    }
}

/// The delimiters of a stripping configuration hold no line break.
pub open spec fn delims_one_line(cfg: StripConfig) -> bool {
    &&& cfg.line_prefix matches Some(p) ==> crate::languages::one_line(p)
    &&& cfg.block matches Some(b) ==> crate::languages::one_line(b.1)
}

/// The stripper has kept as many line breaks as it has read.
spec fn breaks_kept(s: Seq<char>, st: StripModel) -> bool {
    &&& 0 <= st.pos <= s.len()
    &&& crate::analyzer::scanner::char_breaks(st.out) == crate::analyzer::scanner::char_breaks(s.take(st.pos))
}

proof fn lemma_step_keeps_breaks(s: Seq<char>, cfg: StripConfig, st: StripModel)
    requires
        0 <= st.pos < s.len(),
        breaks_kept(s, st),
        delims_one_line(cfg),
    ensures
        breaks_kept(s, strip_step(s, cfg, st)),
        strip_step(s, cfg, st).pos > st.pos,
{
    reveal_strlit("/*");
    reveal_strlit("/**");
    let i = st.pos;
    let c = s[i];
    let n = strip_step(s, cfg, st);
    let q = n.pos;
    let consumed = s.subrange(i, q);
    // What the step adds to the output.
    let added: Seq<char> = if st.in_block {
        if block_closes(s, cfg, i) {
            Seq::empty()
        } else if c == '\n' {
            seq!['\n']
        } else {
            Seq::empty()
        }
    } else if st.in_line {
        if c == '\n' {
            seq!['\n']
        } else {
            Seq::empty()
        }
    } else if st.in_string {
        if c == '\\' && i + 1 < s.len() {
            seq![c, s[i + 1]]
        } else {
            seq![c]
        }
    } else if is_quote_char(c) {
        seq![c]
    } else if block_opens(s, cfg, i) {
        if !cfg.aggressive && i + 2 < s.len() && s[i + 2] == '*' {
            "/**"@
        } else {
            Seq::empty()
        }
    } else if line_opens(s, cfg, i) {
        let prefix = cfg.line_prefix->0;
        let p = if prefix.len() > 1 {
            i + 2
        } else {
            i + 1
        };
        if !cfg.aggressive && prefix == "//"@ && p < s.len() && (s[p] == '/' || s[p] == '!') {
            prefix
        } else {
            Seq::empty()
        }
    } else {
        seq![c]
    };
    assert(n.out =~= st.out + added);
    assert(i < q <= s.len());
    assert(s.take(q) =~= s.take(i) + consumed);
    crate::analyzer::scanner::lemma_char_breaks_concat(st.out, added);
    crate::analyzer::scanner::lemma_char_breaks_concat(s.take(i), consumed);
    if added =~= consumed {
    } else {
        // Neither side holds a line break.
        assert(crate::languages::one_line(consumed)) by {
            assert forall|k: int| 0 <= k < consumed.len() implies #[trigger] consumed[k] != '\n' by {
                assert(consumed[k] == s[i + k]);
                if st.in_block && block_closes(s, cfg, i) {
                    let b = cfg.block->0;
                    assert(s[i] == b.1[0] && s[i + 1] == b.1[1]);
                } else if !st.in_block && !st.in_line && !st.in_string && !is_quote_char(c) && !block_opens(s, cfg, i) && line_opens(s, cfg, i) {
                    let prefix = cfg.line_prefix->0;
                    assert(s[i] == prefix[0]);
                    if k == 1 {
                        assert(s[i + 1] == prefix[1]);
                    }
                }
            }
        }
        assert(crate::languages::one_line(added)) by {
            assert forall|k: int| 0 <= k < added.len() implies #[trigger] added[k] != '\n' by {
                if !st.in_block && !st.in_line && !st.in_string && !is_quote_char(c) && block_opens(s, cfg, i) {
                    assert("/**"@[k] != '\n');
                }
            }
        }
        lemma_no_breaks(consumed);
        lemma_no_breaks(added);
    }
}

proof fn lemma_run_keeps_breaks(s: Seq<char>, cfg: StripConfig, st: StripModel)
    requires
        breaks_kept(s, st),
        delims_one_line(cfg),
    ensures
        breaks_kept(s, strip_run(s, cfg, st)),
        strip_run(s, cfg, st).pos == s.len(),
    decreases s.len() - st.pos,
{
    if st.pos < s.len() {
        lemma_step_keeps_breaks(s, cfg, st);
        lemma_run_keeps_breaks(s, cfg, strip_step(s, cfg, st));
    }
}

/// Comment stripping keeps every line break: a line comment ends at its
/// line break and keeps it, and the line breaks inside a block comment or
/// a string stay, so the text keeps its number of lines.
pub proof fn lemma_strip_keeps_line_breaks(s: Seq<char>, cfg: StripConfig)
    requires
        delims_one_line(cfg),
    ensures
        crate::analyzer::scanner::char_breaks(stripped(s, cfg)) == crate::analyzer::scanner::char_breaks(s),
{
    assert(s.take(0) =~= Seq::<char>::empty());
    assert(strip_start().out =~= Seq::<char>::empty());
    lemma_run_keeps_breaks(s, cfg, strip_start());
    assert(s.take(s.len() as int) =~= s);
}

/// The comment delimiters of every registered language keep stripping
/// line breaks.
pub proof fn lemma_registered_strip_keeps_line_breaks(s: Seq<char>, ext: Seq<char>, aggressive: bool)
    ensures
        language_for(ext) matches Some(l) ==> crate::analyzer::scanner::char_breaks(
            stripped(s, strip_config(l, aggressive)),
        ) == crate::analyzer::scanner::char_breaks(s),
{
    crate::languages::lemma_registered_delims_one_line(ext);
    if let Some(l) = language_for(ext) {
        lemma_strip_keeps_line_breaks(s, strip_config(l, aggressive));
    }
}

} // verus!
