//! Single-pass file analysis scanner.
//!
//! The scanner traverses the file content only once, simultaneously
//! counting lines, calculating nesting depth, identifying imports,
//! stripping comments, and hashing each cleaned line for repetition analysis.
//!
//! Its contract is the scanning automaton itself, stated below as a step
//! function over a model state (`ScanModel`): one step per iteration of the
//! scanning loop, and a final line at the end.

use vstd::prelude::*;
use vstd::string::StringSliceAdditionalSpecFns;
use vstd::utf8::{encode_utf8, encode_scalar, valid_utf8, decode_utf8};
use crate::analyzer::repetition::{bytes_hash, trim_ascii, hash_bytes, trim_bytes};
use crate::analyzer::ignore::{lemma_scalar_ascii, lemma_ascii_byte_injective, lemma_scalar_not_newline, lemma_encode_concat, lemma_encode_no_newline};
use crate::text::{split_seq, lines_of};
use crate::languages::{Language, LanguageRegistry, LanguageSpec, language_for};
use crate::stdlib::str_from_utf8;
use crate::text::{starts_with, trim, chars_of, trimmed, strs_chars, chars_occur_at, lemma_occurs_at_skip};

verus! {

/// What the scanner needs to know of the language and the limits.
pub struct ScanConfig {
    pub keywords: Seq<Seq<char>>,
    pub line_comment: Option<Seq<u8>>,
    pub block_start: Option<Seq<u8>>,
    pub block_end: Option<Seq<u8>>,
    pub depth_threshold: int,
    pub indent_size: int,
}

/// The scanner's configuration for a language (or none), a depth limit and an indent size.
pub open spec fn scan_config(lang: Option<LanguageSpec>, depth_threshold: int, indent_size: int) -> ScanConfig {
    ScanConfig {
        keywords: match lang {
            Some(l) => l.import_keywords,
            None => Seq::empty(),
        },
        line_comment: match lang {
            Some(l) => match l.line_comment {
                Some(c) => Some(encode_utf8(c)),
                None => None,
            },
            None => None,
        },
        block_start: match lang {
            Some(l) => match l.block_comment {
                Some(b) => Some(encode_utf8(b.0)),
                None => None,
            },
            None => None,
        },
        block_end: match lang {
            Some(l) => match l.block_comment {
                Some(b) => Some(encode_utf8(b.1)),
                None => None,
            },
            None => None,
        },
        depth_threshold,
        indent_size,
    }
}

/// The state of the scanner between two steps.
pub struct ScanModel {
    pub pos: int,
    pub in_string: bool,
    pub string_char: u8,
    pub in_block: bool,
    pub in_line: bool,
    /// Only indentation has been seen on the current line so far.
    pub at_start: bool,
    /// Indentation width of the current line (a tab counts `indent_size`).
    pub lead: int,
    /// Where the current line's text starts.
    pub start_offset: int,
    /// Number of the current line, from 1.
    pub num: int,
    /// Where the current line's cleaned text starts in `clean`.
    pub clean_start: int,
    pub lines: int,
    pub imports: int,
    pub max_depth: int,
    pub deep_lines: Seq<(int, int)>,
    pub clean: Seq<u8>,
    pub hashes: Seq<(int, u64)>,
}

pub open spec fn initial_model() -> ScanModel {
    ScanModel {
        pos: 0,
        in_string: false,
        string_char: 0,
        in_block: false,
        in_line: false,
        at_start: true,
        lead: 0,
        start_offset: 0,
        num: 1,
        clean_start: 0,
        lines: 0,
        imports: 0,
        max_depth: 0,
        deep_lines: Seq::empty(),
        clean: Seq::empty(),
        hashes: Seq::empty(),
    }
}

/// The text is an import statement: valid UTF-8 whose trimmed form is
/// non-empty and begins with one of the keywords.
pub open spec fn is_import_text(b: Seq<u8>, keywords: Seq<Seq<char>>) -> bool {
    valid_utf8(b) && trim(decode_utf8(b)).len() > 0 && exists|k: int|
        0 <= k < keywords.len() && starts_with(trim(decode_utf8(b)), #[trigger] keywords[k])
}

/// Accounting at the end of a line that ends at `end`: depth, import, and the
/// hash of its cleaned text; the line is then counted.
pub open spec fn end_line(content: Seq<u8>, cfg: ScanConfig, st: ScanModel, end: int) -> ScanModel {
    let depth = st.lead / cfg.indent_size;
    let text = content.subrange(st.start_offset, end);
    let cleaned = trim_ascii(st.clean.subrange(st.clean_start, st.clean.len() as int));
    ScanModel {
        max_depth: if depth > st.max_depth {
            depth
        } else {
            st.max_depth
        },
        deep_lines: if depth > cfg.depth_threshold {
            st.deep_lines.push((st.num, depth))
        } else {
            st.deep_lines
        },
        imports: if end > st.start_offset && is_import_text(text, cfg.keywords) {
            st.imports + 1
        } else {
            st.imports
        },
        hashes: if cleaned.len() > 0 {
            st.hashes.push((st.num, bytes_hash(cleaned)))
        } else {
            st.hashes
        },
        lines: st.lines + 1,
        ..st
    }
}

/// `p` is present and the content continues with it at `i`.
pub open spec fn delim_at(content: Seq<u8>, p: Option<Seq<u8>>, i: int) -> bool {
    match p {
        Some(d) => starts_with(content.skip(i), d),
        None => false,
    }
}

pub open spec fn delim_len(p: Option<Seq<u8>>) -> int {
    match p {
        Some(d) => d.len() as int,
        None => 0,
    }
}

pub open spec fn is_quote(c: u8) -> bool {
    c == 34u8 || c == 39u8 || c == 96u8
}

/// One iteration of the scanning loop, at a position inside the content.
pub open spec fn step(content: Seq<u8>, cfg: ScanConfig, st: ScanModel) -> ScanModel {
    let i = st.pos;
    let c = content[i];
    if c == 10u8 {
        let e = end_line(content, cfg, st, i);
        let e2 = ScanModel {
            at_start: true,
            lead: 0,
            start_offset: i + 1,
            num: st.num + 1,
            pos: i + 1,
            ..e
        };
        if !st.in_block {
            ScanModel {
                in_line: false,
                clean: e2.clean.push(10u8),
                clean_start: e2.clean.len() + 1int,
                ..e2
            }
        } else {
            ScanModel { clean_start: e2.clean.len() as int, ..e2 }
        }
    } else if st.in_string {
        if c == 92u8 && i + 1 < content.len() {
            ScanModel { clean: st.clean.push(c).push(content[i + 1]), pos: i + 2, ..st }
        } else {
            ScanModel {
                clean: st.clean.push(c),
                in_string: if c == st.string_char {
                    false
                } else {
                    true
                },
                pos: i + 1,
                ..st
            }
        }
    } else if st.in_block && delim_at(content, cfg.block_end, i) {
        ScanModel { in_block: false, pos: i + delim_len(cfg.block_end), ..st }
    } else if st.in_block || st.in_line {
        ScanModel { pos: i + 1, ..st }
    } else if st.at_start && (c == 32u8 || c == 9u8) {
        ScanModel {
            lead: st.lead + if c == 32u8 {
                1
            } else {
                cfg.indent_size
            },
            pos: i + 1,
            ..st
        }
    } else {
        let s1 = if st.at_start {
            ScanModel { at_start: false, start_offset: i, ..st }
        } else {
            st
        };
        if delim_at(content, cfg.line_comment, i) {
            ScanModel { in_line: true, pos: i + delim_len(cfg.line_comment), ..s1 }
        } else if delim_at(content, cfg.block_start, i) {
            ScanModel { in_block: true, pos: i + delim_len(cfg.block_start), ..s1 }
        } else if is_quote(c) {
            ScanModel { in_string: true, string_char: c, clean: s1.clean.push(c), pos: i + 1, ..s1 }
        } else {
            ScanModel { clean: s1.clean.push(c), pos: i + 1, ..s1 }
        }
    }
}

/// Delimiters are never empty, so that every step moves forward.
pub open spec fn delims_nonempty(cfg: ScanConfig) -> bool {
    &&& delim_len(cfg.line_comment) > 0 || cfg.line_comment is None
    &&& delim_len(cfg.block_start) > 0 || cfg.block_start is None
    &&& delim_len(cfg.block_end) > 0 || cfg.block_end is None
}

/// Steps until the end of the content.
pub open spec fn run(content: Seq<u8>, cfg: ScanConfig, st: ScanModel) -> ScanModel
    decreases content.len() - st.pos,
{
    if st.pos < 0 || st.pos >= content.len() || !delims_nonempty(cfg) {
        st
    } else {
        run(content, cfg, step(content, cfg, st))
    }
}

/// The last line, when it has any content.
pub open spec fn finish(content: Seq<u8>, cfg: ScanConfig, st: ScanModel) -> ScanModel {
    if !st.at_start || st.pos > st.start_offset {
        end_line(content, cfg, st, st.pos)
    } else {
        st
    }
}

/// No line is reported as too deep exactly when the deepest line is within the limit.
pub open spec fn deep_lines_agree(st: ScanModel, threshold: int) -> bool {
    (st.deep_lines.len() == 0) <==> st.max_depth <= threshold
}

proof fn lemma_step_keeps_deep_lines(content: Seq<u8>, cfg: ScanConfig, st: ScanModel)
    requires
        0 <= st.pos < content.len(),
        deep_lines_agree(st, cfg.depth_threshold),
    ensures
        deep_lines_agree(step(content, cfg, st), cfg.depth_threshold),
{
}

proof fn lemma_run_keeps_deep_lines(content: Seq<u8>, cfg: ScanConfig, st: ScanModel)
    requires
        deep_lines_agree(st, cfg.depth_threshold),
    ensures
        deep_lines_agree(run(content, cfg, st), cfg.depth_threshold),
    decreases content.len() - st.pos,
{
    if !(st.pos < 0 || st.pos >= content.len() || !delims_nonempty(cfg)) {
        lemma_step_keeps_deep_lines(content, cfg, st);
        lemma_run_keeps_deep_lines(content, cfg, step(content, cfg, st));
    }
}

/// A scan reports lines nested too deeply exactly when the deepest line of
/// the file is nested deeper than the limit.
pub proof fn lemma_deep_lines_iff_too_deep(content: Seq<u8>, cfg: ScanConfig)
    requires
        cfg.depth_threshold >= 0,
    ensures
        (scan_model(content, cfg).deep_lines.len() == 0) <==> scan_model(content, cfg).max_depth
            <= cfg.depth_threshold,
{
    lemma_run_keeps_deep_lines(content, cfg, initial_model());
}

/// The scanner's final state on `content`.
pub open spec fn scan_model(content: Seq<u8>, cfg: ScanConfig) -> ScanModel {
    finish(content, cfg, run(content, cfg, initial_model()))
}

/// Results gathered from a single-pass scan of a source file.
pub struct ScanResult {
    /// Total number of source lines.
    pub lines: usize,
    /// Total number of import/include statements found.
    pub imports: usize,
    /// Maximum nesting depth based on indentation.
    pub max_depth: usize,
    /// Line numbers where the nesting depth exceeds a threshold.
    pub deep_lines: Vec<(usize, usize)>,
    /// Content without comments, used for repetition analysis.
    pub clean_content: Vec<u8>,
    /// `(line number, hash)` of each line whose text without comments and
    /// surrounding ASCII whitespace is not empty.
    pub hashes: Vec<(usize, u64)>,
}

pub open spec fn pairs_int(v: Seq<(usize, usize)>) -> Seq<(int, int)> {
    v.map_values(|p: (usize, usize)| (p.0 as int, p.1 as int))
}

pub open spec fn hashes_int(v: Seq<(usize, u64)>) -> Seq<(int, u64)> {
    v.map_values(|p: (usize, u64)| (p.0 as int, p.1))
}

impl ScanResult {
    /// The result holds the counters of a final scanner state.
    pub open spec fn matches(&self, m: ScanModel) -> bool {
        &&& self.lines == m.lines
        &&& self.imports == m.imports
        &&& self.max_depth == m.max_depth
        &&& pairs_int(self.deep_lines@) == m.deep_lines
        &&& self.clean_content@ == m.clean
        &&& hashes_int(self.hashes@) == m.hashes
    }
}

struct ScannerState {
    pos: usize,
    in_string: bool,
    string_char: u8,
    in_block: bool,
    in_line: bool,
    at_start: bool,
    lead: usize,
    start_offset: usize,
    num: usize,
    clean_start: usize,
    res: ScanResult,
}

impl ScannerState {
    spec fn model(&self) -> ScanModel {
        ScanModel {
            pos: self.pos as int,
            in_string: self.in_string,
            string_char: self.string_char,
            in_block: self.in_block,
            in_line: self.in_line,
            at_start: self.at_start,
            lead: self.lead as int,
            start_offset: self.start_offset as int,
            num: self.num as int,
            clean_start: self.clean_start as int,
            lines: self.res.lines as int,
            imports: self.res.imports as int,
            max_depth: self.res.max_depth as int,
            deep_lines: pairs_int(self.res.deep_lines@),
            clean: self.res.clean_content@,
            hashes: hashes_int(self.res.hashes@),
        }
    }

    /// Bounds that keep every counter within `usize`.
    spec fn bounded(&self, n: nat, indent: nat) -> bool {
        &&& self.pos <= n
        &&& self.start_offset <= self.pos
        &&& self.clean_start <= self.res.clean_content@.len()
        &&& self.res.clean_content@.len() <= self.pos
        &&& self.res.lines <= self.pos
        &&& self.num == self.res.lines + 1
        &&& self.res.imports <= self.res.lines
        &&& self.res.hashes@.len() <= self.res.lines
        &&& self.lead <= self.pos * indent
    }
}

/// Whether `t` (a line's text) is an import statement.
fn is_import(t: &[u8], keywords: &Vec<Vec<char>>) -> (b: bool)
    ensures
        b == is_import_text(t@, keywords@.map_values(|k: Vec<char>| k@)),
{
    let ghost kws = keywords@.map_values(|k: Vec<char>| k@);
    match str_from_utf8(t) {
        None => false,
        Some(text) => {
            proof {
                vstd::utf8::encode_utf8_decode_utf8(text@);
            }
            let chars = chars_of(text);
            let tr = trimmed(&chars);
            if tr.len() == 0 {
                return false;
            }
            let mut k: usize = 0;
            while k < keywords.len()
                invariant
                    0 <= k <= keywords@.len(),
                    kws == keywords@.map_values(|k: Vec<char>| k@),
                    valid_utf8(t@),
                    tr@.len() > 0,
                    tr@ == trim(decode_utf8(t@)),
                    forall|j: int| 0 <= j < k ==> !starts_with(tr@, #[trigger] kws[j]),
                decreases keywords@.len() - k,
            {
                proof {
                    lemma_occurs_at_skip(tr@, keywords@[k as int]@, 0);
                    assert(tr@.skip(0) =~= tr@);
                }
                if chars_occur_at(&tr, &keywords[k], 0) {
                    proof {
                        assert(kws[k as int] == keywords@[k as int]@);
                    }
                    return true;
                }
                k = k + 1;
            }
            false
        },
    }
}

/// Whether `d` is present and `content` continues with it at `i`.
fn delim_here(content: &[u8], d: Option<&[u8]>, i: usize) -> (b: bool)
    requires
        i <= content@.len(),
    ensures
        b == delim_at(content@, opt_bytes(d), i as int),
{
    match d {
        None => false,
        Some(p) => {
            let r = crate::text::bytes_occur_at(content, p, i);
            proof {
                lemma_occurs_at_skip(content@, p@, i as int);
            }
            r
        },
    }
}

pub open spec fn opt_bytes(d: Option<&[u8]>) -> Option<Seq<u8>> {
    match d {
        Some(p) => Some(p@),
        None => None,
    }
}

fn delim_length(d: Option<&[u8]>) -> (r: usize)
    ensures
        r == delim_len(opt_bytes(d)),
{
    match d {
        None => 0,
        Some(p) => p.len(),
    }
}

impl ScannerState {
    /// `end_line` at `end`.
    fn process_line_end(
        &mut self,
        content: &[u8],
        end: usize,
        keywords: &Vec<Vec<char>>,
        depth_threshold: usize,
        indent_size: usize,
        Ghost(cfg): Ghost<ScanConfig>,
    )
        requires
            old(self).start_offset <= end <= content@.len(),
            old(self).clean_start <= old(self).res.clean_content@.len(),
            indent_size > 0,
            cfg.indent_size == indent_size,
            cfg.depth_threshold == depth_threshold,
            cfg.keywords == keywords@.map_values(|k: Vec<char>| k@),
            old(self).res.lines < usize::MAX,
            old(self).res.imports <= old(self).res.lines,
        ensures
            final(self).model() == end_line(content@, cfg, old(self).model(), end as int),
            final(self).res.hashes@.len() <= old(self).res.hashes@.len() + 1,
            final(self).res.lines == old(self).res.lines + 1,
            final(self).res.imports <= old(self).res.imports + 1,
            final(self).res.clean_content@ == old(self).res.clean_content@,
    {
        let depth = self.lead / indent_size;
        if depth > self.res.max_depth {
            self.res.max_depth = depth;
        }
        if depth > depth_threshold {
            self.res.deep_lines.push((self.num, depth));
        }
        if end > self.start_offset {
            let text = vstd::slice::slice_subrange(content, self.start_offset, end);
            if is_import(text, keywords) {
                self.res.imports = self.res.imports + 1;
            }
        }
        let line = vstd::slice::slice_subrange(
            self.res.clean_content.as_slice(),
            self.clean_start,
            self.res.clean_content.len(),
        );
        let cleaned = trim_bytes(line);
        if cleaned.len() > 0 {
            let h = hash_bytes(cleaned);
            self.res.hashes.push((self.num, h));
        }
        self.res.lines = self.res.lines + 1;
        proof {
            let m = end_line(content@, cfg, old(self).model(), end as int);
            assert(pairs_int(self.res.deep_lines@) =~= m.deep_lines);
            assert(hashes_int(self.res.hashes@) =~= m.hashes);
        }
    }
}

proof fn lemma_lead_bound(lead: int, i: int, p: int, k: int)
    by (nonlinear_arith)
    requires
        lead <= i * k,
        0 <= i <= p,
        k >= 0,
    ensures
        lead <= p * k,
{
}

/// The byte form of a delimiter.
fn delim_bytes(d: Option<&'static str>) -> (r: Option<&'static [u8]>)
    ensures
        opt_bytes(r) == match d {
            Some(c) => Some(encode_utf8(c@)),
            None => None::<Seq<u8>>,
        },
{
    match d {
        Some(c) => Some(c.as_bytes()),
        None => None,
    }
}

impl ScannerState {
    /// One iteration of the scanning loop.
    fn step(
        &mut self,
        content: &[u8],
        keywords: &Vec<Vec<char>>,
        line_comment: Option<&[u8]>,
        block_start: Option<&[u8]>,
        block_end: Option<&[u8]>,
        depth_threshold: usize,
        indent_size: usize,
        Ghost(cfg): Ghost<ScanConfig>,
    )
        requires
            old(self).pos < content@.len() < usize::MAX,
            old(self).bounded(content@.len(), indent_size as nat),
            content@.len() * indent_size <= usize::MAX,
            indent_size > 0,
            cfg.indent_size == indent_size,
            cfg.depth_threshold == depth_threshold,
            cfg.keywords == keywords@.map_values(|k: Vec<char>| k@),
            cfg.line_comment == opt_bytes(line_comment),
            cfg.block_start == opt_bytes(block_start),
            cfg.block_end == opt_bytes(block_end),
            delims_nonempty(cfg),
        ensures
            final(self).model() == step(content@, cfg, old(self).model()),
            final(self).bounded(content@.len(), indent_size as nat),
            final(self).pos > old(self).pos,
    {
        let i = self.pos;
        let c = content[i];
        let ghost st = self.model();
        if c == 10u8 {
            self.process_line_end(content, i, keywords, depth_threshold, indent_size, Ghost(cfg));
            let ghost e = self.model();
            self.at_start = true;
            self.lead = 0;
            self.start_offset = i + 1;
            self.num = self.num + 1;
            self.pos = i + 1;
            if !self.in_block {
                self.in_line = false;
                self.res.clean_content.push(10u8);
            }
            self.clean_start = self.res.clean_content.len();
            proof {
                assert(0 <= self.pos * indent_size) by (nonlinear_arith)
                    requires
                        self.pos >= 0,
                        indent_size >= 0;
            }
            return;
        }
        if self.in_string {
            self.res.clean_content.push(c);
            if c == 92u8 && i + 1 < content.len() {
                self.res.clean_content.push(content[i + 1]);
                self.pos = i + 2;
            } else {
                if c == self.string_char {
                    self.in_string = false;
                }
                self.pos = i + 1;
            }
            proof {
                lemma_lead_bound(self.lead as int, i as int, self.pos as int, indent_size as int);
            }
            return;
        }
        if self.in_block && delim_here(content, block_end, i) {
            self.in_block = false;
            self.pos = i + delim_length(block_end);
            proof {
                lemma_lead_bound(self.lead as int, i as int, self.pos as int, indent_size as int);
            }
            return;
        }
        if self.in_block || self.in_line {
            self.pos = i + 1;
            proof {
                lemma_lead_bound(self.lead as int, i as int, self.pos as int, indent_size as int);
            }
            return;
        }
        if self.at_start {
            if c == 32u8 || c == 9u8 {
                proof {
                    assert(self.lead + indent_size <= (i + 1) * indent_size) by (nonlinear_arith)
                        requires
                            self.lead <= i * indent_size;
                    assert((i + 1) * indent_size <= content@.len() * indent_size) by (nonlinear_arith)
                        requires
                            i + 1 <= content@.len();
                }
                self.lead = self.lead + if c == 32u8 {
                    1
                } else {
                    indent_size
                };
                self.pos = i + 1;
                proof {
                    assert(i * indent_size <= (i + 1) * indent_size) by (nonlinear_arith);
                }
                return;
            }
            self.at_start = false;
            self.start_offset = i;
        }
        proof {
            assert(self.lead <= (i + 1) * indent_size) by (nonlinear_arith)
                requires
                    self.lead <= i * indent_size;
        }
        if delim_here(content, line_comment, i) {
            self.in_line = true;
            self.pos = i + delim_length(line_comment);
            proof {
                assert(self.lead <= self.pos * indent_size) by (nonlinear_arith)
                    requires
                        self.lead <= (i + 1) * indent_size,
                        self.pos >= i + 1;
            }
            return;
        }
        if delim_here(content, block_start, i) {
            self.in_block = true;
            self.pos = i + delim_length(block_start);
            proof {
                assert(self.lead <= self.pos * indent_size) by (nonlinear_arith)
                    requires
                        self.lead <= (i + 1) * indent_size,
                        self.pos >= i + 1;
            }
            return;
        }
        if c == 34u8 || c == 39u8 || c == 96u8 {
            self.in_string = true;
            self.string_char = c;
        }
        self.res.clean_content.push(c);
        self.pos = i + 1;
    }
}

/// Perform a single-pass analysis on the provided content.
pub fn scan(content: &[u8], extension: &str, depth_threshold: usize, indent_size: usize) -> (r: ScanResult)
    requires
        content@.len() < usize::MAX,
        content@.len() * indent_size <= usize::MAX,
        indent_size > 0 || content@.len() == 0,
    ensures
        r.matches(scan_model(content@, scan_config(language_for(extension@), depth_threshold as int, indent_size as int))),
        r.lines <= content@.len() + 1,
        r.hashes@.len() <= r.lines,
{
    let registry = LanguageRegistry::get();
    let lang = registry.get_by_extension(extension);
    let ghost cfg = scan_config(language_for(extension@), depth_threshold as int, indent_size as int);
    let (keywords, line_comment, block_start, block_end) = match lang {
        Some(l) => {
            let (bs, be) = match l.block_comment() {
                Some((a, b)) => (Some(a), Some(b)),
                None => (None, None),
            };
            (strs_chars(l.import_keywords()), delim_bytes(l.line_comment()), delim_bytes(bs), delim_bytes(be))
        },
        None => (Vec::new(), None, None, None),
    };
    proof {
        crate::languages::lemma_registered_delims(extension@);
        assert(cfg.keywords =~= keywords@.map_values(|k: Vec<char>| k@));
        if let Some(l) = language_for(extension@) {
            if let Some(c) = l.line_comment {
                assert(encode_utf8(c).len() > 0) by {
                    assert(encode_utf8(c) =~= vstd::utf8::encode_scalar(c[0] as u32) + encode_utf8(c.drop_first()));
                }
            }
            if let Some(b) = l.block_comment {
                assert(encode_utf8(b.0).len() > 0) by {
                    assert(encode_utf8(b.0) =~= vstd::utf8::encode_scalar(b.0[0] as u32) + encode_utf8(b.0.drop_first()));
                }
                assert(encode_utf8(b.1).len() > 0) by {
                    assert(encode_utf8(b.1) =~= vstd::utf8::encode_scalar(b.1[0] as u32) + encode_utf8(b.1.drop_first()));
                }
            }
        }
    }
    let mut state = ScannerState {
        pos: 0,
        in_string: false,
        string_char: 0,
        in_block: false,
        in_line: false,
        at_start: true,
        lead: 0,
        start_offset: 0,
        num: 1,
        clean_start: 0,
        res: ScanResult {
            lines: 0,
            imports: 0,
            max_depth: 0,
            deep_lines: Vec::new(),
            clean_content: Vec::new(),
            hashes: Vec::new(),
        },
    };
    proof {
        assert(pairs_int(state.res.deep_lines@) =~= Seq::<(int, int)>::empty());
        assert(hashes_int(state.res.hashes@) =~= Seq::<(int, u64)>::empty());
        assert(state.res.clean_content@ =~= Seq::<u8>::empty());
        assert(state.model() == initial_model());
    }
    let n = content.len();
    while state.pos < n
        invariant
            n == content@.len() < usize::MAX,
            content@.len() * indent_size <= usize::MAX,
            indent_size > 0 || n == 0,
            state.bounded(n as nat, indent_size as nat),
            cfg == scan_config(language_for(extension@), depth_threshold as int, indent_size as int),
            cfg.keywords == keywords@.map_values(|k: Vec<char>| k@),
            cfg.line_comment == opt_bytes(line_comment),
            cfg.block_start == opt_bytes(block_start),
            cfg.block_end == opt_bytes(block_end),
            delims_nonempty(cfg),
            run(content@, cfg, state.model()) == run(content@, cfg, initial_model()),
        decreases n - state.pos,
    {
        state.step(content, &keywords, line_comment, block_start, block_end, depth_threshold, indent_size, Ghost(cfg));
    }
    if !state.at_start || state.pos > state.start_offset {
        let p = state.pos;
        state.process_line_end(content, p, &keywords, depth_threshold, indent_size, Ghost(cfg));
    }
    state.res
}

/// The number of line breaks among the bytes.
pub open spec fn byte_breaks(b: Seq<u8>) -> nat
    decreases b.len(),
{
    if b.len() == 0 {
        0
    } else {
        byte_breaks(b.drop_last()) + if b.last() == 10u8 {
            1nat
        } else {
            0nat
        }
    }
}

/// Where the line holding position `p` begins: just after the last line
/// break before `p`, or at 0.
pub open spec fn line_begin(b: Seq<u8>, p: int) -> int
    decreases p,
{
    if p <= 0 {
        0
    } else if b[p - 1] == 10u8 {
        p
    } else {
        line_begin(b, p - 1)
    }
}

proof fn lemma_line_begin_bounds(b: Seq<u8>, p: int)
    requires
        0 <= p,
    ensures
        0 <= line_begin(b, p) <= p,
    decreases p,
{
    if p > 0 && b[p - 1] != 10u8 {
        lemma_line_begin_bounds(b, p - 1);
    }
}

/// Bytes without a line break change neither the count of breaks nor the
/// start of the line.
proof fn lemma_no_break_span(b: Seq<u8>, p: int, q: int)
    requires
        0 <= p <= q <= b.len(),
        forall|k: int| p <= k < q ==> #[trigger] b[k] != 10u8,
    ensures
        byte_breaks(b.take(q)) == byte_breaks(b.take(p)),
        line_begin(b, q) == line_begin(b, p),
    decreases q - p,
{
    if q > p {
        lemma_no_break_span(b, p, q - 1);
        assert(b.take(q).drop_last() =~= b.take(q - 1));
        assert(b.take(q).last() == b[q - 1]);
    }
}

/// A delimiter, when present, holds no line break.
pub open spec fn delim_without_break(d: Option<Seq<u8>>) -> bool {
    d matches Some(x) ==> forall|k: int| 0 <= k < x.len() ==> #[trigger] x[k] != 10u8
}

/// No backslash in the content, and no line break in the delimiters.
pub open spec fn counts_plainly(content: Seq<u8>, cfg: ScanConfig) -> bool {
    &&& forall|k: int| 0 <= k < content.len() ==> #[trigger] content[k] != 92u8
    &&& delim_without_break(cfg.line_comment)
    &&& delim_without_break(cfg.block_start)
    &&& delim_without_break(cfg.block_end)
    &&& delims_nonempty(cfg)
}

/// The scanner has counted the line breaks before its position, and knows
/// where the current line begins.
pub open spec fn lines_inv(content: Seq<u8>, st: ScanModel) -> bool {
    &&& 0 <= st.pos <= content.len()
    &&& st.lines == byte_breaks(content.take(st.pos))
    &&& st.at_start ==> st.start_offset == line_begin(content, st.pos)
    &&& !st.at_start ==> st.pos > line_begin(content, st.pos)
}

/// Skipping a delimiter found at `i` crosses no line break.
proof fn lemma_skip_delim(content: Seq<u8>, d: Option<Seq<u8>>, i: int)
    requires
        0 <= i <= content.len(),
        delim_at(content, d, i),
        delim_without_break(d),
    ensures
        i + delim_len(d) <= content.len(),
        byte_breaks(content.take(i + delim_len(d))) == byte_breaks(content.take(i)),
        line_begin(content, i + delim_len(d)) == line_begin(content, i),
{
    let x = d->Some_0;
    assert forall|k: int| i <= k < i + x.len() implies #[trigger] content[k] != 10u8 by {
        assert(content.skip(i).subrange(0, x.len() as int)[k - i] == x[k - i]);
    }
    lemma_no_break_span(content, i, i + x.len());
}

proof fn lemma_step_lines(content: Seq<u8>, cfg: ScanConfig, st: ScanModel)
    requires
        0 <= st.pos < content.len(),
        lines_inv(content, st),
        counts_plainly(content, cfg),
    ensures
        lines_inv(content, step(content, cfg, st)),
        step(content, cfg, st).pos > st.pos,
{
    let i = st.pos;
    let c = content[i];
    lemma_line_begin_bounds(content, i);
    let n = step(content, cfg, st);
    if c == 10u8 {
        assert(content.take(i + 1).drop_last() =~= content.take(i));
        assert(content.take(i + 1).last() == c);
    } else if st.in_string {
        assert(c != 92u8);
        lemma_no_break_span(content, i, i + 1);
    } else if st.in_block && delim_at(content, cfg.block_end, i) {
        lemma_skip_delim(content, cfg.block_end, i);
    } else if st.in_block || st.in_line {
        lemma_no_break_span(content, i, i + 1);
    } else if st.at_start && (c == 32u8 || c == 9u8) {
        lemma_no_break_span(content, i, i + 1);
    } else if delim_at(content, cfg.line_comment, i) {
        lemma_skip_delim(content, cfg.line_comment, i);
    } else if delim_at(content, cfg.block_start, i) {
        lemma_skip_delim(content, cfg.block_start, i);
    } else {
        lemma_no_break_span(content, i, i + 1);
    }
}

proof fn lemma_run_lines(content: Seq<u8>, cfg: ScanConfig, st: ScanModel)
    requires
        lines_inv(content, st),
        counts_plainly(content, cfg),
    ensures
        lines_inv(content, run(content, cfg, st)),
        run(content, cfg, st).pos == content.len(),
    decreases content.len() - st.pos,
{
    if st.pos < content.len() {
        lemma_step_lines(content, cfg, st);
        lemma_run_lines(content, cfg, step(content, cfg, st));
    }
}

/// Without backslashes (an escape in a string can hide a line break) and
/// with delimiters free of line breaks, a scan counts every line break,
/// and one more line when bytes follow the last one.
pub proof fn lemma_scan_lines_bytes(content: Seq<u8>, cfg: ScanConfig)
    requires
        counts_plainly(content, cfg),
    ensures
        scan_model(content, cfg).lines == byte_breaks(content) + if line_begin(content, content.len() as int)
            < content.len() {
            1int
        } else {
            0int
        },
{
    assert(content.take(0) =~= Seq::<u8>::empty());
    lemma_run_lines(content, cfg, initial_model());
    let st = run(content, cfg, initial_model());
    assert(content.take(content.len() as int) =~= content);
    lemma_line_begin_bounds(content, content.len() as int);
}

/// The number of line breaks among the characters.
pub open spec fn char_breaks(s: Seq<char>) -> nat
    decreases s.len(),
{
    if s.len() == 0 {
        0
    } else {
        char_breaks(s.drop_last()) + if s.last() == '\n' {
            1nat
        } else {
            0nat
        }
    }
}

proof fn lemma_byte_breaks_concat(a: Seq<u8>, b: Seq<u8>)
    ensures
        byte_breaks(a + b) == byte_breaks(a) + byte_breaks(b),
    decreases b.len(),
{
    if b.len() > 0 {
        lemma_byte_breaks_concat(a, b.drop_last());
        assert((a + b).drop_last() =~= a + b.drop_last());
        assert((a + b).last() == b.last());
    } else {
        assert(a + b =~= a);
    }
}

pub(crate) proof fn lemma_char_breaks_concat(a: Seq<char>, b: Seq<char>)
    ensures
        char_breaks(a + b) == char_breaks(a) + char_breaks(b),
    decreases b.len(),
{
    if b.len() > 0 {
        lemma_char_breaks_concat(a, b.drop_last());
        assert((a + b).drop_last() =~= a + b.drop_last());
        assert((a + b).last() == b.last());
    } else {
        assert(a + b =~= a);
    }
}

proof fn lemma_no_ten(b: Seq<u8>)
    requires
        forall|k: int| 0 <= k < b.len() ==> #[trigger] b[k] != 10u8,
    ensures
        byte_breaks(b) == 0,
    decreases b.len(),
{
    if b.len() > 0 {
        lemma_no_ten(b.drop_last());
    }
}

/// The encoding of a character holds a line break exactly when the
/// character is one, and then only that byte.
proof fn lemma_scalar_breaks(c: char)
    ensures
        byte_breaks(encode_scalar(c as u32)) == if c == '\n' {
            1nat
        } else {
            0nat
        },
{
    lemma_scalar_ascii(c);
    if c == '\n' {
        assert((c as u32) == 10u32);
        assert(((c as u32) as u8) == 10u8);
        assert(encode_scalar(c as u32) == seq![10u8]);
        assert(seq![10u8].drop_last() =~= Seq::<u8>::empty());
        assert(byte_breaks(Seq::<u8>::empty()) == 0);
        assert(seq![10u8].last() == 10u8);
        assert(byte_breaks(seq![10u8]) == 1);
    } else {
        lemma_scalar_not_newline(c);
        lemma_no_ten(encode_scalar(c as u32));
    }
}

/// Encoding keeps the number of line breaks.
proof fn lemma_encode_breaks(s: Seq<char>)
    ensures
        byte_breaks(encode_utf8(s)) == char_breaks(s),
    decreases s.len(),
{
    if s.len() == 0 {
        assert(encode_utf8(s) =~= Seq::<u8>::empty());
    } else {
        lemma_encode_breaks(s.drop_first());
        let e = encode_scalar(s[0] as u32);
        assert(encode_utf8(s) == e + encode_utf8(s.drop_first()));
        lemma_byte_breaks_concat(e, encode_utf8(s.drop_first()));
        lemma_scalar_breaks(s[0]);
        assert(s =~= seq![s[0]] + s.drop_first());
        lemma_char_breaks_concat(seq![s[0]], s.drop_first());
        assert(seq![s[0]].drop_last() =~= Seq::<char>::empty());
        assert(char_breaks(Seq::<char>::empty()) == 0);
        assert(char_breaks(seq![s[0]]) == if s[0] == '\n' {
            1nat
        } else {
            0nat
        });
    }
}

/// The line at the end begins before the end exactly when the bytes do not
/// end with a line break.
proof fn lemma_line_begin_end(b: Seq<u8>)
    ensures
        (line_begin(b, b.len() as int) < b.len()) <==> (b.len() > 0 && b.last() != 10u8),
{
    if b.len() > 0 && b.last() != 10u8 {
        lemma_line_begin_bounds(b, b.len() - 1);
    }
}

/// The encoding of a text is empty exactly when the text is, and ends with a
/// line break exactly when the text does.
proof fn lemma_encode_last(s: Seq<char>)
    ensures
        encode_utf8(s).len() > 0 <==> s.len() > 0,
        s.len() > 0 ==> (encode_utf8(s).last() == 10u8 <==> s.last() == '\n'),
{
    if s.len() == 0 {
        assert(encode_utf8(s) =~= Seq::<u8>::empty());
    } else {
        let c = s.last();
        let p = s.drop_last();
        assert(s =~= p + seq![c]);
        lemma_encode_concat(p, seq![c]);
        let e = encode_scalar(c as u32);
        assert(seq![c].drop_first() =~= Seq::<char>::empty());
        assert(encode_utf8(seq![c]) == e + encode_utf8(Seq::<char>::empty()));
        assert(encode_utf8(Seq::<char>::empty()) =~= Seq::<u8>::empty());
        assert(encode_utf8(seq![c]) =~= e);
        lemma_scalar_ascii(c);
        assert(e.len() > 0);
        assert(encode_utf8(s).last() == e.last());
        if (c as u32) < 0x80 {
            if e.last() == 10u8 {
                assert(('\n' as u32) as u8 == 10u8);
                lemma_ascii_byte_injective(c, '\n');
            }
        } else {
            assert(e.last() >= 0x80);
        }
    }
}

/// The pieces of a text: one more than its line breaks, the last one empty
/// exactly when the text is empty or ends with a line break.
proof fn lemma_split_count(s: Seq<char>)
    ensures
        split_seq(s, '\n').len() == char_breaks(s) + 1,
        (split_seq(s, '\n').last().len() == 0) <==> (s.len() == 0 || s.last() == '\n'),
    decreases s.len(),
{
    if s.len() > 0 {
        lemma_split_count(s.drop_last());
        crate::text::lemma_split_seq_nonempty(s.drop_last(), '\n');
    }
}

/// The lines of a text: its line breaks, and one more when it does not end
/// with one.
proof fn lemma_lines_count(s: Seq<char>)
    ensures
        lines_of(s).len() == char_breaks(s) + if s.len() > 0 && s.last() != '\n' {
            1int
        } else {
            0int
        },
{
    lemma_split_count(s);
}

/// A text without backslashes is encoded without the byte 92.
proof fn lemma_encode_no_backslash(s: Seq<char>)
    requires
        forall|i: int| 0 <= i < s.len() ==> #[trigger] s[i] != '\\',
    ensures
        forall|k: int| 0 <= k < encode_utf8(s).len() ==> #[trigger] encode_utf8(s)[k] != 92u8,
    decreases s.len(),
{
    if s.len() > 0 {
        lemma_encode_no_backslash(s.drop_first());
        let c = s[0];
        let e = encode_scalar(c as u32);
        let r = encode_utf8(s.drop_first());
        assert(encode_utf8(s) == e + r);
        lemma_scalar_ascii(c);
        if (c as u32) < 0x80 {
            if e[0] == 92u8 {
                assert(('\\' as u32) as u8 == 92u8);
                lemma_ascii_byte_injective(c, '\\');
            }
        }
        assert forall|k: int| 0 <= k < encode_utf8(s).len() implies #[trigger] encode_utf8(s)[k] != 92u8 by {
            if k < e.len() {
                assert(encode_utf8(s)[k] == e[k]);
            } else {
                assert(encode_utf8(s)[k] == r[k - e.len()]);
            }
        }
    }
}

/// A delimiter on one line is encoded as non-empty bytes without a line break.
proof fn lemma_delim_encoding(c: Seq<char>)
    requires
        c.len() > 0,
        crate::languages::one_line(c),
    ensures
        encode_utf8(c).len() > 0,
        forall|k: int| 0 <= k < encode_utf8(c).len() ==> #[trigger] encode_utf8(c)[k] != 10u8,
{
    lemma_encode_last(c);
    lemma_encode_no_newline(c);
}

/// Without backslashes in the text (an escaped line break inside a string
/// is not counted), a scan counts the lines that `str::lines` yields.
pub proof fn lemma_scan_counts_lines(text: Seq<char>, ext: Seq<char>, depth_threshold: int, indent_size: int)
    requires
        forall|i: int| 0 <= i < text.len() ==> #[trigger] text[i] != '\\',
    ensures
        scan_model(encode_utf8(text), scan_config(language_for(ext), depth_threshold, indent_size)).lines
            == lines_of(text).len(),
{
    let content = encode_utf8(text);
    let cfg = scan_config(language_for(ext), depth_threshold, indent_size);
    crate::languages::lemma_registered_delims(ext);
    crate::languages::lemma_registered_delims_one_line(ext);
    match language_for(ext) {
        Some(l) => {
            match l.line_comment {
                Some(c) => lemma_delim_encoding(c),
                None => {},
            }
            match l.block_comment {
                Some(b) => {
                    lemma_delim_encoding(b.0);
                    lemma_delim_encoding(b.1);
                },
                None => {},
            }
        },
        None => {},
    }
    lemma_encode_no_backslash(text);
    assert(counts_plainly(content, cfg));
    lemma_scan_lines_bytes(content, cfg);
    lemma_encode_breaks(text);
    lemma_line_begin_end(content);
    lemma_encode_last(text);
    lemma_lines_count(text);
}

/// The indentation width of bytes: a space counts one column, a tab
/// `indent_size` columns.
pub open spec fn indent_width(b: Seq<u8>, indent_size: int) -> int
    decreases b.len(),
{
    if b.len() == 0 {
        0
    } else {
        indent_width(b.drop_last(), indent_size) + if b.last() == 32u8 {
            1
        } else if b.last() == 9u8 {
            indent_size
        } else {
            0
        }
    }
}

/// Inside a leading run of spaces and tabs: nothing but indentation seen yet.
spec fn in_leading_indent(content: Seq<u8>, cfg: ScanConfig, st: ScanModel, k: int) -> bool {
    &&& 0 <= st.pos <= k
    &&& st.at_start
    &&& !st.in_string && !st.in_block && !st.in_line
    &&& st.start_offset == 0
    &&& st.max_depth >= 0
    &&& st.lead == indent_width(content.take(st.pos), cfg.indent_size)
}

/// Past the leading run: the file is at least `d` deep, or the current
/// line is still indented at least `l` columns.
spec fn depth_reached(st: ScanModel, indent_size: int, l: int) -> bool {
    &&& 0 <= st.start_offset <= st.pos
    &&& st.lead >= 0
    &&& st.max_depth >= 0
    &&& (st.lead > 0 ==> !st.at_start || st.pos > st.start_offset)
    &&& (st.max_depth >= l / indent_size || st.lead >= l)
}

proof fn lemma_end_line_depth(content: Seq<u8>, cfg: ScanConfig, st: ScanModel, end: int, l: int)
    requires
        cfg.indent_size > 0,
        l >= 0,
        st.lead >= 0,
        st.max_depth >= 0,
        st.max_depth >= l / cfg.indent_size || st.lead >= l,
    ensures
        end_line(content, cfg, st, end).max_depth >= l / cfg.indent_size,
        end_line(content, cfg, st, end).max_depth >= 0,
{
    let d = st.lead / cfg.indent_size;
    if st.lead >= l {
        vstd::arithmetic::div_mod::lemma_div_is_ordered(l, st.lead, cfg.indent_size);
    }
    assert(d >= 0) by {
        vstd::arithmetic::div_mod::lemma_div_pos_is_pos(st.lead, cfg.indent_size);
    }
}

proof fn lemma_step_depth(content: Seq<u8>, cfg: ScanConfig, st: ScanModel, k: int)
    requires
        0 <= st.pos < content.len(),
        0 <= k <= content.len(),
        cfg.indent_size > 0,
        delims_nonempty(cfg),
        forall|j: int| 0 <= j < k ==> #[trigger] content[j] == 32u8 || content[j] == 9u8,
        in_leading_indent(content, cfg, st, k) || depth_reached(
            st,
            cfg.indent_size,
            indent_width(content.take(k), cfg.indent_size),
        ),
    ensures
        in_leading_indent(content, cfg, step(content, cfg, st), k) || depth_reached(
            step(content, cfg, st),
            cfg.indent_size,
            indent_width(content.take(k), cfg.indent_size),
        ),
        step(content, cfg, st).pos > st.pos,
{
    let l = indent_width(content.take(k), cfg.indent_size);
    let i = st.pos;
    let c = content[i];
    let n = step(content, cfg, st);
    lemma_indent_width_nonneg(content.take(i), cfg.indent_size);
    lemma_indent_width_nonneg(content.take(k), cfg.indent_size);
    if in_leading_indent(content, cfg, st, k) && i < k {
        assert(c == 32u8 || c == 9u8);
        assert(content.take(i + 1).drop_last() =~= content.take(i));
        assert(content.take(i + 1).last() == c);
        assert(in_leading_indent(content, cfg, n, k));
    } else {
        if in_leading_indent(content, cfg, st, k) {
            assert(i == k);
            assert(content.take(i) == content.take(k));
            assert(depth_reached(st, cfg.indent_size, l));
        }
        if c == 10u8 {
            lemma_end_line_depth(content, cfg, st, i, l);
        } else if st.in_string {
        } else if st.in_block && delim_at(content, cfg.block_end, i) {
        } else if st.in_block || st.in_line {
        } else if st.at_start && (c == 32u8 || c == 9u8) {
        } else {
        }
        assert(depth_reached(n, cfg.indent_size, l));
    }
}

proof fn lemma_indent_width_nonneg(b: Seq<u8>, indent_size: int)
    requires
        indent_size > 0,
    ensures
        indent_width(b, indent_size) >= 0,
    decreases b.len(),
{
    if b.len() > 0 {
        lemma_indent_width_nonneg(b.drop_last(), indent_size);
    }
}

proof fn lemma_run_depth(content: Seq<u8>, cfg: ScanConfig, st: ScanModel, k: int)
    requires
        0 <= k <= content.len(),
        cfg.indent_size > 0,
        delims_nonempty(cfg),
        forall|j: int| 0 <= j < k ==> #[trigger] content[j] == 32u8 || content[j] == 9u8,
        in_leading_indent(content, cfg, st, k) || depth_reached(
            st,
            cfg.indent_size,
            indent_width(content.take(k), cfg.indent_size),
        ),
        0 <= st.pos <= content.len(),
    ensures
        in_leading_indent(content, cfg, run(content, cfg, st), k) || depth_reached(
            run(content, cfg, st),
            cfg.indent_size,
            indent_width(content.take(k), cfg.indent_size),
        ),
        run(content, cfg, st).pos == content.len(),
    decreases content.len() - st.pos,
{
    if st.pos < content.len() {
        lemma_step_depth(content, cfg, st, k);
        lemma_run_depth(content, cfg, step(content, cfg, st), k);
    }
}

/// Columns of tabs: a run of `k` tabs is `k * indent_size` columns wide.
proof fn lemma_tabs_width(b: Seq<u8>, indent_size: int)
    requires
        forall|j: int| 0 <= j < b.len() ==> #[trigger] b[j] == 9u8,
    ensures
        indent_width(b, indent_size) == b.len() * indent_size,
    decreases b.len(),
{
    if b.len() > 0 {
        lemma_tabs_width(b.drop_last(), indent_size);
        assert(b.last() == 9u8);
        assert((b.len() - 1) * indent_size + indent_size == b.len() * indent_size) by (nonlinear_arith);
    }
}

/// A file that starts with a run of spaces and tabs is at least as deep as
/// that run: a space counts one column, a tab `indent_size` columns, and a
/// line is one level deep per `indent_size` columns. So `k` leading tabs make
/// the file at least `k` levels deep.
pub proof fn lemma_leading_indent_depth(content: Seq<u8>, cfg: ScanConfig, k: int)
    requires
        cfg.indent_size > 0,
        delims_nonempty(cfg),
        0 <= k <= content.len(),
        forall|j: int| 0 <= j < k ==> #[trigger] content[j] == 32u8 || content[j] == 9u8,
    ensures
        scan_model(content, cfg).max_depth >= indent_width(content.take(k), cfg.indent_size) / cfg.indent_size,
        (forall|j: int| 0 <= j < k ==> #[trigger] content[j] == 9u8) ==> scan_model(content, cfg).max_depth >= k,
{
    let l = indent_width(content.take(k), cfg.indent_size);
    lemma_indent_width_nonneg(content.take(k), cfg.indent_size);
    assert(content.take(0) =~= Seq::<u8>::empty());
    assert(in_leading_indent(content, cfg, initial_model(), k));
    lemma_run_depth(content, cfg, initial_model(), k);
    let st = run(content, cfg, initial_model());
    if in_leading_indent(content, cfg, st, k) {
        assert(st.pos == k);
        assert(content.take(st.pos) == content.take(k));
    }
    assert(depth_reached(st, cfg.indent_size, l));
    if !st.at_start || st.pos > st.start_offset {
        lemma_end_line_depth(content, cfg, st, st.pos, l);
    } else {
        assert(st.lead == 0);
        if !(st.max_depth >= l / cfg.indent_size) {
            assert(l <= 0);
            assert(l == 0);
        }
    }
    if forall|j: int| 0 <= j < k ==> #[trigger] content[j] == 9u8 {
        assert forall|j: int| 0 <= j < content.take(k).len() implies #[trigger] content.take(k)[j] == 9u8 by {
            assert(content.take(k)[j] == content[j]);
        }
        lemma_tabs_width(content.take(k), cfg.indent_size);
        assert((k * cfg.indent_size) / cfg.indent_size == k) by (nonlinear_arith)
            requires
                cfg.indent_size > 0,
        ;
    }
}

/// The same, for the scanner's configuration of any file extension.
pub proof fn lemma_leading_indent_depth_for(content: Seq<u8>, ext: Seq<char>, depth_threshold: int, indent_size: int, k: int)
    requires
        indent_size > 0,
        0 <= k <= content.len(),
        forall|j: int| 0 <= j < k ==> #[trigger] content[j] == 32u8 || content[j] == 9u8,
    ensures
        ({
            let cfg = scan_config(language_for(ext), depth_threshold, indent_size);
            &&& scan_model(content, cfg).max_depth >= indent_width(content.take(k), indent_size) / indent_size
            &&& (forall|j: int| 0 <= j < k ==> #[trigger] content[j] == 9u8) ==> scan_model(content, cfg).max_depth >= k
        }),
{
    let cfg = scan_config(language_for(ext), depth_threshold, indent_size);
    crate::languages::lemma_registered_delims(ext);
    crate::languages::lemma_registered_delims_one_line(ext);
    match language_for(ext) {
        Some(l) => {
            match l.line_comment {
                Some(c) => lemma_delim_encoding(c),
                None => {},
            }
            match l.block_comment {
                Some(b) => {
                    lemma_delim_encoding(b.0);
                    lemma_delim_encoding(b.1);
                },
                None => {},
            }
        },
        None => {},
    }
    assert(delims_nonempty(cfg));
    lemma_leading_indent_depth(content, cfg, k);
}

} // verus!
