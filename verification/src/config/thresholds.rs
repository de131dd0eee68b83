//! Threshold definitions, rule severities and language-specific overrides.
//!
//! The repetition limit is a percentage that the configuration file gives as a
//! floating-point number. It is held here as the bit pattern of that `f64`
//! (`f64::to_bits`), so that it is carried and compared exactly.

use vstd::prelude::*;
use crate::text::str_eq;

verus! {

/// Importance level of a rule violation.
#[derive(Debug, Clone, Copy, PartialEq, Eq, Structural, Default)]
pub enum Severity {
    /// Blocks the build (exit code 1).
    #[default]
    Error,
    /// Informational warning (exit code 0).
    Warning,
}

/// Mapping of rules to their severity levels.
#[derive(Debug, Clone, Copy, PartialEq, Eq, Structural, Default)]
pub struct RuleSeverities {
    /// Severity for the `max-lines` rule.
    pub max_lines: Option<Severity>,
    /// Severity for the `max-depth` rule.
    pub max_depth: Option<Severity>,
    /// Severity for the `max-imports` rule.
    pub max_imports: Option<Severity>,
    /// Severity for the `max-repetition` rule.
    pub max_repetition: Option<Severity>,
}

/// A configured severity, or `Error` where none is configured.
pub open spec fn or_error(s: Option<Severity>) -> Severity {
    match s {
        Some(v) => v,
        None => Severity::Error,
    }
}

/// The later setting wins where it is present.
pub open spec fn later<T>(old: Option<T>, new: Option<T>) -> Option<T> {
    if new is Some {
        new
    } else {
        old
    }
}

impl RuleSeverities {
    /// The severity of `rule` (one of `max-lines`, `max-depth`, `max-imports`,
    /// `max-repetition`); any other rule, and any rule left unset, is an error.
    pub open spec fn severity_of(self, rule: Seq<char>) -> Severity {
        if rule == "max-lines"@ {
            or_error(self.max_lines)
        } else if rule == "max-depth"@ {
            or_error(self.max_depth)
        } else if rule == "max-imports"@ {
            or_error(self.max_imports)
        } else if rule == "max-repetition"@ {
            or_error(self.max_repetition)
        } else {
            Severity::Error
        }
    }

    /// Returns the severity for a specific rule, defaulting to Error.
    pub fn get(&self, rule: &str) -> (r: Severity)
        ensures
            r == self.severity_of(rule@),
    {
        if str_eq(rule, "max-lines") {
            unwrap_or_error(self.max_lines)
        } else if str_eq(rule, "max-depth") {
            unwrap_or_error(self.max_depth)
        } else if str_eq(rule, "max-imports") {
            unwrap_or_error(self.max_imports)
        } else if str_eq(rule, "max-repetition") {
            unwrap_or_error(self.max_repetition)
        } else {
            Severity::Error
        }
    }

    /// Merges another set of severities into this one: each severity that
    /// `other` sets replaces the current one.
    pub fn extend(&mut self, other: &Self)
        ensures
            final(self).max_lines == later(old(self).max_lines, other.max_lines),
            final(self).max_depth == later(old(self).max_depth, other.max_depth),
            final(self).max_imports == later(old(self).max_imports, other.max_imports),
            final(self).max_repetition == later(old(self).max_repetition, other.max_repetition),
    {
        if let Some(v) = other.max_lines {
            self.max_lines = Some(v);
        }
        if let Some(v) = other.max_depth {
            self.max_depth = Some(v);
        }
        if let Some(v) = other.max_imports {
            self.max_imports = Some(v);
        }
        if let Some(v) = other.max_repetition {
            self.max_repetition = Some(v);
        }
    }
}

/// With no severity configured, a violation of any rule is an error.
pub proof fn lemma_unset_severities_are_errors(rule: Seq<char>)
    ensures
        (RuleSeverities { max_lines: None, max_depth: None, max_imports: None, max_repetition: None }).severity_of(
            rule,
        ) == Severity::Error,
{
}

fn unwrap_or_error(s: Option<Severity>) -> (r: Severity)
    ensures
        r == or_error(s),
{
    match s {
        Some(v) => v,
        None => Severity::Error,
    }
}

/// Defines health metric limits for analysis.
#[derive(Debug, Clone, Copy, PartialEq, Eq, Structural)]
pub struct Thresholds {
    /// Maximum allowed source lines of code.
    pub max_lines: usize,
    /// Maximum allowed control flow nesting depth.
    pub max_depth: usize,
    /// Maximum allowed import/dependency statements.
    pub max_imports: usize,
    /// Maximum allowed repetition percentage (0-100), as the bits of its `f64`.
    pub max_repetition_bits: u64,
    /// Minimum identical lines to trigger repetition detection.
    pub min_duplicate_lines: usize,
}

/// The bits of the `f64` value `15.0`.
pub const FIFTEEN_PERCENT_BITS: u64 = 0x402E_0000_0000_0000u64;

pub fn default_max_lines() -> (r: usize)
    ensures
        r == 400,
{
    400
}

pub fn default_max_depth() -> (r: usize)
    ensures
        r == 6,
{
    6
}

pub fn default_max_imports() -> (r: usize)
    ensures
        r == 25,
{
    25
}

/// The default repetition limit, 15%, as the bits of its `f64`.
pub fn default_max_repetition() -> (r: u64)
    ensures
        r == FIFTEEN_PERCENT_BITS,
{
    FIFTEEN_PERCENT_BITS
}

pub fn default_min_duplicate_lines() -> (r: usize)
    ensures
        r == 4,
{
    4
}

/// The built-in limits.
pub open spec fn spec_default_thresholds() -> Thresholds {
    Thresholds {
        max_lines: 400,
        max_depth: 6,
        max_imports: 25,
        max_repetition_bits: FIFTEEN_PERCENT_BITS,
        min_duplicate_lines: 4,
    }
}

impl Default for Thresholds {
    fn default() -> (r: Self)
        ensures
            r == spec_default_thresholds(),
    {
        Thresholds {
            max_lines: 400,
            max_depth: 6,
            max_imports: 25,
            max_repetition_bits: FIFTEEN_PERCENT_BITS,
            min_duplicate_lines: 4,
        }
    }
}

/// The `f64` with these bits is a NaN.
pub open spec fn is_nan_bits(bits: u64) -> bool {
    (bits >> 52u64) & 0x7FFu64 == 0x7FFu64 && bits & 0xF_FFFF_FFFF_FFFFu64 != 0
}

/// Whether a configured repetition limit differs from the default 15%, as
/// `(x - 15.0).abs() > f64::EPSILON` decides it. Neighbouring `f64` values near 15
/// lie `2^-49` apart, more than `f64::EPSILON`, so every `x` other than `15.0`
/// passes that test, except a NaN, for which the comparison is false.
pub open spec fn repetition_differs_from_default(bits: u64) -> bool {
    bits != FIFTEEN_PERCENT_BITS && !is_nan_bits(bits)
}

pub fn repetition_is_custom(bits: u64) -> (r: bool)
    ensures
        r == repetition_differs_from_default(bits),
{
    bits != FIFTEEN_PERCENT_BITS && !((bits >> 52u64) & 0x7FFu64 == 0x7FFu64 && bits
        & 0xF_FFFF_FFFF_FFFFu64 != 0)
}

/// Sparse threshold structure for specific overrides.
#[derive(Debug, Clone, Copy, PartialEq, Eq, Structural, Default)]
pub struct PartialThresholds {
    pub max_lines: Option<usize>,
    pub max_depth: Option<usize>,
    pub max_imports: Option<usize>,
    /// The repetition limit, as the bits of its `f64`.
    pub max_repetition_bits: Option<u64>,
    pub min_duplicate_lines: Option<usize>,
}

/// `new` is `old` extended by `other`: each per-language override and each
/// custom override (whatever its extension) that `other` sets replaces the
/// one of `old`; the others stay. So does the override that applies to each
/// extension.
pub open spec fn overrides_extended(old: ThresholdsOverrides, other: ThresholdsOverrides, new: ThresholdsOverrides) -> bool {
    &&& new.rs == later(old.rs, other.rs)
    &&& new.py == later(old.py, other.py)
    &&& new.js == later(old.js, other.js)
    &&& new.ts == later(old.ts, other.ts)
    &&& new.java == later(old.java, other.java)
    &&& new.cs == later(old.cs, other.cs)
    &&& new.gd == later(old.gd, other.gd)
    &&& new.lua == later(old.lua, other.lua)
    &&& new.go == later(old.go, other.go)
    &&& new.php == later(old.php, other.php)
    &&& new.cpp == later(old.cpp, other.cpp)
    &&& forall|e: Seq<char>| #[trigger] new.custom_for(e) == later(old.custom_for(e), other.custom_for(e))
    &&& forall|e: Seq<char>| #[trigger] new.override_for(e) == later(old.override_for(e), other.override_for(e))
}

/// Known and custom language overrides.
#[derive(Debug, Clone, Default)]
pub struct ThresholdsOverrides {
    /// Rust overrides (.rs)
    pub rs: Option<PartialThresholds>,
    /// Python overrides (.py)
    pub py: Option<PartialThresholds>,
    /// JavaScript overrides (.js, .mjs, .cjs)
    pub js: Option<PartialThresholds>,
    /// TypeScript overrides (.ts, .tsx)
    pub ts: Option<PartialThresholds>,
    /// Java overrides (.java)
    pub java: Option<PartialThresholds>,
    /// C# overrides (.cs)
    pub cs: Option<PartialThresholds>,
    /// `GDScript` overrides (.gd)
    pub gd: Option<PartialThresholds>,
    /// `Lua` overrides (.lua)
    pub lua: Option<PartialThresholds>,
    /// `Go` overrides (.go)
    pub go: Option<PartialThresholds>,
    /// `PHP` overrides (.php)
    pub php: Option<PartialThresholds>,
    /// `C/C++` overrides
    pub cpp: Option<PartialThresholds>,
    /// Custom overrides for any other extension, each extension at most once
    /// (see `wf`; `set_custom` keeps it so).
    pub custom: Vec<(String, PartialThresholds)>,
}

/// The extensions that share the C/C++ override.
pub open spec fn is_cpp_ext(ext: Seq<char>) -> bool {
    ext == "cpp"@ || ext == "c"@ || ext == "h"@ || ext == "hpp"@ || ext == "cc"@ || ext == "cxx"@
        || ext == "hh"@ || ext == "hxx"@
}

/// Looks up `ext` among custom entries.
pub open spec fn custom_lookup(entries: Seq<(String, PartialThresholds)>, ext: Seq<char>) -> Option<
    PartialThresholds,
>
    decreases entries.len(),
{
    if entries.len() == 0 {
        None
    } else if entries[0].0@ == ext {
        Some(entries[0].1)
    } else {
        custom_lookup(entries.drop_first(), ext)
    }
}

/// Each extension appears once.
pub open spec fn keys_unique(entries: Seq<(String, PartialThresholds)>) -> bool {
    forall|i: int, j: int|
        0 <= i < j < entries.len() ==> #[trigger] entries[i].0@ != #[trigger] entries[j].0@
}

pub proof fn lemma_custom_lookup(entries: Seq<(String, PartialThresholds)>, ext: Seq<char>)
    requires
        keys_unique(entries),
    ensures
        custom_lookup(entries, ext) is None <==> forall|i: int|
            0 <= i < entries.len() ==> #[trigger] entries[i].0@ != ext,
        forall|i: int|
            0 <= i < entries.len() && #[trigger] entries[i].0@ == ext ==> custom_lookup(
                entries,
                ext,
            ) == Some(entries[i].1),
    decreases entries.len(),
{
    if entries.len() > 0 {
        let rest = entries.drop_first();
        assert(keys_unique(rest)) by {
            assert forall|i: int, j: int|
                0 <= i < j < rest.len() implies #[trigger] rest[i].0@ != #[trigger] rest[j].0@ by {
                assert(entries[i + 1].0@ != entries[j + 1].0@);
            }
        }
        lemma_custom_lookup(rest, ext);
        assert forall|i: int| 0 < i < entries.len() implies #[trigger] entries[i].0@ == rest[i
            - 1].0@ by {}
    }
}

impl ThresholdsOverrides {
    pub open spec fn custom_entries(&self) -> Seq<(String, PartialThresholds)> {
        self.custom@
    }

    /// The custom overrides, keyed by extension.
    pub open spec fn custom_for(&self, ext: Seq<char>) -> Option<PartialThresholds> {
        custom_lookup(self.custom_entries(), ext)
    }

    /// The per-language overrides (all but the custom ones) are those of `other`.
    pub open spec fn same_builtin(&self, other: Self) -> bool {
        &&& self.rs == other.rs
        &&& self.py == other.py
        &&& self.js == other.js
        &&& self.ts == other.ts
        &&& self.java == other.java
        &&& self.cs == other.cs
        &&& self.gd == other.gd
        &&& self.lua == other.lua
        &&& self.go == other.go
        &&& self.php == other.php
        &&& self.cpp == other.cpp
    }

    /// Each custom extension appears once.
    pub open spec fn wf(&self) -> bool {
        keys_unique(self.custom@)
    }

    /// The override that applies to files with extension `ext`.
    pub open spec fn override_for(&self, ext: Seq<char>) -> Option<PartialThresholds> {
        if ext == "rs"@ {
            self.rs
        } else if ext == "py"@ {
            self.py
        } else if ext == "js"@ || ext == "mjs"@ || ext == "cjs"@ {
            self.js
        } else if ext == "ts"@ || ext == "tsx"@ {
            self.ts
        } else if ext == "java"@ {
            self.java
        } else if ext == "cs"@ {
            self.cs
        } else if ext == "gd"@ {
            self.gd
        } else if ext == "lua"@ {
            self.lua
        } else if ext == "go"@ {
            self.go
        } else if ext == "php"@ {
            self.php
        } else if is_cpp_ext(ext) {
            self.cpp
        } else {
            self.custom_for(ext)
        }
    }

    /// No override at all.
    pub fn new() -> (r: Self)
        ensures
            r.wf(),
            r.rs is None && r.py is None && r.js is None && r.ts is None && r.java is None
                && r.cs is None && r.gd is None && r.lua is None && r.go is None && r.php is None
                && r.cpp is None,
            forall|e: Seq<char>| #[trigger] r.custom_for(e) is None,
    {
        ThresholdsOverrides {
            rs: None,
            py: None,
            js: None,
            ts: None,
            java: None,
            cs: None,
            gd: None,
            lua: None,
            go: None,
            php: None,
            cpp: None,
            custom: Vec::new(),
        }
    }

    /// Sets the custom override for `ext`, replacing any earlier one.
    pub fn set_custom(&mut self, ext: String, partial: PartialThresholds)
        requires
            old(self).wf(),
        ensures
            final(self).wf(),
            final(self).same_builtin(*old(self)),
            final(self).custom_for(ext@) == Some(partial),
            forall|e: Seq<char>|
                e != ext@ ==> #[trigger] final(self).custom_for(e) == old(self).custom_for(e),
    {
        let n = self.custom.len();
        let mut i: usize = 0;
        while i < n
            invariant
                n == self.custom@.len(),
                0 <= i <= n,
                keys_unique(self.custom@),
                self.same_builtin(*old(self)),
                self.custom@ == old(self).custom@,
                forall|j: int| 0 <= j < i ==> #[trigger] self.custom@[j].0@ != ext@,
            decreases n - i,
        {
            if str_eq(self.custom[i].0.as_str(), ext.as_str()) {
                let ghost before = self.custom@;
                proof {
                    lemma_custom_lookup(before, ext@);
                }
                self.custom.set(i, (ext, partial));
                proof {
                    let after = self.custom@;
                    assert(keys_unique(after)) by {
                        assert forall|a: int, b: int|
                            0 <= a < b < after.len() implies #[trigger] after[a].0@
                            != #[trigger] after[b].0@ by {
                            assert(before[a].0@ != before[b].0@);
                        }
                    }
                    lemma_custom_lookup(after, ext@);
                    assert(after[i as int].0@ == ext@);
                    assert forall|e: Seq<char>| e != ext@ implies #[trigger] custom_lookup(
                        after,
                        e,
                    ) == custom_lookup(before, e) by {
                        lemma_custom_lookup(after, e);
                        lemma_custom_lookup(before, e);
                        if custom_lookup(before, e) is None {
                            assert forall|k: int| 0 <= k < after.len() implies #[trigger] after[k].0@
                                != e by {
                                if k != i {
                                    assert(before[k].0@ != e);
                                }
                            }
                        } else {
                            let k = choose|k: int| 0 <= k < before.len() && #[trigger] before[k].0@ == e;
                            assert(after[k] == before[k]);
                        }
                    }
                }
                return;
            }
            i = i + 1;
        }
        let ghost before = self.custom@;
        proof {
            lemma_custom_lookup(before, ext@);
        }
        self.custom.push((ext, partial));
        proof {
            let after = self.custom@;
            assert(keys_unique(after)) by {
                assert forall|a: int, b: int|
                    0 <= a < b < after.len() implies #[trigger] after[a].0@
                    != #[trigger] after[b].0@ by {
                    if b < before.len() {
                        assert(before[a].0@ != before[b].0@);
                    }
                }
            }
            lemma_custom_lookup(after, ext@);
            assert(after[n as int].0@ == ext@);
            assert forall|e: Seq<char>| e != ext@ implies #[trigger] custom_lookup(after, e)
                == custom_lookup(before, e) by {
                lemma_custom_lookup(after, e);
                lemma_custom_lookup(before, e);
                if custom_lookup(before, e) is None {
                    assert forall|k: int| 0 <= k < after.len() implies #[trigger] after[k].0@
                        != e by {
                        if k < n {
                            assert(before[k].0@ != e);
                        }
                    }
                } else {
                    let k = choose|k: int| 0 <= k < before.len() && #[trigger] before[k].0@ == e;
                    assert(after[k] == before[k]);
                }
            }
        }
    }

    /// Returns the override for a specific extension if it exists.
    pub fn get(&self, ext: &str) -> (r: Option<&PartialThresholds>)
        requires
            self.wf(),
        ensures
            r matches Some(p) ==> self.override_for(ext@) == Some(*p),
            r is None ==> self.override_for(ext@) is None,
    {
        if str_eq(ext, "rs") {
            self.rs.as_ref()
        } else if str_eq(ext, "py") {
            self.py.as_ref()
        } else if str_eq(ext, "js") || str_eq(ext, "mjs") || str_eq(ext, "cjs") {
            self.js.as_ref()
        } else if str_eq(ext, "ts") || str_eq(ext, "tsx") {
            self.ts.as_ref()
        } else if str_eq(ext, "java") {
            self.java.as_ref()
        } else if str_eq(ext, "cs") {
            self.cs.as_ref()
        } else if str_eq(ext, "gd") {
            self.gd.as_ref()
        } else if str_eq(ext, "lua") {
            self.lua.as_ref()
        } else if str_eq(ext, "go") {
            self.go.as_ref()
        } else if str_eq(ext, "php") {
            self.php.as_ref()
        } else if str_eq(ext, "cpp") || str_eq(ext, "c") || str_eq(ext, "h") || str_eq(ext, "hpp")
            || str_eq(ext, "cc") || str_eq(ext, "cxx") || str_eq(ext, "hh") || str_eq(ext, "hxx") {
            self.cpp.as_ref()
        } else {
            self.get_custom(ext)
        }
    }

    fn get_custom(&self, ext: &str) -> (r: Option<&PartialThresholds>)
        requires
            self.wf(),
        ensures
            r matches Some(p) ==> self.custom_for(ext@) == Some(*p),
            r is None ==> self.custom_for(ext@) is None,
    {
        proof {
            lemma_custom_lookup(self.custom@, ext@);
        }
        let n = self.custom.len();
        let mut i: usize = 0;
        while i < n
            invariant
                n == self.custom@.len(),
                0 <= i <= n,
                keys_unique(self.custom@),
                forall|j: int| 0 <= j < i ==> #[trigger] self.custom@[j].0@ != ext@,
            decreases n - i,
        {
            if str_eq(self.custom[i].0.as_str(), ext) {
                proof {
                    lemma_custom_lookup(self.custom@, ext@);
                }
                return Some(&self.custom[i].1);
            }
            i = i + 1;
        }
        None
    }

    /// Takes each per-language override that `other` sets.
    fn extend_builtin(&mut self, other: &Self)
        ensures
            final(self).custom@ == old(self).custom@,
            final(self).rs == later(old(self).rs, other.rs),
            final(self).py == later(old(self).py, other.py),
            final(self).js == later(old(self).js, other.js),
            final(self).ts == later(old(self).ts, other.ts),
            final(self).java == later(old(self).java, other.java),
            final(self).cs == later(old(self).cs, other.cs),
            final(self).gd == later(old(self).gd, other.gd),
            final(self).lua == later(old(self).lua, other.lua),
            final(self).go == later(old(self).go, other.go),
            final(self).php == later(old(self).php, other.php),
            final(self).cpp == later(old(self).cpp, other.cpp),
    {
        if other.rs.is_some() {
            self.rs = other.rs;
        }
        if other.py.is_some() {
            self.py = other.py;
        }
        if other.js.is_some() {
            self.js = other.js;
        }
        if other.ts.is_some() {
            self.ts = other.ts;
        }
        if other.java.is_some() {
            self.java = other.java;
        }
        if other.gd.is_some() {
            self.gd = other.gd;
        }
        if other.cs.is_some() {
            self.cs = other.cs;
        }
        if other.lua.is_some() {
            self.lua = other.lua;
        }
        if other.go.is_some() {
            self.go = other.go;
        }
        if other.php.is_some() {
            self.php = other.php;
        }
        if other.cpp.is_some() {
            self.cpp = other.cpp;
        }
    }

    /// Sets each of the custom overrides `entries`; the first entry for an
    /// extension wins over later ones.
    fn extend_custom(&mut self, entries: Vec<(String, PartialThresholds)>)
        requires
            old(self).wf(),
        ensures
            final(self).wf(),
            final(self).same_builtin(*old(self)),
            forall|e: Seq<char>| #[trigger] final(self).custom_for(e) == later(
                old(self).custom_for(e),
                custom_lookup(entries@, e),
            ),
    {
        let ghost mid = *self;
        let mut entries = entries;
        let ghost orig = entries@;
        proof {
            assert(orig.skip(orig.len() as int) =~= Seq::<(String, PartialThresholds)>::empty());
            assert(orig.take(orig.len() as int) =~= orig);
        }
        while entries.len() > 0
            invariant
                entries@ == orig.take(entries@.len() as int),
                entries@.len() <= orig.len(),
                self.wf(),
                self.same_builtin(mid),
                forall|e: Seq<char>| #[trigger]
                    self.custom_for(e) == later(
                        mid.custom_for(e),
                        custom_lookup(orig.skip(entries@.len() as int), e),
                    ),
            decreases entries@.len(),
        {
            let ghost k = entries@.len() as int;
            match entries.pop() {
                Some((ext, partial)) => {
                    proof {
                        assert(orig.skip(k - 1).drop_first() =~= orig.skip(k));
                        assert(orig.skip(k - 1)[0] == orig[k - 1]);
                        assert(entries@ =~= orig.take(k - 1));
                    }
                    self.set_custom(ext, partial);
                },
                None => {},
            }
        }
        proof {
            assert(orig.skip(0) =~= orig);
        }
    }

    /// Extends the current overrides with another set: every override that
    /// `other` has replaces the current one for the same language or extension.
    pub fn extend(&mut self, other: Self)
        requires
            old(self).wf(),
        ensures
            final(self).wf(),
            overrides_extended(*old(self), other, *final(self)),
    {
        self.extend_builtin(&other);
        self.extend_custom(other.custom);
        proof {
            lemma_extended_lookup(*old(self), other, *self);
        }
    }
}

/// When each per-language and each custom override is extended, so is the
/// override that applies to each extension.
proof fn lemma_extended_lookup(old: ThresholdsOverrides, other: ThresholdsOverrides, new: ThresholdsOverrides)
    requires
        new.rs == later(old.rs, other.rs),
        new.py == later(old.py, other.py),
        new.js == later(old.js, other.js),
        new.ts == later(old.ts, other.ts),
        new.java == later(old.java, other.java),
        new.cs == later(old.cs, other.cs),
        new.gd == later(old.gd, other.gd),
        new.lua == later(old.lua, other.lua),
        new.go == later(old.go, other.go),
        new.php == later(old.php, other.php),
        new.cpp == later(old.cpp, other.cpp),
        forall|e: Seq<char>| #[trigger] new.custom_for(e) == later(old.custom_for(e), other.custom_for(e)),
    ensures
        overrides_extended(old, other, new),
{
    assert forall|e: Seq<char>| #[trigger] new.override_for(e) == later(old.override_for(e), other.override_for(e)) by {
        assert(new.custom_for(e) == later(old.custom_for(e), other.custom_for(e)));
    }
}

} // verus!
