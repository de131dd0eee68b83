//! Global configuration and threshold resolution.

pub mod thresholds;
pub mod ui;

use vstd::prelude::*;
use crate::languages::{Language, LanguageRegistry, LanguageSpec, language_for, lookup_extension, registered_languages};
use crate::text::{chars_of, chars_contain_from, contains_seq, lemma_find_from_skip};
use thresholds::{
    overrides_extended,
    FIFTEEN_PERCENT_BITS, PartialThresholds, RuleSeverities, Thresholds, ThresholdsOverrides, later,
    repetition_differs_from_default, repetition_is_custom, spec_default_thresholds,
};
use ui::UIConfig;

verus! {

/// Threshold management container.
#[derive(Debug)]
pub struct ThresholdsConfig {
    /// Default thresholds for all files.
    pub global: Thresholds,
    /// Language-specific overrides.
    pub overrides: ThresholdsOverrides,
    /// Rule-specific severity levels.
    pub severities: RuleSeverities,
}

/// Global analyzer configuration.
#[derive(Debug)]
pub struct Config {
    /// Patterns for files/directories to exclude.
    pub exclude: Vec<String>,
    /// Global and language-specific threshold overrides.
    pub thresholds: ThresholdsConfig,
    /// Look for repeated code across files as well as within each file.
    pub cross_file_repetition: bool,
    /// Terminal report settings.
    pub ui: UIConfig,
}

/// The patterns excluded when a configuration file names none.
pub open spec fn spec_default_excludes() -> Seq<Seq<char>> {
    seq![
        "node_modules"@,
        "vendor"@,
        "dist"@,
        "target"@,
        "__pycache__"@,
        "build"@,
        ".git"@,
    ]
}

pub open spec fn strings_view(v: Seq<String>) -> Seq<Seq<char>> {
    v.map_values(|s: String| s@)
}

pub fn default_excludes() -> (r: Vec<String>)
    ensures
        strings_view(r@) == spec_default_excludes(),
{
    let mut r: Vec<String> = Vec::new();
    r.push("node_modules".to_owned());
    r.push("vendor".to_owned());
    r.push("dist".to_owned());
    r.push("target".to_owned());
    r.push("__pycache__".to_owned());
    r.push("build".to_owned());
    r.push(".git".to_owned());
    proof {
        assert(strings_view(r@) =~= spec_default_excludes());
    }
    r
}

/// A configured value replaces the base one only where it differs from the built-in default.
pub open spec fn pick(configured: usize, default: usize, base: usize) -> usize {
    if configured != default {
        configured
    } else {
        base
    }
}

/// The limits after applying the global configuration to a base: each
/// global limit that differs from its built-in default replaces the base one.
pub open spec fn apply_global(base: Thresholds, g: Thresholds) -> Thresholds {
    Thresholds {
        max_lines: pick(g.max_lines, 400, base.max_lines),
        max_depth: pick(g.max_depth, 6, base.max_depth),
        max_imports: pick(g.max_imports, 25, base.max_imports),
        max_repetition_bits: if repetition_differs_from_default(g.max_repetition_bits) {
            g.max_repetition_bits
        } else {
            base.max_repetition_bits
        },
        min_duplicate_lines: pick(g.min_duplicate_lines, 4, base.min_duplicate_lines),
    }
}

pub open spec fn or_keep<T>(o: Option<T>, v: T) -> T {
    match o {
        Some(x) => x,
        None => v,
    }
}

/// The limits after applying a language override: each limit it sets wins.
pub open spec fn apply_override(t: Thresholds, o: PartialThresholds) -> Thresholds {
    Thresholds {
        max_lines: or_keep(o.max_lines, t.max_lines),
        max_depth: or_keep(o.max_depth, t.max_depth),
        max_imports: or_keep(o.max_imports, t.max_imports),
        max_repetition_bits: or_keep(o.max_repetition_bits, t.max_repetition_bits),
        min_duplicate_lines: or_keep(o.min_duplicate_lines, t.min_duplicate_lines),
    }
}

/// Looking an extension up passes over the last languages when none of them lists it.
proof fn lemma_lookup_skips(langs: Seq<LanguageSpec>, x: Seq<char>, k: int)
    requires
        0 <= k <= langs.len(),
        forall|j: int| k <= j < langs.len() ==> !(#[trigger] langs[j]).extensions.contains(x),
    ensures
        lookup_extension(langs, x) == lookup_extension(langs.take(k), x),
    decreases langs.len() - k,
{
    if k < langs.len() {
        assert(langs.last() == langs[langs.len() - 1]);
        lemma_lookup_skips(langs.drop_last(), x, k);
        assert(langs.drop_last().take(k) =~= langs.take(k));
    } else {
        assert(langs.take(k) =~= langs);
    }
}

/// None of `a`, `b`, `c` is listed in `exts`, when each entry differs from all three.
proof fn lemma_not_listed(exts: Seq<Seq<char>>, a: Seq<char>, b: Seq<char>, c: Seq<char>)
    requires
        forall|j: int| 0 <= j < exts.len() ==> #[trigger] exts[j] != a && exts[j] != b && exts[j] != c,
    ensures
        !exts.contains(a) && !exts.contains(b) && !exts.contains(c),
{
}

/// What merging `other` into `base` gives: the exclusions of both, the
/// global limits of `other` that differ from the built-in defaults, and the
/// severities, overrides and terminal settings that `other` sets.
pub open spec fn merge_result(base: Config, other: Config, new: Config) -> bool {
    &&& strings_view(new.exclude@) == strings_view(base.exclude@) + strings_view(other.exclude@)
    &&& new.thresholds.global == apply_global(base.thresholds.global, other.thresholds.global)
    &&& new.thresholds.severities.max_lines == later(
        base.thresholds.severities.max_lines,
        other.thresholds.severities.max_lines,
    )
    &&& new.thresholds.severities.max_depth == later(
        base.thresholds.severities.max_depth,
        other.thresholds.severities.max_depth,
    )
    &&& new.thresholds.severities.max_imports == later(
        base.thresholds.severities.max_imports,
        other.thresholds.severities.max_imports,
    )
    &&& new.thresholds.severities.max_repetition == later(
        base.thresholds.severities.max_repetition,
        other.thresholds.severities.max_repetition,
    )
    &&& new.thresholds.overrides.wf()
    &&& overrides_extended(base.thresholds.overrides, other.thresholds.overrides, new.thresholds.overrides)
    &&& new.cross_file_repetition == (base.cross_file_repetition || other.cross_file_repetition)
    &&& new.ui.lemon_threshold == pick(other.ui.lemon_threshold, 200, base.ui.lemon_threshold)
    &&& new.ui.bitter_threshold == pick(other.ui.bitter_threshold, 400, base.ui.bitter_threshold)
}

/// A configuration that sets nothing: no exclusion, the built-in limits,
/// no override, no severity, and the default terminal settings.
pub open spec fn is_default_config(c: Config) -> bool {
    &&& c.exclude@.len() == 0
    &&& c.thresholds.global == spec_default_thresholds()
    &&& c.thresholds.overrides.wf()
    &&& forall|e: Seq<char>| #[trigger] c.thresholds.overrides.override_for(e) is None
    &&& c.thresholds.severities == (RuleSeverities {
        max_lines: None,
        max_depth: None,
        max_imports: None,
        max_repetition: None,
    })
    &&& !c.cross_file_repetition
    &&& c.ui.lemon_threshold == 200
    &&& c.ui.bitter_threshold == 400
}

/// `states` are the configurations after each step of the cascade of the
/// files `found` (nearest first): it starts from a configuration that sets
/// nothing, and step `k` merges in the `k`-th file counted from the
/// farthest.
pub open spec fn cascade_steps(found: Seq<Config>, states: Seq<Config>) -> bool {
    &&& states.len() == found.len() + 1
    &&& is_default_config(states[0])
    &&& forall|k: int|
        0 <= k < found.len() ==> merge_result(#[trigger] states[k], found[found.len() - 1 - k], states[k + 1])
}

/// What the cascade of configuration files found (nearest first) gives:
/// starting from a configuration that sets nothing, each file is merged in
/// from the farthest to the nearest, so that a nearer file wins.
pub open spec fn cascade_result(found: Seq<Config>, r: Config) -> bool {
    exists|states: Seq<Config>| #[trigger] cascade_steps(found, states) && states.last() == r
}

impl Config {
    /// The limits that apply to files with extension `ext`: the language's
    /// defaults, then the global configuration, then the language override.
    pub open spec fn effective_thresholds(&self, ext: Seq<char>) -> Thresholds {
        let base = match language_for(ext) {
            Some(l) => l.thresholds,
            None => spec_default_thresholds(),
        };
        let t = apply_global(base, self.thresholds.global);
        match self.thresholds.overrides.override_for(ext) {
            Some(o) => apply_override(t, o),
            None => t,
        }
    }

    /// The configuration without any configuration file.
    pub fn default() -> (r: Self)
        ensures
            r.exclude@.len() == 0,
            r.thresholds.global == spec_default_thresholds(),
            r.thresholds.overrides.wf(),
            forall|e: Seq<char>| #[trigger] r.thresholds.overrides.override_for(e) is None,
            r.thresholds.severities == (RuleSeverities {
                max_lines: None,
                max_depth: None,
                max_imports: None,
                max_repetition: None,
            }),
            !r.cross_file_repetition,
            r.ui.lemon_threshold == 200 && r.ui.bitter_threshold == 400,
    {
        Config {
            exclude: Vec::new(),
            thresholds: ThresholdsConfig {
                global: Thresholds::default(),
                overrides: ThresholdsOverrides::new(),
                severities: RuleSeverities {
                    max_lines: None,
                    max_depth: None,
                    max_imports: None,
                    max_repetition: None,
                },
            },
            cross_file_repetition: false,
            ui: UIConfig::default(),
        }
    }

    /// Merges another configuration into the current one: its exclusions are
    /// added, its global limits that differ from the built-in defaults replace
    /// the current ones, and its severities and overrides win where present.
    pub fn merge(&mut self, other: Self)
        requires
            old(self).thresholds.overrides.wf(),
        ensures
            merge_result(*old(self), other, *final(self)),
    {
        let Config { exclude, thresholds, cross_file_repetition, ui } = other;
        let ThresholdsConfig { global: og, overrides, severities } = thresholds;
        let mut extra = exclude;
        let ghost start = self.exclude@;
        let ghost added = extra@;
        self.exclude.append(&mut extra);
        proof {
            assert(self.exclude@ == start + added);
            assert(strings_view(self.exclude@) =~= strings_view(start) + strings_view(added));
        }
        if og.max_lines != 400 {
            self.thresholds.global.max_lines = og.max_lines;
        }
        if og.max_depth != 6 {
            self.thresholds.global.max_depth = og.max_depth;
        }
        if og.max_imports != 25 {
            self.thresholds.global.max_imports = og.max_imports;
        }
        if repetition_is_custom(og.max_repetition_bits) {
            self.thresholds.global.max_repetition_bits = og.max_repetition_bits;
        }
        if og.min_duplicate_lines != 4 {
            self.thresholds.global.min_duplicate_lines = og.min_duplicate_lines;
        }
        self.thresholds.severities.extend(&severities);
        self.thresholds.overrides.extend(overrides);
        if cross_file_repetition {
            self.cross_file_repetition = true;
        }
        if ui.lemon_threshold != 200 {
            self.ui.lemon_threshold = ui.lemon_threshold;
        }
        if ui.bitter_threshold != 400 {
            self.ui.bitter_threshold = ui.bitter_threshold;
        }
    }

    /// Merging a configuration that sets nothing (the built-in limits, no
    /// severity, no override) leaves the limits of every file and the
    /// severities as they were.
    pub proof fn lemma_merge_neutral(self, other: Config, merged: Config, ext: Seq<char>)
        requires
            merge_result(self, other, merged),
            other.thresholds.global == spec_default_thresholds(),
            forall|e: Seq<char>| #[trigger] other.thresholds.overrides.override_for(e) is None,
            other.thresholds.severities == (RuleSeverities {
                max_lines: None,
                max_depth: None,
                max_imports: None,
                max_repetition: None,
            }),
        ensures
            merged.effective_thresholds(ext) == self.effective_thresholds(ext),
            merged.thresholds.severities == self.thresholds.severities,
    {
        assert(other.thresholds.overrides.override_for(ext) is None);
        assert(merged.thresholds.overrides.override_for(ext) == self.thresholds.overrides.override_for(ext));
        assert(merged.thresholds.global == self.thresholds.global);
    }

    /// A global limit set away from its built-in default (400 lines, depth 6,
    /// 25 imports, 4 duplicate lines) is the limit for every file whose
    /// language override does not set that limit; a global limit left at its
    /// default leaves the limit of the file's language.
    pub proof fn lemma_global_limits_apply(self, ext: Seq<char>)
        ensures
            ({
                let g = self.thresholds.global;
                let o = self.thresholds.overrides.override_for(ext);
                let t = self.effective_thresholds(ext);
                let lang = match language_for(ext) {
                    Some(l) => l.thresholds,
                    None => spec_default_thresholds(),
                };
                &&& !(o matches Some(p) && p.max_lines is Some) ==> t.max_lines == if g.max_lines != 400 {
                    g.max_lines
                } else {
                    lang.max_lines
                }
                &&& !(o matches Some(p) && p.max_depth is Some) ==> t.max_depth == if g.max_depth != 6 {
                    g.max_depth
                } else {
                    lang.max_depth
                }
                &&& !(o matches Some(p) && p.max_imports is Some) ==> t.max_imports == if g.max_imports != 25 {
                    g.max_imports
                } else {
                    lang.max_imports
                }
                &&& !(o matches Some(p) && p.min_duplicate_lines is Some) ==> t.min_duplicate_lines
                    == if g.min_duplicate_lines != 4 {
                    g.min_duplicate_lines
                } else {
                    lang.min_duplicate_lines
                }
                &&& !(o matches Some(p) && p.max_repetition_bits is Some) && repetition_differs_from_default(
                    g.max_repetition_bits,
                ) ==> t.max_repetition_bits == g.max_repetition_bits
            }),
    {
    }

    /// Each limit that a language override sets is the limit for files of
    /// that language, whatever the global configuration says.
    pub proof fn lemma_override_wins(self, ext: Seq<char>, o: PartialThresholds)
        requires
            self.thresholds.overrides.override_for(ext) == Some(o),
        ensures
            o.max_lines matches Some(v) ==> self.effective_thresholds(ext).max_lines == v,
            o.max_depth matches Some(v) ==> self.effective_thresholds(ext).max_depth == v,
            o.max_imports matches Some(v) ==> self.effective_thresholds(ext).max_imports == v,
            o.max_repetition_bits matches Some(v) ==> self.effective_thresholds(ext).max_repetition_bits == v,
            o.min_duplicate_lines matches Some(v) ==> self.effective_thresholds(ext).min_duplicate_lines == v,
    {
    }

    /// Files ending in `.js`, `.mjs` and `.cjs` are held to the same limits.
    pub proof fn lemma_javascript_extensions_agree(self)
        ensures
            self.effective_thresholds("mjs"@) == self.effective_thresholds("js"@),
            self.effective_thresholds("cjs"@) == self.effective_thresholds("js"@),
    {
        reveal_strlit("js");
        reveal_strlit("mjs");
        reveal_strlit("cjs");
        reveal_strlit("jsx");
        reveal_strlit("ts");
        reveal_strlit("tsx");
        reveal_strlit("java");
        reveal_strlit("cs");
        reveal_strlit("gd");
        reveal_strlit("go");
        reveal_strlit("php");
        reveal_strlit("rs");
        reveal_strlit("py");
        reveal_strlit("lua");
        reveal_strlit("c");
        reveal_strlit("cpp");
        reveal_strlit("h");
        reveal_strlit("hpp");
        reveal_strlit("cc");
        reveal_strlit("cxx");
        reveal_strlit("hh");
        reveal_strlit("hxx");
        let langs = registered_languages();
        assert(langs[10].extensions =~= seq!["c"@, "cpp"@, "h"@, "hpp"@, "cc"@, "cxx"@, "hh"@, "hxx"@]);
        assert(langs[9].extensions =~= seq!["lua"@]);
        assert("lua"@[0] == 'l' && "c"@.len() == 1 && "cpp"@[1] == 'p' && "h"@[0] == 'h' && "hpp"@[0] == 'h');
        assert("cc"@[1] == 'c' && "cxx"@[1] == 'x' && "hh"@[0] == 'h' && "hxx"@[0] == 'h');
        assert("js"@.len() == 2 && "mjs"@.len() == 3 && "cjs"@[1] == 'j');
        lemma_not_listed(langs[10].extensions, "mjs"@, "cjs"@, "js"@);
        lemma_not_listed(langs[9].extensions, "mjs"@, "cjs"@, "js"@);
        assert(langs[8].extensions =~= seq!["php"@]);
        assert(langs[7].extensions =~= seq!["go"@]);
        assert(langs[6].extensions =~= seq!["gd"@]);
        assert(langs[5].extensions =~= seq!["cs"@]);
        assert(langs[4].extensions =~= seq!["java"@]);
        assert(langs[3].extensions =~= seq!["ts"@, "tsx"@]);
        assert("php"@[0] == 'p' && "go"@[0] == 'g' && "gd"@[0] == 'g' && "cs"@[0] == 'c' && "java"@.len() == 4);
        assert("ts"@[0] == 't' && "tsx"@[0] == 't');
        assert("js"@[0] == 'j' && "mjs"@[0] == 'm' && "cjs"@[0] == 'c' && "cjs"@.len() == 3 && "cs"@.len() == 2);
        lemma_not_listed(langs[8].extensions, "mjs"@, "cjs"@, "js"@);
        lemma_not_listed(langs[7].extensions, "mjs"@, "cjs"@, "js"@);
        lemma_not_listed(langs[6].extensions, "mjs"@, "cjs"@, "js"@);
        lemma_not_listed(langs[5].extensions, "mjs"@, "cjs"@, "js"@);
        lemma_not_listed(langs[4].extensions, "mjs"@, "cjs"@, "js"@);
        lemma_not_listed(langs[3].extensions, "mjs"@, "cjs"@, "js"@);
        assert(langs[2].extensions[0] == "js"@ && langs[2].extensions[1] == "mjs"@ && langs[2].extensions[2] == "cjs"@);
        assert(langs[2].extensions.contains("js"@) && langs[2].extensions.contains("mjs"@) && langs[2].extensions.contains("cjs"@));
        lemma_lookup_skips(langs, "js"@, 3);
        lemma_lookup_skips(langs, "mjs"@, 3);
        lemma_lookup_skips(langs, "cjs"@, 3);
        let t3 = langs.take(3);
        assert(t3.last() == langs[2]);
        assert(lookup_extension(t3, "js"@) == Some(langs[2]));
        assert(lookup_extension(t3, "mjs"@) == Some(langs[2]));
        assert(lookup_extension(t3, "cjs"@) == Some(langs[2]));
        assert(language_for("mjs"@) == language_for("js"@));
        assert(language_for("cjs"@) == language_for("js"@));
    }

    /// Merges the configuration files found from a file's directory up to
    /// the root (`found`, nearest first): the nearest file wins.
    pub fn merge_cascade(found: Vec<Config>) -> (r: Config)
        ensures
            cascade_result(found@, r),
    {
        let ghost all = found@;
        let mut rest = found;
        let mut r = Config::default();
        let ghost mut states: Seq<Config> = seq![r];
        while rest.len() > 0
            invariant
                rest@ == all.take(rest@.len() as int),
                rest@.len() <= all.len(),
                r.thresholds.overrides.wf(),
                states.len() == all.len() - rest@.len() + 1,
                is_default_config(states[0]),
                states.last() == r,
                forall|k: int|
                    0 <= k < states.len() - 1 ==> merge_result(#[trigger] states[k], all[all.len() - 1 - k], states[k + 1]),
            decreases rest@.len(),
        {
            let c = match rest.pop() {
                Some(c) => c,
                None => {
                    return r;
                },
            };
            let ghost k = rest@.len() as int;
            let ghost cv = c;
            proof {
                assert(cv == all[k]);
                assert(rest@ =~= all.take(k));
            }
            r.merge(c);
            proof {
                let old_states = states;
                states = states.push(r);
                assert forall|j: int| 0 <= j < states.len() - 1 implies merge_result(#[trigger] states[j], all[all.len() - 1 - j], states[j + 1]) by {
                    if j < old_states.len() - 1 {
                        assert(states[j] == old_states[j] && states[j + 1] == old_states[j + 1]);
                    } else {
                        assert(states[j] == old_states.last());
                        assert(all.len() - 1 - j == k);
                    }
                }
            }
        }
        proof {
            assert(rest@.len() == 0);
            assert(cascade_steps(all, states));
        }
        r
    }

    /// In a cascade, the nearest file wins: every global limit it changes
    /// from the built-in one, every severity and every override it sets is
    /// the one that applies.
    pub proof fn lemma_nearest_file_wins(found: Seq<Config>, r: Config, ext: Seq<char>)
        requires
            found.len() > 0,
            cascade_result(found, r),
        ensures
            found[0].thresholds.global.max_lines != 400 ==> r.thresholds.global.max_lines == found[0].thresholds.global.max_lines,
            found[0].thresholds.global.max_depth != 6 ==> r.thresholds.global.max_depth == found[0].thresholds.global.max_depth,
            found[0].thresholds.global.max_imports != 25 ==> r.thresholds.global.max_imports == found[0].thresholds.global.max_imports,
            found[0].thresholds.global.min_duplicate_lines != 4 ==> r.thresholds.global.min_duplicate_lines
                == found[0].thresholds.global.min_duplicate_lines,
            found[0].thresholds.severities.max_lines is Some ==> r.thresholds.severities.max_lines == found[0].thresholds.severities.max_lines,
            found[0].thresholds.severities.max_depth is Some ==> r.thresholds.severities.max_depth == found[0].thresholds.severities.max_depth,
            found[0].thresholds.severities.max_imports is Some ==> r.thresholds.severities.max_imports == found[0].thresholds.severities.max_imports,
            found[0].thresholds.severities.max_repetition is Some ==> r.thresholds.severities.max_repetition
                == found[0].thresholds.severities.max_repetition,
            found[0].thresholds.overrides.override_for(ext) is Some ==> r.thresholds.overrides.override_for(ext)
                == found[0].thresholds.overrides.override_for(ext),
    {
        let states = choose|states: Seq<Config>| #[trigger] cascade_steps(found, states) && states.last() == r;
        let n = found.len() as int;
        assert(merge_result(states[n - 1], found[0], states[n]));
        assert(states[n] == r);
    }

    /// Resolves effective thresholds for a specific file extension.
    pub fn get_thresholds(&self, extension: &str) -> (r: Thresholds)
        requires
            self.thresholds.overrides.wf(),
        ensures
            r == self.effective_thresholds(extension@),
    {
        let registry = LanguageRegistry::get();
        let mut t = match registry.get_by_extension(extension) {
            Some(l) => l.default_thresholds(),
            None => Thresholds::default(),
        };
        let og = &self.thresholds.global;
        if og.max_lines != 400 {
            t.max_lines = og.max_lines;
        }
        if og.max_depth != 6 {
            t.max_depth = og.max_depth;
        }
        if og.max_imports != 25 {
            t.max_imports = og.max_imports;
        }
        if repetition_is_custom(og.max_repetition_bits) {
            t.max_repetition_bits = og.max_repetition_bits;
        }
        if og.min_duplicate_lines != 4 {
            t.min_duplicate_lines = og.min_duplicate_lines;
        }
        if let Some(over) = self.thresholds.overrides.get(extension) {
            if let Some(v) = over.max_lines {
                t.max_lines = v;
            }
            if let Some(v) = over.max_depth {
                t.max_depth = v;
            }
            if let Some(v) = over.max_imports {
                t.max_imports = v;
            }
            if let Some(v) = over.max_repetition_bits {
                t.max_repetition_bits = v;
            }
            if let Some(v) = over.min_duplicate_lines {
                t.min_duplicate_lines = v;
            }
        }
        t
    }

    /// Whether the path (as text) holds one of the exclusion patterns.
    pub open spec fn excludes(&self, path: Seq<char>) -> bool {
        exists|k: int| 0 <= k < self.exclude@.len() && contains_seq(path, #[trigger] self.exclude@[k]@)
    }

    /// Checks if a path should be excluded according to configured patterns.
    pub fn is_excluded(&self, path: &str) -> (r: bool)
        ensures
            r == self.excludes(path@),
    {
        let p = chars_of(path);
        proof {
            assert(p@.skip(0) =~= p@);
        }
        let mut k: usize = 0;
        while k < self.exclude.len()
            invariant
                0 <= k <= self.exclude@.len(),
                p@ == path@,
                p@.skip(0) == p@,
                forall|j: int| 0 <= j < k ==> !contains_seq(path@, #[trigger] self.exclude@[j]@),
            decreases self.exclude@.len() - k,
        {
            let pattern = chars_of(self.exclude[k].as_str());
            proof {
                lemma_find_from_skip(p@, pattern@, 0);
            }
            if chars_contain_from(&p, 0, &pattern) {
                return true;
            }
            k = k + 1;
        }
        false
    }

    /// Whether files with this extension are analyzed.
    pub fn is_supported_extension(extension: &str) -> (r: bool)
        ensures
            r == (language_for(extension@) is Some),
    {
        let registry = LanguageRegistry::get();
        registry.get_by_extension(extension).is_some()
    }
}

} // verus!
