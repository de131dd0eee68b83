//! Strategy pattern for language-specific analysis rules.

pub mod definitions;

use vstd::prelude::*;
use crate::config::thresholds::Thresholds;
use crate::text::str_eq;
use definitions::csharp::CSharp;
use definitions::gdscript::GDScript;
use definitions::go::Go;
use definitions::java::Java;
use definitions::javascript::JavaScript;
use definitions::php::PHP;
use definitions::python::Python;
use definitions::rust::Rust;
use definitions::typescript::TypeScript;
use definitions::lua::Lua;
use definitions::cpp::Cpp;

verus! {

/// What a language's rules say, as mathematical values.
pub struct LanguageSpec {
    pub name: Seq<char>,
    pub extensions: Seq<Seq<char>>,
    pub line_comment: Option<Seq<char>>,
    pub block_comment: Option<(Seq<char>, Seq<char>)>,
    pub import_keywords: Seq<Seq<char>>,
    pub function_keywords: Seq<Seq<char>>,
    pub indent_size: nat,
    pub thresholds: Thresholds,
}

pub open spec fn strs_view(s: Seq<&str>) -> Seq<Seq<char>> {
    s.map_values(|x: &str| x@)
}

pub open spec fn opt_str_view(o: Option<&str>) -> Option<Seq<char>> {
    match o {
        Some(x) => Some(x@),
        None => None,
    }
}

pub open spec fn opt_pair_view(o: Option<(&str, &str)>) -> Option<(Seq<char>, Seq<char>)> {
    match o {
        Some((a, b)) => Some((a@, b@)),
        None => None,
    }
}

/// Interface for language-specific analysis strategies.
pub trait Language {
    /// The rules of this language.
    spec fn rules(&self) -> LanguageSpec;

    /// Friendly name of the language (e.g., "Rust").
    fn name(&self) -> (r: &'static str)
        ensures
            r@ == self.rules().name,
    ;

    /// File extensions associated with this language.
    fn extensions(&self) -> (r: &'static [&'static str])
        ensures
            strs_view(r@) == self.rules().extensions,
    ;

    /// Delimiter for single-line comments.
    fn line_comment(&self) -> (r: Option<&'static str>)
        ensures
            opt_str_view(r) == self.rules().line_comment,
    ;

    /// Start and end delimiters for multi-line block comments.
    fn block_comment(&self) -> (r: Option<(&'static str, &'static str)>)
        ensures
            opt_pair_view(r) == self.rules().block_comment,
    ;

    /// Keywords used to declare imports or dependencies.
    fn import_keywords(&self) -> (r: &'static [&'static str])
        ensures
            strs_view(r@) == self.rules().import_keywords,
    ;

    /// Number of spaces representing one level of indentation.
    fn indent_size(&self) -> (r: usize)
        ensures
            r == self.rules().indent_size,
    ;

    /// Default health thresholds specifically tuned for this language.
    fn default_thresholds(&self) -> (r: Thresholds)
        ensures
            r == self.rules().thresholds,
    ;

    /// Keywords or patterns that identify a function/method declaration.
    fn function_keywords(&self) -> (r: &'static [&'static str])
        ensures
            strs_view(r@) == self.rules().function_keywords,
    ;
}

/// The rules of one language, as plain values.
pub struct LanguageRules {
    pub name: &'static str,
    pub extensions: &'static [&'static str],
    pub line_comment: Option<&'static str>,
    pub block_comment: Option<(&'static str, &'static str)>,
    pub import_keywords: &'static [&'static str],
    pub indent_size: usize,
    pub thresholds: Thresholds,
    pub function_keywords: &'static [&'static str],
}

impl LanguageRules {
    /// The rules that `lang` gives.
    pub fn of<L: Language>(lang: &L) -> (r: Self)
        ensures
            r.rules() == lang.rules(),
    {
        LanguageRules {
            name: lang.name(),
            extensions: lang.extensions(),
            line_comment: lang.line_comment(),
            block_comment: lang.block_comment(),
            import_keywords: lang.import_keywords(),
            indent_size: lang.indent_size(),
            thresholds: lang.default_thresholds(),
            function_keywords: lang.function_keywords(),
        }
    }
}

impl Language for LanguageRules {
    open spec fn rules(&self) -> LanguageSpec {
        LanguageSpec {
            name: self.name@,
            extensions: strs_view(self.extensions@),
            line_comment: opt_str_view(self.line_comment),
            block_comment: opt_pair_view(self.block_comment),
            import_keywords: strs_view(self.import_keywords@),
            function_keywords: strs_view(self.function_keywords@),
            indent_size: self.indent_size as nat,
            thresholds: self.thresholds,
        }
    }

    fn name(&self) -> (r: &'static str) {
        self.name
    }

    fn extensions(&self) -> (r: &'static [&'static str]) {
        self.extensions
    }

    fn line_comment(&self) -> (r: Option<&'static str>) {
        self.line_comment
    }

    fn block_comment(&self) -> (r: Option<(&'static str, &'static str)>) {
        self.block_comment
    }

    fn import_keywords(&self) -> (r: &'static [&'static str]) {
        self.import_keywords
    }

    fn indent_size(&self) -> (r: usize) {
        self.indent_size
    }

    fn default_thresholds(&self) -> (r: Thresholds) {
        self.thresholds
    }

    fn function_keywords(&self) -> (r: &'static [&'static str]) {
        self.function_keywords
    }
}

/// The languages that the registry knows, in registration order.
pub open spec fn registered_languages() -> Seq<LanguageSpec> {
    seq![
        Rust.rules(),
        Python.rules(),
        JavaScript.rules(),
        TypeScript.rules(),
        Java.rules(),
        CSharp.rules(),
        GDScript.rules(),
        Go.rules(),
        PHP.rules(),
        Lua.rules(),
        Cpp.rules(),
    ]
}

/// The language registered last among those that list `ext` as an extension.
pub open spec fn lookup_extension(langs: Seq<LanguageSpec>, ext: Seq<char>) -> Option<LanguageSpec>
    decreases langs.len(),
{
    if langs.len() == 0 {
        None
    } else if langs.last().extensions.contains(ext) {
        Some(langs.last())
    } else {
        lookup_extension(langs.drop_last(), ext)
    }
}

/// What `lookup_extension` finds is one of the languages searched.
pub proof fn lemma_lookup_member(langs: Seq<LanguageSpec>, ext: Seq<char>)
    ensures
        lookup_extension(langs, ext) matches Some(l) ==> exists|i: int|
            0 <= i < langs.len() && #[trigger] langs[i] == l,
    decreases langs.len(),
{
    if langs.len() > 0 {
        lemma_lookup_member(langs.drop_last(), ext);
        if !langs.last().extensions.contains(ext) {
            if let Some(l) = lookup_extension(langs.drop_last(), ext) {
                let i = choose|i: int| 0 <= i < langs.drop_last().len() && #[trigger] langs.drop_last()[i] == l;
                assert(langs[i] == l);
            }
        } else {
            assert(langs[langs.len() - 1] == langs.last());
        }
    }
}

/// The comment delimiters of every registered language are non-empty.
pub proof fn lemma_registered_delims(ext: Seq<char>)
    ensures
        language_for(ext) matches Some(l) ==> {
            &&& l.line_comment matches Some(c) ==> c.len() > 0
            &&& l.block_comment matches Some(b) ==> b.0.len() > 0 && b.1.len() > 0
            &&& l.indent_size == 4
        },
{
    reveal_strlit("//");
    reveal_strlit("#");
    reveal_strlit("/*");
    reveal_strlit("*/");
    reveal_strlit("--");
    reveal_strlit("--[[");
    reveal_strlit("]]");
    lemma_lookup_member(registered_languages(), ext);
}

/// No character of `s` is a line break.
pub open spec fn one_line(s: Seq<char>) -> bool {
    forall|i: int| 0 <= i < s.len() ==> #[trigger] s[i] != '\n'
}

/// The comment delimiters of every registered language hold no line break.
pub proof fn lemma_registered_delims_one_line(ext: Seq<char>)
    ensures
        language_for(ext) matches Some(l) ==> {
            &&& l.line_comment matches Some(c) ==> one_line(c)
            &&& l.block_comment matches Some(b) ==> one_line(b.0) && one_line(b.1)
        },
{
    reveal_strlit("//");
    reveal_strlit("#");
    reveal_strlit("/*");
    reveal_strlit("*/");
    reveal_strlit("--");
    reveal_strlit("--[[");
    reveal_strlit("]]");
    assert(one_line("//"@));
    assert(one_line("#"@));
    assert(one_line("/*"@));
    assert(one_line("*/"@));
    assert(one_line("--"@));
    assert(one_line("--[["@));
    assert(one_line("]]"@));
    lemma_lookup_member(registered_languages(), ext);
}

/// The language whose rules apply to files with extension `ext`.
pub open spec fn language_for(ext: Seq<char>) -> Option<LanguageSpec> {
    lookup_extension(registered_languages(), ext)
}

/// All extensions of the given languages, in order.
pub open spec fn all_extensions(langs: Seq<LanguageSpec>) -> Seq<Seq<char>>
    decreases langs.len(),
{
    if langs.len() == 0 {
        Seq::empty()
    } else {
        all_extensions(langs.drop_last()) + langs.last().extensions
    }
}

/// The extensions of the languages `langs[..k]` followed by those of `langs[k]`
/// are those of `langs[..k + 1]`.
proof fn lemma_all_extensions_take(langs: Seq<LanguageSpec>, k: int)
    requires
        0 <= k < langs.len(),
    ensures
        all_extensions(langs.take(k + 1)) == all_extensions(langs.take(k)) + langs[k].extensions,
{
    assert(langs.take(k + 1).drop_last() =~= langs.take(k));
}

/// Every registered extension, in registration order.
pub open spec fn registered_extension_list() -> Seq<Seq<char>> {
    seq!["rs"@, "py"@, "js"@, "mjs"@, "cjs"@, "jsx"@, "ts"@, "tsx"@, "java"@, "cs"@, "gd"@, "go"@, "php"@, "lua"@, "c"@, "cpp"@, "h"@, "hpp"@, "cc"@, "cxx"@, "hh"@, "hxx"@]
}

/// How many extensions the first `k` registered languages list.
spec fn ext_offset(k: int) -> int {
    if k <= 0 { 0 } else if k == 1 { 1 } else if k == 2 { 2 } else if k == 3 { 6 } else if k == 4 { 8 }
    else if k == 5 { 9 } else if k == 6 { 10 } else if k == 7 { 11 } else if k == 8 { 12 }
    else if k == 9 { 13 } else if k == 10 { 14 } else { 22 }
}

/// A number that tells the registered extensions apart.
spec fn ext_key(x: Seq<char>) -> int {
    x.len() * 0x1000000 + (x[0] as int) * 0x10000 + if x.len() > 1 { (x[1] as int) * 0x100 } else { 0 }
        + if x.len() > 2 { x[2] as int } else { 0 }
}

/// The extensions of the first `k` registered languages.
proof fn lemma_registered_prefix(k: int)
    requires
        0 <= k <= 11,
    ensures
        all_extensions(registered_languages().take(k)) == registered_extension_list().take(ext_offset(k)),
    decreases k,
{
    let l = registered_languages();
    if k == 0 {
        assert(l.take(0) =~= Seq::<LanguageSpec>::empty());
        assert(registered_extension_list().take(0) =~= Seq::<Seq<char>>::empty());
    } else {
        lemma_registered_prefix(k - 1);
        lemma_all_extensions_take(l, k - 1);
        assert(registered_extension_list().take(ext_offset(k)) =~= registered_extension_list().take(ext_offset(k - 1)) + l[k - 1].extensions);
    }
}

/// The registered languages list the extensions above, none of them twice.
proof fn lemma_registered_extensions()
    ensures
        all_extensions(registered_languages()) == registered_extension_list(),
        registered_extension_list().no_duplicates(),
{
    reveal_strlit("rs");
    reveal_strlit("py");
    reveal_strlit("js");
    reveal_strlit("mjs");
    reveal_strlit("cjs");
    reveal_strlit("jsx");
    reveal_strlit("ts");
    reveal_strlit("tsx");
    reveal_strlit("java");
    reveal_strlit("cs");
    reveal_strlit("gd");
    reveal_strlit("go");
    reveal_strlit("php");
    reveal_strlit("lua");
    reveal_strlit("c");
    reveal_strlit("cpp");
    reveal_strlit("h");
    reveal_strlit("hpp");
    reveal_strlit("cc");
    reveal_strlit("cxx");
    reveal_strlit("hh");
    reveal_strlit("hxx");
    let l = registered_languages();
    lemma_registered_prefix(11);
    assert(l.take(11) =~= l);
    assert(registered_extension_list().take(22) =~= registered_extension_list());
    let e = registered_extension_list();
    assert forall|i: int, j: int| 0 <= i < e.len() && 0 <= j < e.len() && i != j implies e[i] != e[j] by {
        assert(ext_key(e[i]) != ext_key(e[j]));
    }
}

/// An extension of one of the languages is among all their extensions.
proof fn lemma_listed_in_all(langs: Seq<LanguageSpec>, i: int, ext: Seq<char>)
    requires
        0 <= i < langs.len(),
        langs[i].extensions.contains(ext),
    ensures
        all_extensions(langs).contains(ext),
    decreases langs.len(),
{
    let a = all_extensions(langs.drop_last());
    let b = langs.last().extensions;
    assert(all_extensions(langs) == a + b);
    if i == langs.len() - 1 {
        let q = choose|q: int| 0 <= q < b.len() && b[q] == ext;
        assert((a + b)[a.len() + q] == ext);
    } else {
        assert(langs.drop_last()[i] == langs[i]);
        lemma_listed_in_all(langs.drop_last(), i, ext);
        let p = choose|p: int| 0 <= p < a.len() && a[p] == ext;
        assert((a + b)[p] == ext);
    }
}

/// An extension is among all the languages' extensions exactly when the
/// lookup finds a language for it, and the language found lists it.
proof fn lemma_lookup_iff_listed(langs: Seq<LanguageSpec>, ext: Seq<char>)
    ensures
        all_extensions(langs).contains(ext) <==> lookup_extension(langs, ext) is Some,
        lookup_extension(langs, ext) matches Some(l) ==> l.extensions.contains(ext),
    decreases langs.len(),
{
    if langs.len() > 0 {
        lemma_lookup_iff_listed(langs.drop_last(), ext);
        let a = all_extensions(langs.drop_last());
        let b = langs.last().extensions;
        assert(all_extensions(langs) == a + b);
        if (a + b).contains(ext) {
            let p = choose|p: int| 0 <= p < (a + b).len() && (a + b)[p] == ext;
            if p < a.len() {
                assert(a[p] == ext);
            } else {
                assert(b[p - a.len()] == ext);
            }
        }
        if b.contains(ext) {
            let q = choose|q: int| 0 <= q < b.len() && b[q] == ext;
            assert((a + b)[a.len() + q] == ext);
        } else if a.contains(ext) {
            let p = choose|p: int| 0 <= p < a.len() && a[p] == ext;
            assert((a + b)[p] == ext);
        }
    } else {
        assert(all_extensions(langs) =~= Seq::<Seq<char>>::empty());
    }
}

/// When no extension is listed twice, each extension of a language finds
/// that language.
proof fn lemma_lookup_unique(langs: Seq<LanguageSpec>, i: int, ext: Seq<char>)
    requires
        all_extensions(langs).no_duplicates(),
        0 <= i < langs.len(),
        langs[i].extensions.contains(ext),
    ensures
        lookup_extension(langs, ext) == Some(langs[i]),
    decreases langs.len(),
{
    let a = all_extensions(langs.drop_last());
    let b = langs.last().extensions;
    assert(all_extensions(langs) == a + b);
    if i < langs.len() - 1 {
        assert(langs.drop_last()[i] == langs[i]);
        lemma_listed_in_all(langs.drop_last(), i, ext);
        let p = choose|p: int| 0 <= p < a.len() && a[p] == ext;
        if b.contains(ext) {
            let q = choose|q: int| 0 <= q < b.len() && b[q] == ext;
            assert((a + b)[p] == (a + b)[a.len() + q]);
        }
        assert forall|x: int, y: int| 0 <= x < a.len() && 0 <= y < a.len() && x != y implies a[x] != a[y] by {
            assert((a + b)[x] == a[x] && (a + b)[y] == a[y]);
        }
        lemma_lookup_unique(langs.drop_last(), i, ext);
    }
}

/// The language found for an extension lists it, and an extension finds a
/// language exactly when some registered language lists it.
pub proof fn lemma_found_language_lists_extension(ext: Seq<char>)
    ensures
        language_for(ext) matches Some(l) ==> l.extensions.contains(ext),
        language_for(ext) is Some <==> all_extensions(registered_languages()).contains(ext),
{
    lemma_lookup_iff_listed(registered_languages(), ext);
}

/// Every extension of every registered language finds that language.
pub proof fn lemma_extension_finds_its_language(i: int, ext: Seq<char>)
    requires
        0 <= i < registered_languages().len(),
        registered_languages()[i].extensions.contains(ext),
    ensures
        language_for(ext) == Some(registered_languages()[i]),
{
    lemma_registered_extensions();
    lemma_lookup_unique(registered_languages(), i, ext);
}

/// The supported extensions are listed once each, and an extension is
/// listed exactly when a language is found for it.
pub proof fn lemma_supported_extensions_unique(ext: Seq<char>)
    ensures
        all_extensions(registered_languages()).no_duplicates(),
        all_extensions(registered_languages()).contains(ext) <==> language_for(ext) is Some,
{
    lemma_registered_extensions();
    lemma_lookup_iff_listed(registered_languages(), ext);
}

/// Registry of the supported languages.
pub struct LanguageRegistry {
    languages: Vec<LanguageRules>,
}

impl LanguageRegistry {
    pub closed spec fn models(&self) -> Seq<LanguageSpec> {
        self.languages@.map_values(|l: LanguageRules| l.rules())
    }

    /// Returns the registry of all supported languages.
    pub fn get() -> (r: Self)
        ensures
            r.models() == registered_languages(),
    {
        Self::new()
    }

    fn new() -> (r: Self)
        ensures
            r.models() == registered_languages(),
    {
        let mut languages: Vec<LanguageRules> = Vec::new();
        languages.push(LanguageRules::of(&Rust));
        languages.push(LanguageRules::of(&Python));
        languages.push(LanguageRules::of(&JavaScript));
        languages.push(LanguageRules::of(&TypeScript));
        languages.push(LanguageRules::of(&Java));
        languages.push(LanguageRules::of(&CSharp));
        languages.push(LanguageRules::of(&GDScript));
        languages.push(LanguageRules::of(&Go));
        languages.push(LanguageRules::of(&PHP));
        languages.push(LanguageRules::of(&Lua));
        languages.push(LanguageRules::of(&Cpp));
        let r = LanguageRegistry { languages };
        proof {
            assert(r.models() =~= registered_languages());
        }
        r
    }

    /// Resolves a language strategy by file extension.
    pub fn get_by_extension(&self, ext: &str) -> (r: Option<&LanguageRules>)
        ensures
            r is Some <==> lookup_extension(self.models(), ext@) is Some,
            r matches Some(l) ==> Some(l.rules()) == lookup_extension(self.models(), ext@),
    {
        let mut k = self.languages.len();
        proof {
            assert(self.models().take(k as int) =~= self.models());
        }
        while k > 0
            invariant
                k <= self.languages@.len(),
                lookup_extension(self.models(), ext@) == lookup_extension(
                    self.models().take(k as int),
                    ext@,
                ),
            decreases k,
        {
            let lang = &self.languages[k - 1];
            let exts = lang.extensions;
            let mut j: usize = 0;
            let mut found = false;
            while j < exts.len()
                invariant
                    0 <= j <= exts@.len(),
                    found ==> strs_view(exts@).contains(ext@),
                    !found ==> forall|t: int| 0 <= t < j ==> exts@[t]@ != ext@,
                decreases exts@.len() - j,
            {
                if str_eq(exts[j], ext) {
                    found = true;
                    proof {
                        assert(strs_view(exts@)[j as int] == ext@);
                    }
                }
                j = j + 1;
            }
            let ghost m = self.models().take(k as int);
            proof {
                assert(m.last() == lang.rules());
                assert(m.drop_last() =~= self.models().take(k - 1));
                if !found {
                    assert(!strs_view(exts@).contains(ext@)) by {
                        if strs_view(exts@).contains(ext@) {
                            let t = choose|t: int| 0 <= t < strs_view(exts@).len() && strs_view(exts@)[t] == ext@;
                            assert(exts@[t]@ == ext@);
                        }
                    }
                }
            }
            if found {
                return Some(lang);
            }
            k = k - 1;
        }
        None
    }

    /// Returns a list of all supported file extensions.
    pub fn supported_extensions(&self) -> (r: Vec<&'static str>)
        ensures
            strs_view(r@) == all_extensions(self.models()),
    {
        let mut out: Vec<&'static str> = Vec::new();
        let n = self.languages.len();
        let mut k: usize = 0;
        proof {
            assert(self.models().take(0) =~= Seq::<LanguageSpec>::empty());
        }
        while k < n
            invariant
                n == self.languages@.len(),
                0 <= k <= n,
                strs_view(out@) == all_extensions(self.models().take(k as int)),
            decreases n - k,
        {
            let exts = self.languages[k].extensions;
            let ghost before = out@;
            let mut j: usize = 0;
            while j < exts.len()
                invariant
                    0 <= j <= exts@.len(),
                    out@ == before + exts@.take(j as int),
                decreases exts@.len() - j,
            {
                out.push(exts[j]);
                j = j + 1;
                proof {
                    assert(out@ =~= before + exts@.take(j as int));
                }
            }
            proof {
                let m = self.models().take(k + 1);
                assert(m.drop_last() =~= self.models().take(k as int));
                assert(m.last() == self.languages@[k as int].rules());
                assert(exts@.take(exts@.len() as int) =~= exts@);
                assert(strs_view(out@) =~= strs_view(before) + strs_view(exts@));
            }
            k = k + 1;
        }
        proof {
            assert(self.models().take(n as int) =~= self.models());
        }
        out
    }
}

} // verus!
