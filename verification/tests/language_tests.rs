use swt::analyzer::functions::count_functions;
use swt::analyzer::syntax::count_imports;
use swt::languages::{Language, LanguageRegistry};
use swt::quick_fix::comment_for_extension;

#[test]
fn every_listed_extension_has_a_language() {
    let reg = LanguageRegistry::get();
    for e in ["rs", "py", "js", "mjs", "cjs", "jsx", "ts", "tsx", "java", "cs", "gd", "lua", "go", "php", "c", "cpp", "h", "hpp", "cc", "cxx"] {
        assert!(reg.get_by_extension(e).is_some(), "no language for .{e}");
    }
    assert!(reg.get_by_extension("txt").is_none());
    assert!(reg.get_by_extension("RS").is_none());
}

#[test]
fn lua_and_c_are_registered() {
    let reg = LanguageRegistry::get();
    let lua = reg.get_by_extension("lua").expect("lua");
    assert_eq!(lua.name(), "Lua");
    assert_eq!(lua.line_comment(), Some("--"));
    assert_eq!(lua.block_comment(), Some(("--[[", "]]")));
    let c = reg.get_by_extension("hpp").expect("hpp");
    assert_eq!(c.name(), "C/C++");
    assert_eq!(c.line_comment(), Some("//"));
    assert_eq!(reg.get_by_extension("c").expect("c").name(), "C/C++");
    assert_eq!(reg.get_by_extension("tsx").expect("tsx").name(), "TypeScript");
    assert_eq!(reg.get_by_extension("mjs").expect("mjs").name(), "JavaScript");
}

#[test]
fn supported_extensions_include_lua_and_c() {
    let exts = LanguageRegistry::get().supported_extensions();
    assert!(exts.contains(&"lua"));
    assert!(exts.contains(&"cpp"));
    let mut sorted = exts.clone();
    sorted.sort();
    sorted.dedup();
    assert_eq!(sorted.len(), exts.len());
}

#[test]
fn lua_and_c_imports_and_comments() {
    assert_eq!(count_imports("local a = require(\"a\")\nrequire \"b\"\nprint(1)", "lua"), 2);
    assert_eq!(count_imports("#include <stdio.h>\n#include \"a.h\"\nint x;", "c"), 2);
    assert_eq!(count_functions("function f()\nend\nlocal function g()\nend", "lua"), 2);
    assert_eq!(comment_for_extension("lua"), "--");
    assert_eq!(comment_for_extension("cpp"), "//");
}
