use std::path::Path;
use swt::config::thresholds::{
    default_max_depth, default_max_imports, default_max_lines, default_max_repetition,
    default_min_duplicate_lines, repetition_is_custom, PartialThresholds, RuleSeverities, Severity,
    Thresholds, ThresholdsOverrides,
};
use swt::config::ui::{default_bitter_threshold, default_lemon_threshold, LengthMark, UIConfig};
use swt::config::{default_excludes, Config};

fn extension_of(path: &str) -> &str {
    Path::new(path).extension().and_then(|e| e.to_str()).unwrap_or("")
}

#[test]
fn test_language_specific_defaults() {
    let config = Config::default();
    let t_rs = config.get_thresholds("rs");
    assert_eq!(t_rs.max_lines, 400);
    assert_eq!(t_rs.max_imports, 25);

    let t_java = config.get_thresholds("java");
    assert_eq!(t_java.max_lines, 400);
}

#[test]
fn test_config_overrides() {
    let mut config = Config::default();
    config.thresholds.overrides.java = Some(PartialThresholds {
        max_imports: Some(100),
        ..Default::default()
    });

    let t = config.get_thresholds("java");
    assert_eq!(t.max_imports, 100);
    assert_eq!(t.max_lines, 400);
}

#[test]
fn test_is_supported_file() {
    assert!(Config::is_supported_extension(extension_of("test.rs")));
    assert!(!Config::is_supported_extension(extension_of("test.txt")));
}

#[test]
fn default_limits() {
    assert_eq!(default_max_lines(), 400);
    assert_eq!(default_max_depth(), 6);
    assert_eq!(default_max_imports(), 25);
    assert_eq!(f64::from_bits(default_max_repetition()), 15.0);
    assert_eq!(default_min_duplicate_lines(), 4);
    let t = Thresholds::default();
    assert_eq!(t.max_lines, 400);
    assert_eq!(t.max_depth, 6);
    assert_eq!(t.min_duplicate_lines, 4);
    assert_eq!(default_lemon_threshold(), 200);
    assert_eq!(default_bitter_threshold(), 400);
}

#[test]
fn unknown_extensions_use_the_built_in_limits() {
    let config = Config::default();
    assert_eq!(config.get_thresholds("txt"), Thresholds::default());
}

#[test]
fn python_is_allowed_more_imports() {
    let config = Config::default();
    let t = config.get_thresholds("py");
    assert_eq!(t.max_imports, 30);
    assert_eq!(t.max_lines, 400);
}

#[test]
fn global_limits_apply_where_they_differ_from_the_defaults() {
    let mut config = Config::default();
    config.thresholds.global.max_lines = 100;
    config.thresholds.global.max_imports = 25;
    let t = config.get_thresholds("py");
    assert_eq!(t.max_lines, 100);
    assert_eq!(t.max_imports, 30);
}

#[test]
fn repetition_limit_is_custom_only_when_it_is_not_fifteen() {
    assert!(!repetition_is_custom(15.0f64.to_bits()));
    assert!(repetition_is_custom(20.0f64.to_bits()));
    assert!(!repetition_is_custom(f64::NAN.to_bits()));
}

#[test]
fn javascript_extensions_share_their_override() {
    let mut config = Config::default();
    config.thresholds.overrides.js = Some(PartialThresholds { max_depth: Some(2), ..Default::default() });
    assert_eq!(config.get_thresholds("js").max_depth, 2);
    assert_eq!(config.get_thresholds("mjs"), config.get_thresholds("js"));
    assert_eq!(config.get_thresholds("cjs"), config.get_thresholds("js"));
}

#[test]
fn custom_overrides_for_other_extensions() {
    let mut overrides = ThresholdsOverrides::new();
    overrides.set_custom("zig".to_string(), PartialThresholds { max_lines: Some(7), ..Default::default() });
    overrides.set_custom("zig".to_string(), PartialThresholds { max_lines: Some(9), ..Default::default() });
    assert_eq!(overrides.get("zig").and_then(|p| p.max_lines), Some(9));
    assert!(overrides.get("nim").is_none());
    let mut config = Config::default();
    config.thresholds.overrides = overrides;
    assert_eq!(config.get_thresholds("zig").max_lines, 9);
}

#[test]
fn overrides_extend_keeps_earlier_entries() {
    let mut base = ThresholdsOverrides::new();
    base.rs = Some(PartialThresholds { max_lines: Some(1), ..Default::default() });
    let mut other = ThresholdsOverrides::new();
    other.py = Some(PartialThresholds { max_lines: Some(2), ..Default::default() });
    base.extend(other);
    assert_eq!(base.get("rs").and_then(|p| p.max_lines), Some(1));
    assert_eq!(base.get("py").and_then(|p| p.max_lines), Some(2));
}

#[test]
fn severities_default_to_error() {
    let s = RuleSeverities::default();
    assert_eq!(s.get("max-lines"), Severity::Error);
    assert_eq!(s.get("something-else"), Severity::Error);
    let w = RuleSeverities { max_depth: Some(Severity::Warning), ..Default::default() };
    assert_eq!(w.get("max-depth"), Severity::Warning);
    assert_eq!(w.get("max-lines"), Severity::Error);
}

#[test]
fn severities_extend_with_later_settings() {
    let mut s = RuleSeverities { max_lines: Some(Severity::Warning), ..Default::default() };
    s.extend(&RuleSeverities { max_imports: Some(Severity::Warning), ..Default::default() });
    assert_eq!(s.get("max-lines"), Severity::Warning);
    assert_eq!(s.get("max-imports"), Severity::Warning);
    assert_eq!(s.get("max-depth"), Severity::Error);
}

#[test]
fn merge_combines_two_configurations() {
    let mut base = Config::default();
    base.exclude.push("target".to_string());
    let mut other = Config::default();
    other.exclude.push("vendor".to_string());
    other.thresholds.global.max_depth = 3;
    other.thresholds.severities.max_lines = Some(Severity::Warning);
    other.cross_file_repetition = true;
    other.ui.lemon_threshold = 150;
    base.merge(other);
    assert_eq!(base.exclude, vec!["target".to_string(), "vendor".to_string()]);
    assert_eq!(base.thresholds.global.max_depth, 3);
    assert_eq!(base.thresholds.global.max_lines, 400);
    assert_eq!(base.thresholds.severities.get("max-lines"), Severity::Warning);
    assert!(base.cross_file_repetition);
    assert_eq!(base.ui.lemon_threshold, 150);
    assert_eq!(base.ui.bitter_threshold, 400);
}

#[test]
fn exclusion_by_contained_pattern() {
    let mut config = Config::default();
    config.exclude.push("node_modules".to_string());
    assert!(config.is_excluded("web/node_modules/a.js"));
    assert!(!config.is_excluded("web/src/a.js"));
}

#[test]
fn default_exclusions_are_listed() {
    let ex = default_excludes();
    assert!(!ex.is_empty());
}

#[test]
fn length_marks() {
    let ui = UIConfig { lemon_threshold: 200, bitter_threshold: 400 };
    assert_eq!(ui.length_mark(150), LengthMark::Plain);
    assert_eq!(ui.length_mark(201), LengthMark::Lemon);
    assert_eq!(ui.length_mark(401), LengthMark::Bitter);
    assert_eq!(ui.length_mark(400), LengthMark::Lemon);
}

#[test]
fn merging_an_empty_configuration_changes_no_limit() {
    let mut base = Config::default();
    base.thresholds.global.max_lines = 120;
    base.thresholds.severities.max_depth = Some(Severity::Warning);
    base.thresholds.overrides.rs = Some(PartialThresholds { max_imports: Some(9), ..Default::default() });
    let before_rs = base.get_thresholds("rs");
    let before_py = base.get_thresholds("py");
    base.merge(Config::default());
    assert_eq!(base.get_thresholds("rs"), before_rs);
    assert_eq!(base.get_thresholds("py"), before_py);
    assert_eq!(base.thresholds.severities.get("max-depth"), Severity::Warning);
}

#[test]
fn go_and_php_are_supported() {
    assert!(Config::is_supported_extension("go"));
    assert!(Config::is_supported_extension("php"));
    let config = Config::default();
    assert_eq!(config.get_thresholds("go").max_imports, 20);
    assert_eq!(config.get_thresholds("php").max_lines, 500);
}

#[test]
fn documented_configuration_example() {
    let mut config = Config::default();
    config.thresholds.global.max_lines = 400;
    config.thresholds.global.max_depth = 5;
    config.thresholds.severities.max_repetition = Some(Severity::Warning);
    let t = config.get_thresholds("rs");
    assert_eq!(t.max_depth, 5);
    assert_eq!(t.max_lines, 400);
    assert_eq!(config.thresholds.severities.get("max-repetition"), Severity::Warning);
}

#[test]
fn the_nearest_configuration_file_wins() {
    let mut near = Config::default();
    near.thresholds.global.max_depth = 3;
    near.exclude.push("near".to_string());
    let mut far = Config::default();
    far.thresholds.global.max_depth = 9;
    far.thresholds.global.max_lines = 800;
    far.exclude.push("far".to_string());
    let r = Config::merge_cascade(vec![near, far]);
    assert_eq!(r.thresholds.global.max_depth, 3);
    assert_eq!(r.thresholds.global.max_lines, 800);
    assert_eq!(r.exclude.last(), Some(&"near".to_string()));
    assert!(r.exclude.contains(&"far".to_string()));
    let none = Config::merge_cascade(Vec::new());
    assert_eq!(none.thresholds.global.max_lines, 400);
    assert_eq!(none.exclude, Config::default().exclude);
}

#[test]
fn custom_overrides_are_kept_whatever_their_extension() {
    let mut base = ThresholdsOverrides::new();
    base.set_custom("zig".to_string(), PartialThresholds { max_lines: Some(1), ..Default::default() });
    let mut other = ThresholdsOverrides::new();
    other.set_custom("rs".to_string(), PartialThresholds { max_lines: Some(7), ..Default::default() });
    other.set_custom("zig".to_string(), PartialThresholds { max_lines: Some(9), ..Default::default() });
    base.extend(other);
    let rs: Vec<_> = base.custom.iter().filter(|(k, _)| k == "rs").collect();
    assert_eq!(rs.len(), 1);
    assert_eq!(rs[0].1.max_lines, Some(7));
    let zig: Vec<_> = base.custom.iter().filter(|(k, _)| k == "zig").collect();
    assert_eq!(zig.len(), 1);
    assert_eq!(zig[0].1.max_lines, Some(9));
    assert!(base.rs.is_none());
}
