use swt::update::{find_newer_release, first_newer_index, is_archive, pick_binary, select_asset};

fn strings(xs: &[&str]) -> Vec<String> {
    xs.iter().map(|s| s.to_string()).collect()
}

#[test]
fn first_newer_outcome() {
    assert_eq!(first_newer_index(&vec![Some(false), None, Some(true), Some(true)]), Some(2));
    assert_eq!(first_newer_index(&vec![Some(false), None]), None);
    assert_eq!(first_newer_index(&Vec::new()), None);
}

#[test]
fn newer_release_is_found_by_semantic_version() {
    let versions = strings(&["0.1.0", "not-a-version", "0.10.0", "1.0.0"]);
    assert_eq!(find_newer_release("0.9.0", &versions), Some(2));
    assert_eq!(find_newer_release("1.0.0", &versions), None);
    assert_eq!(find_newer_release("0.1.0", &strings(&["0.1.0-beta", "0.1.1"])), Some(1));
}

#[test]
fn assets_are_chosen_for_the_platform() {
    let names = strings(&["checksums.txt", "swt-x86_64-apple-darwin.tar.gz", "swt-x86_64-unknown-linux-gnu.tar.gz"]);
    assert_eq!(select_asset(&names, "x86_64-unknown-linux-gnu"), Some(2));
    assert_eq!(select_asset(&names, "aarch64-pc-windows-msvc"), None);
}

#[test]
fn archives_are_recognised_by_name() {
    assert!(is_archive("swt-linux.tar.gz"));
    assert!(is_archive("swt-windows.zip"));
    assert!(!is_archive("swt"));
}

#[test]
fn the_unpacked_binary_is_picked() {
    let names = strings(&["README.md", "swt-linux.tar.gz", "swt", "swt-other"]);
    assert_eq!(pick_binary(&names), Some(2));
    assert_eq!(pick_binary(&strings(&["a.zip"])), None);
}
