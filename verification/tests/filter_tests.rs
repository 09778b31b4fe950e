use dirdiff::exclude::should_exclude;

fn strs(v: &[&str]) -> Vec<String> {
    v.iter().map(|s| s.to_string()).collect()
}

#[test]
fn hidden_file_excluded() {
    assert!(should_exclude(".env", None, None));
    assert!(should_exclude(".git/config", None, None));
    assert!(should_exclude("dir/.hidden", None, None));
    assert!(should_exclude("a/.b/c.txt", None, None));
    assert!(!should_exclude("a/b.txt", None, None));
}

#[test]
fn hidden_beats_content_rules() {
    // Hidden paths fall out before any configured rule is consulted.
    let exts = strs(&[".txt"]);
    assert!(should_exclude(".secret", Some(&exts), None));
    assert!(should_exclude("src/.cache/a.bin", None, None));
}

#[test]
fn extension_rule_dot_prefixed() {
    let exts = strs(&[".log"]);
    assert!(should_exclude("a.log", Some(&exts), None));
    assert!(should_exclude("dir/sub/b.log", Some(&exts), None));
    assert!(!should_exclude("a.txt", Some(&exts), None));
}

#[test]
fn extension_rule_bare() {
    let exts = strs(&["log"]);
    assert!(should_exclude("a.log", Some(&exts), None));
    assert!(!should_exclude("alog", Some(&exts), None));
}

#[test]
fn extension_match_is_case_sensitive() {
    // The rules match extensions case-sensitively: `a.LOG` survives a
    // `.log` rule.
    let exts = strs(&[".log"]);
    assert!(!should_exclude("a.LOG", Some(&exts), None));
}

#[test]
fn extension_is_taken_from_final_component() {
    let exts = strs(&[".log"]);
    // The dot sits in an earlier component, so there is no extension.
    assert!(!should_exclude("a.log/b", Some(&exts), None));
    // The final dot wins.
    assert!(should_exclude("a.txt.log", Some(&exts), None));
    assert!(!should_exclude("a.log.txt", Some(&exts), None));
}

#[test]
fn directory_rule_excludes_subtree() {
    let dirs = strs(&["build"]);
    assert!(should_exclude("build/a.txt", None, Some(&dirs)));
    assert!(should_exclude("src/build/a.txt", None, Some(&dirs)));
    assert!(!should_exclude("src/main.rs", None, Some(&dirs)));
}

#[test]
fn directory_rule_is_substring_match() {
    // The fragment match is by substring, not by exact component: a rule
    // `build` also hits `rebuild/`.
    let dirs = strs(&["build"]);
    assert!(should_exclude("rebuild/a.txt", None, Some(&dirs)));
    assert!(!should_exclude("buildings.txt", None, Some(&dirs)));
}

#[test]
fn directory_rule_matches_path_end() {
    let dirs = strs(&["build"]);
    assert!(should_exclude("out/build", None, Some(&dirs)));
    assert!(should_exclude("build", None, Some(&dirs)));
}

#[test]
fn directory_rule_normalizes_backslashes() {
    let dirs = strs(&["out\\cache"]);
    assert!(should_exclude("out/cache/a.bin", None, Some(&dirs)));
    assert!(!should_exclude("out/cachet/a.bin", None, Some(&dirs)));
}

#[test]
fn no_rules_excludes_nothing_visible() {
    assert!(!should_exclude("a.txt", None, None));
    assert!(!should_exclude("deep/tree/of/files.rs", None, None));
}
