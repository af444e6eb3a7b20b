use bump_version::manifest::{
    detect_version, is_version_line, quoted, read_version_string, replace_string_carefully,
    update_version_string_if_needed, update_version_text, Application,
};
use bump_version::pattern::VersionError;
use bump_version::text::{replace_chars, split_lines};
use bump_version::version::{increment_build_number, increment_captures, successor_digits};

#[test]
fn test_increment_build_number() {
    let result = increment_build_number("0.0.0").unwrap_or_default();
    assert_eq!(result, "0.0.1");

    let result = increment_build_number("0.0.1").unwrap_or_default();
    assert_eq!(result, "0.0.2");

    let result = increment_build_number("0.0.9").unwrap_or_default();
    assert_eq!(result, "0.0.10");

    let result = increment_build_number("0.0.10").unwrap_or_default();
    assert_eq!(result, "0.0.11");

    let result = increment_build_number("0.0.99").unwrap_or_default();
    assert_eq!(result, "0.0.100");

    let result = increment_build_number("0.0.100").unwrap_or_default();
    assert_eq!(result, "0.0.101");

    let result = increment_build_number("0.0.999").unwrap_or_default();
    assert_eq!(result, "0.0.1000");

    let result = increment_build_number("0.0.1000").unwrap_or_default();
    assert_eq!(result, "0.0.1001");

    let result = increment_build_number("0.0.9999").unwrap_or_default();
    assert_eq!(result, "0.0.10000");

    let result = increment_build_number("0.0.10000").unwrap_or_default();
    assert_eq!(result, "0.0.10001");

    let result = increment_build_number("0.0.99999").unwrap_or_default();
    assert_eq!(result, "0.0.100000");

    let result = increment_build_number("0.0.100000").unwrap_or_default();
    assert_eq!(result, "0.0.100001");

    let result = increment_build_number("0.0.999999").unwrap_or_default();
    assert_eq!(result, "0.0.1000000");

    let result = increment_build_number("0.0.1000000").unwrap_or_default();
    assert_eq!(result, "0.0.1000001");

    let result = increment_build_number("0.0.9999999").unwrap_or_default();
    assert_eq!(result, "0.0.10000000");

    let result = increment_build_number("0.0.10000000").unwrap_or_default();
    assert_eq!(result, "0.0.10000001");
}

#[test]
fn increment_keeps_major_and_minor_text() {
    assert_eq!(increment_build_number("007.01.3").unwrap(), "007.01.4");
    assert_eq!(increment_build_number("1.2.999999999").unwrap(), "1.2.1000000000");
}

#[test]
fn increment_is_not_limited_by_machine_integers() {
    assert_eq!(
        increment_build_number("0.0.99999999999999999999999").unwrap(),
        "0.0.100000000000000000000000"
    );
}

#[test]
fn increment_drops_leading_zeros_of_patch() {
    assert_eq!(increment_build_number("1.2.009").unwrap(), "1.2.10");
    assert_eq!(increment_build_number("1.2.000").unwrap(), "1.2.1");
}

#[test]
fn increment_leaves_other_text_unchanged() {
    assert_eq!(increment_build_number("").unwrap(), "");
    assert_eq!(increment_build_number("1.2").unwrap(), "1.2");
    assert_eq!(increment_build_number("a.b.c").unwrap(), "a.b.c");
    assert_eq!(increment_build_number("1..2.3x").unwrap(), "1..2.3x");
}

#[test]
fn increment_takes_leftmost_match() {
    assert_eq!(increment_build_number("v1.2.3").unwrap(), "1.2.4");
    assert_eq!(increment_build_number("1.2.3.4").unwrap(), "1.2.4");
}

#[test]
fn increment_captures_builds_from_groups() {
    let groups = vec!["4".to_string(), "5".to_string(), "19".to_string()];
    assert_eq!(increment_captures("x", &groups).unwrap(), "4.5.20");
    let two = vec!["4".to_string(), "5".to_string()];
    assert_eq!(increment_captures("keep", &two).unwrap(), "keep");
}

#[test]
fn increment_captures_rejects_non_numeric_patch() {
    let groups = vec!["1".to_string(), "2".to_string(), "x".to_string()];
    assert_eq!(increment_captures("1.2.x", &groups), Err(VersionError::InvalidNumber));
    let empty = vec!["1".to_string(), "2".to_string(), String::new()];
    assert_eq!(increment_captures("1.2.", &empty), Err(VersionError::InvalidNumber));
}

#[test]
fn successor_digits_counts_up() {
    assert_eq!(successor_digits(&vec!['1', '9']), vec!['2', '0']);
    assert_eq!(successor_digits(&vec![]), vec!['1']);
    assert_eq!(successor_digits(&vec!['0', '0']), vec!['1']);
}

#[test]
fn version_line_detection() {
    assert!(is_version_line("version = \"1.2.3\""));
    assert!(is_version_line("  \tversion=\"1\"  "));
    assert!(!is_version_line("name = \"version\""));
    assert!(!is_version_line("vers"));
    assert!(!is_version_line(""));
}

#[test]
fn reader_returns_quoted_value() {
    assert_eq!(read_version_string("version = \"1.2.3\"").unwrap(), "1.2.3");
    assert_eq!(read_version_string("  version=\"0.9.1\"  ").unwrap(), "0.9.1");
}

#[test]
fn reader_ignores_other_lines() {
    assert_eq!(read_version_string("name = \"demo\"").unwrap(), "");
    assert_eq!(read_version_string("serde = { version = \"1.0.0\" }").unwrap(), "");
    assert_eq!(read_version_string("version.workspace = true").unwrap(), "");
    assert_eq!(read_version_string("version = \"\"").unwrap(), "");
}

#[test]
fn other_lines_pass_through_update() {
    let line = "name = \"demo\"";
    assert_eq!(update_version_string_if_needed(line, "demo", "9.9.9"), line);
    let dep = "regex = { version = \"1.2.3\" }";
    assert_eq!(update_version_string_if_needed(dep, "1.2.3", "9.9.9"), dep);
}

#[test]
fn version_line_update_needs_old_version() {
    let line = "version = \"1.2.3\"";
    assert_eq!(update_version_string_if_needed(line, "1.2.3", "1.2.4"), "version = \"1.2.4\"");
    assert_eq!(update_version_string_if_needed(line, "1.0.0", "1.2.4"), line);
    assert_eq!(update_version_string_if_needed(line, "", "1.2.4"), line);
}

#[test]
fn quoted_wraps_in_double_quotes() {
    assert_eq!(quoted("1.2.3"), "\"1.2.3\"");
    assert_eq!(quoted(""), "\"\"");
}

#[test]
fn substitution_replaces_every_occurrence() {
    let line = "a = \"1.2.3\", b = \"1.2.3\"";
    assert_eq!(
        replace_string_carefully(line, "1.2.3", "1.2.4"),
        "a = \"1.2.4\", b = \"1.2.4\""
    );
}

#[test]
fn substitution_is_exact() {
    let line = "a = \"1x2x3\", b = \"1.2.3\", c = 1.2.3";
    assert_eq!(
        replace_string_carefully(line, "1.2.3", "1.2.4"),
        "a = \"1x2x3\", b = \"1.2.4\", c = 1.2.3"
    );
}

#[test]
fn substitution_settles_after_one_run() {
    let once = replace_string_carefully("v = \"0.1.4\"", "0.1.4", "0.1.5");
    assert_eq!(once, "v = \"0.1.5\"");
    let twice = replace_string_carefully(&once, "0.1.4", "0.1.5");
    assert_eq!(twice, once);
}

#[test]
fn replace_chars_without_match() {
    let s: Vec<char> = "abc".chars().collect();
    let p: Vec<char> = "zz".chars().collect();
    let t: Vec<char> = "y".chars().collect();
    assert_eq!(replace_chars(&s, &p, &t), s);
}

#[test]
fn split_lines_like_str_lines() {
    let text: Vec<char> = "a\r\nb\n\nc\r".chars().collect();
    let lines: Vec<String> = split_lines(&text).iter().map(|l| l.iter().collect()).collect();
    assert_eq!(lines, vec!["a", "b", "", "c\r"]);
    let none: Vec<char> = Vec::new();
    assert!(split_lines(&none).is_empty());
    let one: Vec<char> = "x\n".chars().collect();
    assert_eq!(split_lines(&one).len(), 1);
}

#[test]
fn detect_takes_first_version_line() {
    let text = "[package]\nname = \"demo\"\nversion = \"0.1.4\"\nversion = \"9.9.9\"\n";
    assert_eq!(detect_version(text).unwrap(), "0.1.4");
    assert_eq!(detect_version("name = \"demo\"\n").unwrap(), "");
}

#[test]
fn update_text_normalizes_line_endings() {
    assert_eq!(update_version_text("", "0.9.9", "1.0.0"), "\n");
    assert_eq!(update_version_text("a\r\nb", "0.9.9", "1.0.0"), "a\nb\n");
}

#[test]
fn run_updates_manifest_and_lock() {
    let manifest = "name = \"demo\"\nversion = \"0.1.4\"\n";
    let lock = "version = \"0.1.4\"\nversion = \"0.1.4\"\n";
    let (new_manifest, new_lock) = Application.run(manifest, lock).unwrap();
    assert_eq!(new_manifest, "name = \"demo\"\nversion = \"0.1.5\"\n");
    assert_eq!(new_lock, "version = \"0.1.5\"\nversion = \"0.1.5\"\n");
}

#[test]
fn run_without_version_changes_nothing() {
    let manifest = "name = \"demo\"\nedition = \"2021\"\n";
    let lock = "name = \"demo\"\n";
    let (new_manifest, new_lock) = Application.run(manifest, lock).unwrap();
    assert_eq!(new_manifest, manifest);
    assert_eq!(new_lock, lock);
}

#[test]
fn run_without_version_normalizes_trailing_newline() {
    let manifest = "name = \"demo\"";
    let (new_manifest, _) = Application.run(manifest, "").unwrap();
    assert_eq!(new_manifest, "name = \"demo\"\n");
}

#[test]
fn run_without_version_keeps_lock_version_lines() {
    let manifest = "name = \"demo\"\n";
    let lock = "name = \"demo\"\nversion = \"0.1.4\"\n";
    let (new_manifest, new_lock) = Application.run(manifest, lock).unwrap();
    assert_eq!(new_manifest, manifest);
    assert_eq!(new_lock, lock);
}

#[test]
fn run_keeps_other_versions_in_lock() {
    let manifest = "name = \"demo\"\nversion = \"1.2.3\"\n";
    let lock = "name = \"regex\"\nversion = \"1\"\n\nname = \"demo\"\nversion = \"1.2.3\"\n";
    let (new_manifest, new_lock) = Application.run(manifest, lock).unwrap();
    assert_eq!(new_manifest, "name = \"demo\"\nversion = \"1.2.4\"\n");
    assert_eq!(
        new_lock,
        "name = \"regex\"\nversion = \"1\"\n\nname = \"demo\"\nversion = \"1.2.4\"\n"
    );
}

#[test]
fn second_run_advances_patch_again() {
    let manifest = "version = \"0.1.9\"\n";
    let (once, _) = Application.run(manifest, "").unwrap();
    assert_eq!(once, "version = \"0.1.10\"\n");
    let (twice, _) = Application.run(&once, "").unwrap();
    assert_eq!(twice, "version = \"0.1.11\"\n");
}

#[test]
fn second_file_update_changes_nothing() {
    let text = "name = \"demo\"\nversion = \"0.1.4\"\n";
    let once = update_version_text(text, "0.1.4", "0.1.5");
    assert_eq!(once, "name = \"demo\"\nversion = \"0.1.5\"\n");
    assert_eq!(update_version_text(&once, "0.1.4", "0.1.5"), once);
}
