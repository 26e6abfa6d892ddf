use graphol::artifacts::{
    choose_runtime_artifacts, is_deps_dir, pick_hashed_rlib, resolve_runtime_choice, runtime_candidates, ArtifactChoice,
    ArtifactError,
};
use graphol::directive::{contains_include_keyword, is_name_terminator, parse_include_directive, DirectiveError};
use graphol::text::{decimal_chars, is_whitespace, skip_whitespace, split_lines, trim_chars};

fn chars(s: &str) -> Vec<char> {
    s.chars().collect()
}

fn string(v: &[char]) -> String {
    v.iter().collect()
}

fn parse(line: &str) -> Result<Option<String>, DirectiveError> {
    parse_include_directive(&chars(line)).map(|p| p.map(|v| string(&v)))
}

fn names(items: &[&str]) -> Vec<String> {
    items.iter().map(|s| s.to_string()).collect()
}

#[test]
fn finds_include_only_as_a_name_outside_literals() {
    assert!(contains_include_keyword(&chars("include \"a.graphol\"")));
    assert!(contains_include_keyword(&chars("x (include)")));
    assert!(contains_include_keyword(&chars("value include other")));
    assert!(!contains_include_keyword(&chars("echo \"include\"")));
    assert!(!contains_include_keyword(&chars("echo \"a\\\"include\"")));
    assert!(!contains_include_keyword(&chars("included includes")));
    assert!(!contains_include_keyword(&chars("")));
    assert!(contains_include_keyword(&chars("a+include-b")));
}

#[test]
fn reads_include_directives() {
    assert_eq!(parse("echo 1"), Ok(None));
    assert_eq!(parse("include \"lib.graphol\""), Ok(Some("lib.graphol".to_string())));
    assert_eq!(parse("  include   \"a b.graphol\"  "), Ok(Some("a b.graphol".to_string())));
    assert_eq!(parse("include \"q\\\"uote\""), Ok(Some("q\"uote".to_string())));
    assert_eq!(parse("include\"x\""), Err(DirectiveError::ReservedKeyword));
    assert_eq!(parse("x include \"y\""), Err(DirectiveError::ReservedKeyword));
    assert_eq!(parse("include"), Err(DirectiveError::Malformed));
    assert_eq!(parse("include x"), Err(DirectiveError::Malformed));
    assert_eq!(parse("include \"x\" y"), Err(DirectiveError::Malformed));
    assert_eq!(parse("include \"x"), Err(DirectiveError::Unclosed));
}

#[test]
fn name_terminators() {
    for c in ['+', '-', '*', '/', '^', '(', ')', '{', '}'] {
        assert!(is_name_terminator(c));
    }
    assert!(!is_name_terminator('a'));
    assert!(!is_name_terminator('"'));
}

#[test]
fn whitespace_and_trimming_follow_unicode() {
    assert!(is_whitespace(' '));
    assert!(is_whitespace('\u{3000}'));
    assert!(is_whitespace('\u{85}'));
    assert!(!is_whitespace('\u{200B}'));
    assert_eq!(string(&trim_chars(&chars("\t a b \n"))), "a b");
    assert_eq!(string(&trim_chars(&chars("   "))), "");
    assert_eq!(skip_whitespace(&chars("  x"), 0), 2);
    assert_eq!(skip_whitespace(&chars("  "), 1), 2);
}

#[test]
fn lines_split_like_str_lines() {
    let lines: Vec<String> = split_lines(&chars("a\r\nb\n\nc")).iter().map(|l| string(l)).collect();
    assert_eq!(lines, vec!["a", "b", "", "c"]);
    assert!(split_lines(&chars("")).is_empty());
    let lines: Vec<String> = split_lines(&chars("x\n")).iter().map(|l| string(l)).collect();
    assert_eq!(lines, vec!["x"]);
    let lines: Vec<String> = split_lines(&chars("\r\r\n")).iter().map(|l| string(l)).collect();
    assert_eq!(lines, vec!["\r"]);
}

#[test]
fn decimal_digits() {
    assert_eq!(string(&decimal_chars(0)), "0");
    assert_eq!(string(&decimal_chars(1907)), "1907");
}

#[test]
fn picks_first_hashed_runtime_library() {
    let found = pick_hashed_rlib(&names(&["libgraphol-abcd1234.rlib"]), "libgraphol-");
    assert_eq!(found, Some(0));
    let found = pick_hashed_rlib(
        &names(&["other.rlib", "libgraphol-b.rlib", "libgraphol-a.d", "libgraphol-a.rlib", "libgraphol-ab.rlib"]),
        "libgraphol-",
    );
    assert_eq!(found, Some(3));
    assert_eq!(pick_hashed_rlib(&names(&["libgraphol.rlib", "deps"]), "libgraphol-"), None);
    assert_eq!(pick_hashed_rlib(&names(&[]), "libgraphol_rs-"), None);
    assert_eq!(
        pick_hashed_rlib(&names(&["libgraphol_rs-9.rlib", "libgraphol_rs-10.rlib"]), "libgraphol_rs-"),
        Some(1)
    );
}

#[test]
fn resolves_plain_rlib_without_deps_dir() {
    let found = resolve_runtime_choice(true, false, &names(&[]), "libgraphol-");
    assert_eq!(found, Some((ArtifactChoice::Plain, false)));
}

#[test]
fn resolves_hashed_rlib_inside_deps_dir() {
    let found = resolve_runtime_choice(false, true, &names(&["libgraphol-abcd1234.rlib"]), "libgraphol-");
    assert_eq!(found, Some((ArtifactChoice::Hashed(0), true)));
    assert_eq!(resolve_runtime_choice(false, false, &names(&["libgraphol-a.rlib"]), "libgraphol-"), None);
    assert_eq!(resolve_runtime_choice(false, true, &names(&["other"]), "libgraphol-"), None);
}

#[test]
fn chooses_runtime_artifacts_of_a_build_directory() {
    let hashed = names(&["libgraphol_rs-b.rlib", "libgraphol_rs-a.rlib"]);
    assert_eq!(choose_runtime_artifacts(false, true, &hashed, "libgraphol_rs-"), Err(ArtifactError::MissingDeps));
    assert_eq!(choose_runtime_artifacts(true, true, &hashed, "libgraphol_rs-"), Ok(ArtifactChoice::Plain));
    assert_eq!(choose_runtime_artifacts(true, false, &hashed, "libgraphol_rs-"), Ok(ArtifactChoice::Hashed(1)));
    let err = choose_runtime_artifacts(true, false, &names(&["x"]), "libgraphol_rs-").expect_err("no library");
    assert_eq!(err, ArtifactError::NoLibrary);
    assert_eq!(err.message(), "could not find graphol runtime library; run `cargo build` first");
    assert_eq!(
        ArtifactError::MissingDeps.message(),
        "missing runtime artifacts in target dir; run `cargo build` first"
    );
}

#[test]
fn candidate_directories_and_deps_names() {
    assert!(is_deps_dir(Some("deps")));
    assert!(!is_deps_dir(Some("dep")));
    assert!(!is_deps_dir(None));
    let c = runtime_candidates(Some("/custom".to_string()), "/exe".to_string(), "/build".to_string());
    assert_eq!(c, vec!["/custom".to_string(), "/exe".to_string(), "/build".to_string()]);
    let c = runtime_candidates(None, "/exe".to_string(), "/build".to_string());
    assert_eq!(c, vec!["/exe".to_string(), "/build".to_string()]);
}
