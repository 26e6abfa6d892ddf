use graphol::cli::{build_runner_source, parse_cli_args, string_literal};

fn args(items: &[&str]) -> Vec<String> {
    items.iter().map(|s| s.to_string()).collect()
}

#[test]
fn parses_compile_arguments() {
    let options = parse_cli_args(&args(&["examples/program5.graphol", "-o", "program5"]))
        .expect("args should be valid");

    assert_eq!(options.input, Some("examples/program5.graphol".to_string()));
    assert_eq!(options.output, Some("program5".to_string()));
}

#[test]
fn output_requires_input() {
    let error = parse_cli_args(&args(&["-o", "program5"])).expect_err("missing input should fail");
    assert_eq!(error.message, "output option requires an input .graphol file");
}

#[test]
fn creates_valid_raw_string_literal() {
    let literal = string_literal("value with \"quote\" and \"### terminator");
    assert!(literal.starts_with("r"));
    assert!(literal.contains("value with \"quote\""));
}

#[test]
fn each_command_line_error_is_reported() {
    let error = parse_cli_args(&args(&["-o=program"])).expect_err("output without input fails");
    assert_eq!(error.message, "output option requires an input .graphol file");
    let error = parse_cli_args(&args(&["main.graphol", "--output"])).expect_err("missing value fails");
    assert_eq!(error.message, "missing value after -o/--output");
    let error = parse_cli_args(&args(&["main.graphol", "-x"])).expect_err("unknown option fails");
    assert_eq!(error.message, "unknown option: -x");
    let error = parse_cli_args(&args(&["a.graphol", "b.graphol"])).expect_err("two inputs fail");
    assert_eq!(error.message, "multiple input files provided");
}

#[test]
fn accepts_inline_output_and_no_arguments() {
    let options = parse_cli_args(&args(&["-o=bin/prog", "dir"])).expect("args should be valid");
    assert_eq!(options.input, Some("dir".to_string()));
    assert_eq!(options.output, Some("bin/prog".to_string()));
    let options = parse_cli_args(&args(&[])).expect("no arguments read stdin");
    assert_eq!(options.input, None);
    assert_eq!(options.output, None);
}

#[test]
fn raw_literal_takes_the_fewest_hashes_that_fit() {
    assert_eq!(string_literal("plain"), "r#\"plain\"#");
    assert_eq!(string_literal("a\"#b"), "r##\"a\"#b\"##");
    let mut crowded = String::new();
    for n in 1..=32 {
        crowded.push('"');
        crowded.push_str(&"#".repeat(n));
    }
    assert_eq!(string_literal(&crowded), format!("{:?}", crowded));
}

#[test]
fn runner_source_embeds_the_program() {
    let runner = build_runner_source("echo \"hi\"");
    assert!(runner.starts_with("use graphol_rs::runtime::StdIo;\n\nfn main() {\n    const SOURCE: &str = r#\"echo \"hi\"\"#;\n"));
    assert!(runner.contains("graphol_rs::run_graphol(SOURCE, Box::new(StdIo))"));
}
