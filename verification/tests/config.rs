use minigrep::{run, Config, ConfigError};

fn args(raw: &[&str]) -> Vec<String> {
    raw.iter().map(|s| s.to_string()).collect()
}

#[test]
fn program_name_alone_lacks_the_query() {
    let built = Config::build(&args(&["minigrep"]), false);
    assert_eq!(built.unwrap_err(), ConfigError::MissingQuery);
}

#[test]
fn no_argument_at_all_lacks_the_query() {
    let built = Config::build(&args(&[]), true);
    assert_eq!(built.unwrap_err(), ConfigError::MissingQuery);
}

#[test]
fn query_alone_lacks_the_file_path() {
    let built = Config::build(&args(&["minigrep", "duct"]), false);
    assert_eq!(built.unwrap_err(), ConfigError::MissingFilePath);
}

#[test]
fn query_and_file_path_build() {
    let config = Config::build(&args(&["minigrep", "duct", "poem.txt"]), false).unwrap();
    assert_eq!(config.query, "duct");
    assert_eq!(config.file_path, "poem.txt");
    assert!(!config.ignore_case);
}

#[test]
fn ignore_case_is_what_was_handed_in() {
    let raw = args(&["minigrep", "duct", "poem.txt"]);
    assert!(Config::build(&raw, true).unwrap().ignore_case);
    assert!(!Config::build(&raw, false).unwrap().ignore_case);
}

#[test]
fn further_arguments_are_ignored() {
    let config = Config::build(&args(&["minigrep", "duct", "poem.txt", "more", "-x"]), true).unwrap();
    assert_eq!(config.query, "duct");
    assert_eq!(config.file_path, "poem.txt");
    assert!(config.ignore_case);
}

#[test]
fn empty_query_is_taken_as_it_is() {
    let config = Config::build(&args(&["minigrep", "", "poem.txt"]), false).unwrap();
    assert_eq!(config.query, "");
    assert_eq!(config.file_path, "poem.txt");
}

#[test]
fn errors_describe_themselves() {
    assert_eq!(ConfigError::MissingQuery.message(), "Failed to parse query argument.");
    assert_eq!(ConfigError::MissingFilePath.message(), "Failed to parse file path argument.");
}

#[test]
fn run_searches_as_the_configuration_says() {
    let contents = "Rust:\nsafe, fast, productive.\nPick three.\nTrust me.";
    let minding = Config::build(&args(&["minigrep", "rUsT", "poem.txt"]), false).unwrap();
    let ignoring = Config::build(&args(&["minigrep", "rUsT", "poem.txt"]), true).unwrap();
    assert_eq!(run(&minding, contents), Vec::<&str>::new());
    assert_eq!(run(&ignoring, contents), vec!["Rust:", "Trust me."]);
    let plain = Config::build(&args(&["minigrep", "duct", "poem.txt"]), false).unwrap();
    assert_eq!(run(&plain, contents), vec!["safe, fast, productive."]);
}
