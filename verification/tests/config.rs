use minigrep::Config;
use minigrep::MissingArgument;

fn args(tokens: &[&str]) -> Vec<String> {
    tokens.iter().map(|token| token.to_string()).collect()
}

#[test]
fn config_takes_query_and_file_path() {
    let config = Config::new(&args(&["minigrep", "needle", "haystack.txt"]), None).unwrap();

    assert_eq!("needle", config.query);
    assert_eq!("haystack.txt", config.file_name);
    assert!(!config.ignore_case);
}

#[test]
fn config_ignores_further_arguments() {
    let config =
        Config::new(&args(&["minigrep", "needle", "haystack.txt", "more", "and more"]), None)
            .unwrap();

    assert_eq!("needle", config.query);
    assert_eq!("haystack.txt", config.file_name);
}

#[test]
fn config_passes_over_the_program_name() {
    let config = Config::new(&args(&["", "minigrep", "minigrep"]), None).unwrap();

    assert_eq!("minigrep", config.query);
    assert_eq!("minigrep", config.file_name);
}

#[test]
fn config_accepts_the_empty_query() {
    let config = Config::new(&args(&["minigrep", "", "haystack.txt"]), None).unwrap();

    assert_eq!("", config.query);
}

#[test]
fn config_without_query() {
    assert_eq!(Some(MissingArgument::Query), Config::new(&args(&["minigrep"]), None).err());
    assert_eq!(Some(MissingArgument::Query), Config::new(&args(&[]), None).err());
    assert_eq!(Some(MissingArgument::Query), Config::new(&args(&["minigrep"]), Some("1")).err());
}

#[test]
fn config_without_file_path() {
    assert_eq!(
        Some(MissingArgument::FilePath),
        Config::new(&args(&["minigrep", "needle"]), None).err()
    );
    assert_eq!(
        Some(MissingArgument::FilePath),
        Config::new(&args(&["minigrep", "needle"]), Some("")).err()
    );
}

#[test]
fn config_errors_have_their_own_messages() {
    assert_eq!("Didn't get a query string", MissingArgument::Query.message());
    assert_eq!("Didn't get a file path", MissingArgument::FilePath.message());
    assert_ne!(MissingArgument::Query.message(), MissingArgument::FilePath.message());
}

#[test]
fn config_ignores_case_when_the_flag_is_set() {
    let tokens = args(&["minigrep", "needle", "haystack.txt"]);

    assert!(!Config::new(&tokens, None).unwrap().ignore_case);
    for value in ["", "1", "0", "true", "false", "no", "anything at all"] {
        assert!(Config::new(&tokens, Some(value)).unwrap().ignore_case);
    }
}
