use othello_full_search::cli::{
    parse_args, parse_string_option, parse_u64_option, parse_u8_option, parse_usize_option,
    Command, Config,
};
use othello_full_search::error::Error;

fn words(line: &str) -> Vec<String> {
    line.split_whitespace().map(|word| word.to_string()).collect()
}

fn config(line: &str) -> Config {
    parse_args(&words(line)).unwrap()
}

fn refusal(line: &str) -> String {
    parse_args(&words(line)).unwrap_err().message()
}

#[test]
fn help_is_the_default() {
    for line in ["", "help", "--help", "-h", "help run", "--db x.sqlite3"] {
        assert!(matches!(config(line).command, Command::Help));
    }
}

#[test]
fn database_path_has_a_default() {
    assert_eq!(config("status").db_path, "othello_full_search.sqlite3");
    assert!(matches!(config("status").command, Command::Status));
}

#[test]
fn database_path_may_stand_anywhere() {
    for line in ["--db x.db init --reset", "init --db x.db --reset", "init --reset --db x.db"] {
        let config = config(line);
        assert_eq!(config.db_path, "x.db");
        assert!(matches!(config.command, Command::Init { reset: true }));
    }
}

#[test]
fn last_database_path_counts() {
    assert_eq!(config("--db a.db status --db b.db").db_path, "b.db");
    // What follows `--db` is its path, whatever it is.
    assert_eq!(config("--db --db status").db_path, "--db");
}

#[test]
fn database_option_needs_a_path() {
    let error = parse_args(&words("status --db")).unwrap_err();
    assert!(matches!(error, Error::DatabasePath));
    assert_eq!(error.message(), "--db requires a path");
}

#[test]
fn init_resets_on_request() {
    assert!(matches!(config("init").command, Command::Init { reset: false }));
    assert!(matches!(config("init --reset").command, Command::Init { reset: true }));
}

#[test]
fn run_options_and_defaults() {
    assert!(matches!(
        config("run").command,
        Command::Run { batch: 100, max_positions: None, max_seconds: None }
    ));
    assert!(matches!(
        config("run --batch 7 --max-positions 8 --max-seconds 3600").command,
        Command::Run { batch: 7, max_positions: Some(8), max_seconds: Some(3600) }
    ));
}

#[test]
fn perft_options_and_defaults() {
    assert!(matches!(config("perft").command, Command::Perft { depth: 6, divide: false }));
    assert!(matches!(
        config("perft --divide --depth 255").command,
        Command::Perft { depth: 255, divide: true }
    ));
    assert_eq!(refusal("perft --depth 256"), "invalid integer for --depth: 256");
}

#[test]
fn retrograde_options_and_defaults() {
    assert!(matches!(
        config("retrograde").command,
        Command::Retrograde { batch: 1000, max_passes: None }
    ));
    assert!(matches!(
        config("retrograde --max-passes 2 --batch 10").command,
        Command::Retrograde { batch: 10, max_passes: Some(2) }
    ));
}

#[test]
fn export_path_has_a_default() {
    match config("export-csv").command {
        Command::ExportCsv { output_path } => assert_eq!(output_path, "positions.csv"),
        other => panic!("{other:?}"),
    }
    match config("export-csv --out all.csv").command {
        Command::ExportCsv { output_path } => assert_eq!(output_path, "all.csv"),
        other => panic!("{other:?}"),
    }
    assert_eq!(refusal("export-csv --out"), "--out requires a value");
}

#[test]
fn unknown_commands_are_refused() {
    let error = parse_args(&words("expand --batch 3")).unwrap_err();
    assert!(matches!(error, Error::UnknownCommand(_)));
    assert_eq!(error.message(), "unknown command: expand");
    assert_eq!(refusal("Run"), "unknown command: Run");
}

#[test]
fn first_bad_option_is_reported() {
    assert_eq!(refusal("run --batch"), "--batch requires a value");
    assert_eq!(refusal("run --max-seconds x --batch y"), "invalid integer for --batch: y");
    assert_eq!(refusal("run --batch --max-positions 5"), "invalid integer for --batch: --max-positions");
}

#[test]
fn string_options_take_the_next_argument() {
    let args = words("run --out a --out b");
    assert_eq!(parse_string_option(&args, "--out").unwrap(), Some("a".to_string()));
    assert_eq!(parse_string_option(&args, "--in").unwrap(), None);
    assert_eq!(parse_string_option(&args, "run").unwrap(), Some("--out".to_string()));
    let error = parse_string_option(&args, "b").unwrap_err();
    assert!(matches!(error, Error::OptionValue(_)));
    assert_eq!(error.message(), "b requires a value");
}

#[test]
fn number_options_have_a_range() {
    let args = words("--n 18446744073709551615 --m 18446744073709551616 --k 255 --l 256 --p +12");
    assert_eq!(parse_u64_option(&args, "--n").unwrap(), Some(u64::MAX));
    assert!(parse_u64_option(&args, "--m").is_err());
    assert_eq!(parse_u8_option(&args, "--k").unwrap(), Some(255));
    assert_eq!(parse_u8_option(&args, "--l").unwrap_err().message(), "invalid integer for --l: 256");
    assert_eq!(parse_usize_option(&args, "--p").unwrap(), Some(12));
    assert_eq!(parse_usize_option(&args, "--q").unwrap(), None);
}

#[test]
fn number_options_take_digits_alone() {
    for value in ["-1", "+", "", "1.5", "1_0", "0x1", " 1", "\u{663}"] {
        let args = vec!["--n".to_string(), value.to_string()];
        let error = parse_u64_option(&args, "--n").unwrap_err();
        assert!(matches!(error, Error::OptionInteger { .. }));
        assert_eq!(error.message(), format!("invalid integer for --n: {value}"));
    }
    let args = words("--n 007");
    assert_eq!(parse_u64_option(&args, "--n").unwrap(), Some(7));
}

#[test]
fn refused_numbers_tell_why() {
    let cause = |value: &str| {
        let args = vec!["--n".to_string(), value.to_string()];
        parse_u64_option(&args, "--n").unwrap_err().cause().unwrap()
    };
    assert_eq!(cause(""), "cannot parse integer from empty string");
    assert_eq!(cause("+"), "invalid digit found in string");
    assert_eq!(cause("-5"), "invalid digit found in string");
    assert_eq!(cause("1x"), "invalid digit found in string");
    assert_eq!(cause("18446744073709551616"), "number too large to fit in target type");
    // What comes first when the text is read from the left is told.
    assert_eq!(cause("99999999999999999999x"), "number too large to fit in target type");
    assert_eq!(cause("1844674407370955161x6"), "invalid digit found in string");
    // The words are those of the standard library.
    for value in ["", "+", "-", "-5", "++1", "18446744073709551616", "99999999999999999999x"] {
        assert_eq!(cause(value), value.parse::<u64>().unwrap_err().to_string());
    }
    let small = vec!["--n".to_string(), "256".to_string()];
    let error = parse_u8_option(&small, "--n").unwrap_err();
    assert_eq!(error.cause().unwrap(), "number too large to fit in target type");
    assert_eq!(parse_args(&words("nothing")).unwrap_err().cause(), None);
}
