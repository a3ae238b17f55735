use feedwatch::config::{
    parse_u64, split_once, value_of, Config, ConfigError, CYCLE_INTERVAL_SECS,
    TOAST_DURATION_SECS,
};

fn strings(items: &[&str]) -> Vec<String> {
    items.iter().map(|s| s.to_string()).collect()
}

#[test]
fn numbers_are_read_as_the_standard_library_reads_them() {
    let cases = [
        "", "+", "-", "0", "7", "007", "+5", "++5", "-5", "+-5", "5+", " 5", "5 ", "1_000",
        "0x10", "12a", "a12", "１２", "٣", "18446744073709551615", "18446744073709551616",
        "+18446744073709551615", "99999999999999999999999999", "018446744073709551615",
        "184467440737095516150", "600", "3.5", "1e3",
    ];
    for s in cases {
        assert_eq!(parse_u64(s), s.parse::<u64>().ok(), "{:?}", s);
    }
}

#[test]
fn numbers_exact_values() {
    assert_eq!(parse_u64("600"), Some(600));
    assert_eq!(parse_u64("+42"), Some(42));
    assert_eq!(parse_u64("18446744073709551615"), Some(u64::MAX));
    assert_eq!(parse_u64("18446744073709551616"), None);
    assert_eq!(parse_u64(""), None);
}

#[test]
fn split_once_parts_at_the_first_equals_sign() {
    assert_eq!(split_once("--path=a=b"), Some(("--path".to_string(), "a=b".to_string())));
    assert_eq!(split_once("=x"), Some((String::new(), "x".to_string())));
    assert_eq!(split_once("x="), Some(("x".to_string(), String::new())));
    assert_eq!(split_once("="), Some((String::new(), String::new())));
    assert_eq!(split_once("plain"), None);
    assert_eq!(split_once(""), None);
}

#[test]
fn options_pass_over_the_program_name_and_bare_words() {
    let args = strings(&["prog=1", "--path=f", "bare", "--toast=3", "k=v=w"]);
    let options = Config::get_args(&args);
    assert_eq!(
        options,
        vec![
            ("--path".to_string(), "f".to_string()),
            ("--toast".to_string(), "3".to_string()),
            ("k".to_string(), "v=w".to_string()),
        ]
    );
    assert!(Config::get_args(&vec![]).is_empty());
    assert!(Config::get_args(&strings(&["a=b"])).is_empty());
}

#[test]
fn the_last_of_equal_keys_counts() {
    let options = Config::get_args(&strings(&["p", "k=1", "j=x", "k=2"]));
    assert_eq!(value_of(&options, "k"), Some(&"2".to_string()));
    assert_eq!(value_of(&options, "j"), Some(&"x".to_string()));
    assert_eq!(value_of(&options, "i"), None);
}

#[test]
fn parse_number_defaults() {
    assert_eq!(Config::parse_number(9, None), Ok(9));
    assert_eq!(Config::parse_number(9, Some(&"12".to_string())), Ok(12));
    assert_eq!(Config::parse_number(9, Some(&"x".to_string())), Err(ConfigError::InvalidNumber));
    assert_eq!(Config::parse_number(9, Some(&String::new())), Err(ConfigError::InvalidNumber));
}

#[test]
fn default_configuration() {
    let config = Config::default(&strings(&["prog", "--path=feeds.txt"])).unwrap();
    assert_eq!(config.file_path, "feeds.txt");
    assert_eq!(config.toast_duration, 5);
    assert_eq!(config.cycle_interval, 600);
    assert_eq!(CYCLE_INTERVAL_SECS, 600);
    assert_eq!(TOAST_DURATION_SECS, 5);
}

#[test]
fn configuration_from_options() {
    let args = strings(&["prog", "--interval=60", "--path=a", "--toast=1", "--path=b"]);
    let config = Config::default(&args).unwrap();
    assert_eq!(config.file_path, "b");
    assert_eq!(config.toast_duration, 1);
    assert_eq!(config.cycle_interval, 60);
    let other = Config::new(7, 8, &strings(&["prog", "--path=p"])).unwrap();
    assert_eq!(other.cycle_interval, 7);
    assert_eq!(other.toast_duration, 8);
}

#[test]
fn configuration_errors() {
    assert_eq!(Config::default(&strings(&["prog"])).unwrap_err(), ConfigError::MissingPath);
    assert_eq!(Config::default(&vec![]).unwrap_err(), ConfigError::MissingPath);
    assert_eq!(
        Config::default(&strings(&["--path=x"])).unwrap_err(),
        ConfigError::MissingPath
    );
    assert_eq!(
        Config::default(&strings(&["prog", "--toast=x"])).unwrap_err(),
        ConfigError::MissingPath
    );
    assert_eq!(
        Config::default(&strings(&["prog", "--path=f", "--toast=x"])).unwrap_err(),
        ConfigError::InvalidNumber
    );
    assert_eq!(
        Config::default(&strings(&["prog", "--path=f", "--interval=-1"])).unwrap_err(),
        ConfigError::InvalidNumber
    );
    assert_eq!(
        Config::default(&strings(&["prog", "--path=f", "--interval="])).unwrap_err(),
        ConfigError::InvalidNumber
    );
}

#[test]
fn feeds_of_a_file_are_trimmed_first() {
    let config = Config::default(&strings(&["prog", "--path=f"])).unwrap();
    assert_eq!(config.parse_feeds("\n\n  {A|B}\nx\n\n  \n"), strings(&["A", "B", "x"]));
    assert_eq!(
        config.parse_feeds("{A|B|C}_{D|E}\nasdf\n# {DD|CC}\n"),
        strings(&["A_D", "A_E", "B_D", "B_E", "C_D", "C_E", "asdf"])
    );
    assert_eq!(config.parse_feeds(""), strings(&[""]));
    assert_eq!(config.parse_feeds("a\n\nb"), strings(&["a", "", "b"]));
    assert_eq!(config.parse_feeds(" \t# first\nb \n"), strings(&["b"]));
}
