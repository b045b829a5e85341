use thearf::config::{config_path, parse_i32, window_buffer, ConfigError, DEFAULT_WINDOW_BUFFER};

#[test]
fn buffer_defaults_without_setting() {
    assert_eq!(window_buffer(""), Ok(6));
    assert_eq!(DEFAULT_WINDOW_BUFFER, 6);
    assert_eq!(window_buffer("launch = super Return\n"), Ok(6));
}

#[test]
fn buffer_comment_lines_are_skipped() {
    assert_eq!(window_buffer("# window_buffer = 3\n/ window_buffer = 4\n"), Ok(6));
    assert_eq!(window_buffer("#window_buffer = oops\n"), Ok(6));
}

#[test]
fn buffer_is_read() {
    assert_eq!(window_buffer("window_buffer = 10\n"), Ok(10));
    assert_eq!(window_buffer("  window_buffer   =   12"), Ok(12));
    assert_eq!(window_buffer("window_buffer = -4\n"), Ok(-4));
    assert_eq!(window_buffer("window_buffer = +9\n"), Ok(9));
}

#[test]
fn buffer_last_setting_wins() {
    assert_eq!(window_buffer("window_buffer = 10\nfoo = bar\nwindow_buffer = 4\n"), Ok(4));
}

#[test]
fn buffer_crlf_lines() {
    assert_eq!(window_buffer("window_buffer = 8\r\n\r\n"), Ok(8));
}

#[test]
fn buffer_third_word_is_the_value() {
    assert_eq!(window_buffer("window_buffer 5 7\n"), Ok(7));
}

#[test]
fn buffer_missing_value() {
    assert_eq!(window_buffer("window_buffer =\n"), Err(ConfigError::MissingValue));
    assert_eq!(window_buffer("window_buffer"), Err(ConfigError::MissingValue));
}

#[test]
fn buffer_invalid_number() {
    assert_eq!(window_buffer("window_buffer = ten\n"), Err(ConfigError::InvalidNumber));
    assert_eq!(window_buffer("window_buffer = 99999999999\n"), Err(ConfigError::InvalidNumber));
}

#[test]
fn buffer_error_stops_reading() {
    assert_eq!(
        window_buffer("window_buffer = x\nwindow_buffer = 3\n"),
        Err(ConfigError::InvalidNumber)
    );
}

#[test]
fn parse_i32_like_std() {
    for s in [
        "0", "42", "-17", "+5", "-", "+", "", "2147483647", "2147483648", "-2147483648",
        "-2147483649", "12a", " 1", "007", "--1", "+-1", "99999999999999999999",
    ] {
        assert_eq!(parse_i32(s), s.parse::<i32>().ok(), "{s:?}");
    }
}

#[test]
fn config_path_under_home() {
    assert_eq!(config_path("/home/ada"), "/home/ada/.config/thearf/config");
}
