use vapor_diagnostics_server::config::{
    parse_max_stored_bytes, read_config, DEFAULT_MAX_STORED_BYTES, MAX_CONFIGURED_STORED_BYTES,
    MAX_UPLOAD_BYTES,
};
use vapor_diagnostics_server::text::{is_blank, parse_u64, push_decimal, same};

#[test]
fn rejects_invalid_quota_values() {
    assert!(parse_max_stored_bytes(Some("0".to_string())).is_err());
    assert!(parse_max_stored_bytes(Some("not-a-number".to_string())).is_err());
    assert_eq!(
        parse_max_stored_bytes(None).unwrap(),
        DEFAULT_MAX_STORED_BYTES
    );
}

#[test]
fn quota_limits_are_exact() {
    assert_eq!(DEFAULT_MAX_STORED_BYTES, 268435456);
    assert_eq!(MAX_CONFIGURED_STORED_BYTES, 68719476736);
    assert_eq!(MAX_UPLOAD_BYTES, 2097152);
    assert_eq!(parse_max_stored_bytes(Some("1".to_string())), Ok(1));
    assert_eq!(parse_max_stored_bytes(Some("+17".to_string())), Ok(17));
    assert_eq!(parse_max_stored_bytes(Some("68719476736".to_string())), Ok(68719476736));
    let range = "VAPOR_DIAGNOSTICS_MAX_STORED_BYTES must be between 1 and 68719476736";
    assert_eq!(parse_max_stored_bytes(Some("68719476737".to_string())), Err(range.to_string()));
    assert_eq!(parse_max_stored_bytes(Some("0".to_string())), Err(range.to_string()));
    let numeric = "VAPOR_DIAGNOSTICS_MAX_STORED_BYTES must be numeric";
    for text in ["", " 1", "1 ", "-1", "1_000", "18446744073709551616"] {
        assert_eq!(parse_max_stored_bytes(Some(text.to_string())), Err(numeric.to_string()));
    }
}

#[test]
fn integers_parse_as_std_parses_them() {
    for text in [
        "", "+", "-", "0", "00", "7", "+7", "++7", "-0", "12a", "a12", " 12", "12 ", "1_2", "٣",
        "18446744073709551615", "18446744073709551616", "+18446744073709551615",
        "018446744073709551615", "99999999999999999999999", "1e3", "0x10",
    ] {
        assert_eq!(parse_u64(text), text.parse::<u64>().ok(), "{}", text);
    }
}

#[test]
fn decimal_notation_reads_back() {
    for n in [0u64, 1, 9, 10, 99, 100, 1234567890, u64::MAX] {
        let mut text = String::new();
        push_decimal(&mut text, n as u128);
        assert_eq!(text, n.to_string());
        assert_eq!(parse_u64(&text), Some(n));
    }
    let mut text = "n=".to_string();
    push_decimal(&mut text, u128::MAX);
    assert_eq!(text, format!("n={}", u128::MAX));
}

#[test]
fn white_space_is_what_unicode_says() {
    let mut buffer = [0u8; 4];
    for c in '\0'..=char::MAX {
        let text: &str = c.encode_utf8(&mut buffer);
        assert_eq!(is_blank(text), c.is_whitespace(), "{:?}", c);
    }
    assert!(is_blank(""));
    assert!(is_blank(" \t\r\n\u{3000}"));
    assert!(!is_blank(" \tx\n"));
}

#[test]
fn texts_are_the_same_only_if_equal() {
    assert!(same("", ""));
    assert!(same("vapor.log", "vapor.log"));
    assert!(!same("vapor.log", "vapor.lo"));
    assert!(!same("vapor.log", "vapor.loG"));
    assert!(same("é", "é"));
    assert!(!same("é", "e"));
}

#[test]
fn settings_fall_back_to_their_defaults() {
    let config = read_config(None, None, None, None).ok().unwrap();
    assert_eq!(config.bind, "127.0.0.1:7114");
    assert_eq!(config.state_dir, "state/diagnostics");
    assert_eq!(config.admin_token, None);
    assert_eq!(config.max_stored_bytes, 268435456);
}

#[test]
fn settings_are_taken_as_given() {
    let config = read_config(
        Some("[::]:80".to_string()),
        Some("/srv/state".to_string()),
        Some("token".to_string()),
        Some("4096".to_string()),
    )
    .ok()
    .unwrap();
    assert_eq!(config.bind, "[::]:80");
    assert_eq!(config.state_dir, "/srv/state");
    assert_eq!(config.admin_token, Some("token".to_string()));
    assert_eq!(config.max_stored_bytes, 4096);
    let config = read_config(None, None, Some(String::new()), None).ok().unwrap();
    assert_eq!(config.admin_token, None);
    assert!(read_config(None, None, None, Some("x".to_string())).is_err());
}
