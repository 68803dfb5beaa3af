use week_parity::config::{extract_between, extract_quoted_value, parse_config_toml};

#[test]
fn test_parse_config_toml() {
    let config = parse_config_toml(
        "base_date = [\"2026-03-02\", \"2026-07-06\"]\ntimezone = \"Asia/Shanghai\"",
    )
    .expect("valid config");
    assert_eq!(config.base_dates, vec!["2026-03-02", "2026-07-06"]);
    assert_eq!(config.timezone, "Asia/Shanghai");
}

#[test]
fn test_parse_config_toml_requires_base_date() {
    assert_eq!(
        parse_config_toml("timezone = \"Asia/Shanghai\"").unwrap_err(),
        "config.toml missing base_date array"
    );
}

#[test]
fn test_parse_config_toml_requires_timezone() {
    assert_eq!(
        parse_config_toml("base_date = [\"2026-03-02\"]").unwrap_err(),
        "config.toml missing timezone"
    );
}

#[test]
fn parse_config_toml_rejects_an_empty_array() {
    assert_eq!(
        parse_config_toml("base_date = [ , \"\" ,]\ntimezone = \"UTC\"").unwrap_err(),
        "config.toml base_date array is empty"
    );
    assert_eq!(
        parse_config_toml("base_date = []").unwrap_err(),
        "config.toml base_date array is empty"
    );
}

#[test]
fn parse_config_toml_cleans_entries() {
    let config = parse_config_toml(
        "base_date = [\n  \"2026-03-02\",  # spring\n\t2026-07-06 ,\n \"\u{3000}2026-09-07\" ,\n]\ntimezone = \"Europe/Berlin\"",
    )
    .expect("valid config");
    // The second field starts with a comment, so the date after it on the
    // next line is cut off with it; U+3000 is white space and is trimmed.
    assert_eq!(config.base_dates, vec!["2026-03-02", "2026-09-07"]);
    assert_eq!(config.timezone, "Europe/Berlin");
}

#[test]
fn parse_config_toml_cuts_at_hash_and_quotes() {
    let config = parse_config_toml("base_date = [ \"a\" \" , b#c, #d ]  timezone=\"Z\"")
        .expect("valid config");
    assert_eq!(config.base_dates, vec!["a\"", "b"]);
    assert_eq!(config.timezone, "Z");
}

#[test]
fn parse_config_toml_missing_timezone_quote() {
    assert_eq!(
        parse_config_toml("base_date = [1]\ntimezone = \"UTC").unwrap_err(),
        "config.toml missing timezone"
    );
}

#[test]
fn parse_config_toml_non_ascii_text() {
    let config = parse_config_toml("学期 base_date=[\"二〇二六\"] timezone=\"东八区\"")
        .expect("valid config");
    assert_eq!(config.base_dates, vec!["二〇二六"]);
    assert_eq!(config.timezone, "东八区");
}

#[test]
fn extract_between_follows_the_first_key() {
    assert_eq!(
        extract_between("x = [1] key = [2, 3]", "key", '[', ']'),
        Some("2, 3".to_string())
    );
    assert_eq!(extract_between("key = [2, 3", "key", '[', ']'), None);
    assert_eq!(extract_between("key = 2, 3]", "key", '[', ']'), None);
    assert_eq!(extract_between("nothing here", "key", '[', ']'), None);
    assert_eq!(extract_between("[a] key", "", '[', ']'), Some("a".to_string()));
}

#[test]
fn extract_quoted_value_takes_the_next_quotes() {
    assert_eq!(
        extract_quoted_value("timezone = \"UTC\" other = \"x\"", "timezone"),
        Some("UTC".to_string())
    );
    assert_eq!(
        extract_quoted_value("timezone = \"\"", "timezone"),
        Some(String::new())
    );
    assert_eq!(extract_quoted_value("timezone = UTC", "timezone"), None);
}
