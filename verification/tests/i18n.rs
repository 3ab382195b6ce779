use the_bug::i18n::{detect, parse_locale, Language};

#[test]
fn detect_reads_the_cli_flag() {
    assert_eq!(detect(Some("pl"), |_| None), Language::Polish);
}

#[test]
fn detect_falls_back_to_env_then_english() {
    assert_eq!(
        detect(None, |k| if k == "LANG" { Some("pl_PL.UTF-8".to_string()) } else { None }),
        Language::Polish
    );
    assert_eq!(detect(None, |_| None), Language::English);
}

#[test]
fn detect_skips_c_and_posix() {
    let env = |k: &str| match k {
        "LC_ALL" => Some("C".to_string()),
        "LANG" => Some("pl_PL".to_string()),
        _ => None,
    };
    assert_eq!(detect(None, env), Language::Polish);
}

#[test]
fn detect_cli_beats_env() {
    let env = |k: &str| if k == "LANG" { Some("pl_PL".to_string()) } else { None };
    assert_eq!(detect(Some("en"), env), Language::English);
}

#[test]
fn parse_locale_reads_the_language_part_in_any_case() {
    assert_eq!(parse_locale("pl_PL.UTF-8"), Some(Language::Polish));
    assert_eq!(parse_locale("EN-us"), Some(Language::English));
    assert_eq!(parse_locale("en"), Some(Language::English));
    assert_eq!(parse_locale("de_DE"), None);
    assert_eq!(parse_locale("english"), None);
    assert_eq!(parse_locale(""), None);
    assert_eq!(parse_locale(".pl"), None);
}

#[test]
fn detect_walks_the_variables_in_order_and_skips_posix_and_empty() {
    let env = |k: &str| match k {
        "LC_ALL" => Some(String::new()),
        "LC_MESSAGES" => Some("POSIX".to_string()),
        "LANG" => Some("en_GB".to_string()),
        _ => None,
    };
    assert_eq!(detect(Some("xx"), env), Language::English);
    let env = |k: &str| match k {
        "LC_MESSAGES" => Some("pl".to_string()),
        "LANG" => Some("en".to_string()),
        _ => None,
    };
    assert_eq!(detect(None, env), Language::Polish);
}

#[test]
fn language_codes() {
    assert_eq!(Language::English.code(), "en");
    assert_eq!(Language::Polish.code(), "pl");
    assert_eq!(Language::default(), Language::English);
}
