use see_core::config::Config;
use see_core::error::AppError;

#[test]
fn unset_fields_fall_back_to_the_documented_defaults() {
    let c = Config::default();
    assert!(c.api_key().is_none());
    assert_eq!(c.base_url(), "https://s.ee/api/v1");
    assert_eq!(c.timeout(), 30);
    assert!(c.default_link_domain().is_none());
    assert!(c.default_text_domain().is_none());
    assert!(c.default_file_domain().is_none());
}

#[test]
fn set_fields_are_returned_as_given() {
    let c = Config {
        api_key: Some(String::from("test-key")),
        base_url: Some(String::from("https://api.example")),
        timeout: Some(9),
        default_link_domain: Some(String::from("s.ee")),
        default_text_domain: Some(String::from("p.s.ee")),
        default_file_domain: Some(String::from("i.s.ee")),
    };
    assert_eq!(c.api_key(), Some("test-key"));
    assert_eq!(c.base_url(), "https://api.example");
    assert_eq!(c.timeout(), 9);
    assert_eq!(c.default_link_domain(), Some("s.ee"));
    assert_eq!(c.default_text_domain(), Some("p.s.ee"));
    assert_eq!(c.default_file_domain(), Some("i.s.ee"));
}

#[test]
fn overrides_replace_only_what_they_carry() {
    let base = Config {
        api_key: Some(String::from("from-file")),
        base_url: Some(String::from("https://file.example")),
        timeout: Some(10),
        default_link_domain: Some(String::from("s.ee")),
        default_text_domain: None,
        default_file_domain: None,
    };
    let merged = base.with_overrides(Some(String::from("from-env")), None, Some(99));
    assert_eq!(merged.api_key(), Some("from-env"));
    assert_eq!(merged.base_url(), "https://file.example");
    assert_eq!(merged.timeout(), 99);
    assert_eq!(merged.default_link_domain(), Some("s.ee"));
}

#[test]
fn overrides_on_an_empty_snapshot() {
    let merged = Config::default().with_overrides(None, Some(String::from("https://e")), None);
    assert!(merged.api_key().is_none());
    assert_eq!(merged.base_url(), "https://e");
    assert_eq!(merged.timeout(), 30);
}

#[test]
fn config_file_path_ends_with_the_fixed_name() {
    match Config::config_file_path() {
        Ok(p) => assert!(p.ends_with("/see/config.toml")),
        Err(e) => assert!(matches!(e, AppError::Config(_))),
    }
}

#[test]
fn history_file_path_ends_with_the_fixed_name() {
    match Config::history_file_path() {
        Ok(p) => assert!(p.ends_with("/see/history.json")),
        Err(e) => assert!(matches!(e, AppError::Config(_))),
    }
}

#[test]
fn error_messages_name_their_kind() {
    assert_eq!(AppError::NoApiKey.message(), String::from("No API key configured"));
    assert_eq!(
        AppError::Api(String::from("x")).message(),
        String::from("API error: x")
    );
    assert_eq!(
        AppError::Corrupt(String::from("y")).message(),
        String::from("Corrupt history: y")
    );
    assert_eq!(
        AppError::Storage(String::from("z")).message(),
        String::from("Storage error: z")
    );
    assert_eq!(
        AppError::Config(String::from("w")).message(),
        String::from("Configuration error: w")
    );
}
