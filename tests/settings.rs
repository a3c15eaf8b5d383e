use adr_core::config::{parse_number, AdrToolConfig, ConfigError, ADR_ROOT_DIR, ID_PREFIX_WIDTH, LOG_LEVEL, USE_ID_PREFIX};

#[test]
fn numbers_parse_like_unsigned_integers() {
    assert_eq!(parse_number("0"), Some(0));
    assert_eq!(parse_number("+42"), Some(42));
    assert_eq!(parse_number("007"), Some(7));
    assert_eq!(parse_number(""), None);
    assert_eq!(parse_number("+"), None);
    assert_eq!(parse_number("-1"), None);
    assert_eq!(parse_number("12a"), None);
    assert_eq!(parse_number(" 1"), None);
    assert_eq!(parse_number(&usize::MAX.to_string()), Some(usize::MAX));
    assert_eq!(parse_number("99999999999999999999999"), None);
    assert_eq!(parse_number("99999999999999999999999x"), None);
}

#[test]
fn setting_the_root_moves_every_directory() {
    let cfg = AdrToolConfig::default();
    let c = cfg.with_setting(ADR_ROOT_DIR, "/home/me/adr").unwrap();
    assert_eq!(c.adr_src_dir, "/home/me/adr");
    assert_eq!(c.adr_template_dir, "/home/me/adr/templates");
    assert_eq!(c.adr_search_index, "/home/me/adr/.index");
    assert_eq!(c.adr_template_file, cfg.adr_template_file);
    let c = cfg.with_setting(ADR_ROOT_DIR, "/srv/").unwrap();
    assert_eq!(c.adr_template_dir, "/srv/templates");
}

#[test]
fn setting_numbers_and_flags() {
    let cfg = AdrToolConfig::default();
    let c = cfg.with_setting(LOG_LEVEL, "6").unwrap();
    assert_eq!(c.log_level, 6);
    assert_eq!(c.adr_src_dir, cfg.adr_src_dir);
    let c = cfg.with_setting(ID_PREFIX_WIDTH, "10").unwrap();
    assert_eq!(c.id_prefix_width, 10);
    let c = cfg.with_setting(USE_ID_PREFIX, "false").unwrap();
    assert!(!c.use_id_prefix);
    assert_eq!(cfg.with_setting(USE_ID_PREFIX, "no").unwrap_err(), ConfigError::InvalidBool);
    assert_eq!(cfg.with_setting(LOG_LEVEL, "x").unwrap_err(), ConfigError::InvalidNumber);
    assert_eq!(cfg.with_setting(ID_PREFIX_WIDTH, "-3").unwrap_err(), ConfigError::InvalidNumber);
}

#[test]
fn setting_paths_and_unknown_names() {
    let cfg = AdrToolConfig::default();
    let c = cfg.with_setting("adr_src_dir", "/a").unwrap();
    assert_eq!(c.adr_src_dir, "/a");
    assert_eq!(c.adr_template_dir, cfg.adr_template_dir);
    let c = cfg.with_setting("adr_template_dir", "/t").unwrap();
    assert_eq!(c.adr_template_dir, "/t");
    let c = cfg.with_setting("adr_template_file", "x.adoc").unwrap();
    assert_eq!(c.adr_template_file, "x.adoc");
    let c = cfg.with_setting("colour", "blue").unwrap();
    assert_eq!(c.adr_src_dir, cfg.adr_src_dir);
    assert_eq!(c.log_level, cfg.log_level);
    assert_eq!(c.use_id_prefix, cfg.use_id_prefix);
}

#[test]
fn test_set_config_log_level() {
    let cfg = AdrToolConfig::default().with_setting("log_level", "7").unwrap();
    assert_eq!(cfg.log_level, 7);
}

#[test]
fn test_set_config_use_id() {
    let cfg = AdrToolConfig::default().with_setting("use_id_prefix", "false").unwrap();
    assert_eq!(cfg.use_id_prefix, false);
}

#[test]
fn test_set_config_id_width() {
    let cfg = AdrToolConfig::default().with_setting("id_prefix_width", "10").unwrap();
    assert_eq!(cfg.id_prefix_width, 10);
}

#[test]
fn test_set_config_adr_root() {
    let cfg = AdrToolConfig::default()
        .with_setting("adr_root_dir", "/tmp/adr-samples-4-tests")
        .unwrap();
    assert_eq!(cfg.adr_search_index, "/tmp/adr-samples-4-tests/.index");
    assert_eq!(cfg.adr_template_dir, "/tmp/adr-samples-4-tests/templates");
    assert_eq!(cfg.adr_template_file, "adr-template-v0.1.adoc");
}

#[test]
fn test_set_config_adr_template_file() {
    let cfg = AdrToolConfig::default()
        .with_setting("adr_template_file", "new-template.adoc")
        .unwrap();
    assert_eq!(cfg.adr_template_file, "new-template.adoc");
}

#[test]
fn test_set_config_adr_src_dir() {
    let cfg = AdrToolConfig::default()
        .with_setting("adr_src_dir", "/tmp/does-not-exists/src")
        .unwrap();
    assert_eq!(cfg.adr_src_dir, "/tmp/does-not-exists/src");
    assert_eq!(cfg.adr_template_file, "adr-template-v0.1.adoc");
    assert_eq!(cfg.adr_template_dir, "/tmp/adr-samples/templates");
}
