use gonfig::compose::{load, source_for, ConfigSpec, FieldSpec, Sources};
use gonfig::tree::{MergeStrategy, Value};

fn full_featured_config() -> ConfigSpec {
    ConfigSpec::new("BOTH_ALIAS")
        .field(FieldSpec::new("hostname").with_default("localhost"))
        .field(FieldSpec::new("port").with_default("8080"))
        .field(FieldSpec::new("log_level").with_default("info").with_env_name("LOG_LEVEL"))
}

fn database_config_ba() -> ConfigSpec {
    ConfigSpec::new("DATABASE")
        .field(FieldSpec::new("url").with_default("postgres://localhost/mydb"))
        .field(FieldSpec::new("max_connections").with_default("10"))
        .field(FieldSpec::new("timeout_seconds").with_default("30"))
}

fn app_config_with_skip() -> ConfigSpec {
    ConfigSpec::new("APP")
        .field(FieldSpec::new("environment").with_default("production"))
        .field(FieldSpec::new("runtime_data").skipped())
}

fn empty_sources_ba() -> Sources {
    Sources { vars: Vec::new(), files: Vec::new(), cli: Vec::new(), strategy: MergeStrategy::Deep }
}

fn at_ba<'a>(t: &'a Value, k: &str) -> Option<&'a Value> {
    t.get(&vec![k.to_string()])
}

#[test]
fn test_both_aliases_all_features() {
    let config = load(&full_featured_config(), &empty_sources_ba());
    assert!(config.is_ok(), "Should compile and run with both std and core aliased");
    let config = config.unwrap();
    assert_eq!(at_ba(&config, "hostname"), Some(&Value::Str("localhost".to_string())));
    assert_eq!(at_ba(&config, "port"), Some(&Value::Int(8080)));
    assert_eq!(at_ba(&config, "log_level"), Some(&Value::Str("info".to_string())));
}

#[test]
fn test_both_aliases_nested_config() {
    let config = load(&database_config_ba(), &empty_sources_ba());
    assert!(config.is_ok(), "Nested config should work with both aliases");
    let config = config.unwrap();
    assert_eq!(at_ba(&config, "url"), Some(&Value::Str("postgres://localhost/mydb".to_string())));
    assert_eq!(at_ba(&config, "max_connections"), Some(&Value::Int(10)));
    assert_eq!(at_ba(&config, "timeout_seconds"), Some(&Value::Int(30)));
}

#[test]
fn test_both_aliases_with_skip() {
    let config = load(&app_config_with_skip(), &empty_sources_ba());
    assert!(config.is_ok(), "Config with skip should work with aliases");
    let config = config.unwrap();
    assert_eq!(at_ba(&config, "environment"), Some(&Value::Str("production".to_string())));
    assert_eq!(at_ba(&config, "runtime_data"), None);
}

#[test]
fn test_builder_pattern_with_aliases() {
    let spec = full_featured_config();
    let env = source_for(&spec, "BOTH_ALIAS");
    assert_eq!(env.prefix, Some("BOTH_ALIAS".to_string()));
    let config = load(&spec, &empty_sources_ba());
    assert!(config.is_ok(), "Builder pattern should work with aliases");
}
