use gonfig::compose::{load, ConfigSpec, FieldSpec, Sources};
use gonfig::tree::{MergeStrategy, Value};

fn server_config_na() -> ConfigSpec {
    ConfigSpec::new("SERVER")
        .field(FieldSpec::new("host").with_default("127.0.0.1"))
        .field(FieldSpec::new("port").with_default("3000"))
}

fn app_config_na() -> ConfigSpec {
    ConfigSpec::new("APP")
        .field(FieldSpec::nested_type("server", server_config_na()))
        .field(FieldSpec::new("environment").with_default("production"))
}

fn empty_sources_na() -> Sources {
    Sources { vars: Vec::new(), files: Vec::new(), cli: Vec::new(), strategy: MergeStrategy::Deep }
}

fn at_na<'a>(t: &'a Value, p: &[&str]) -> Option<&'a Value> {
    t.get(&p.iter().map(|s| s.to_string()).collect())
}

#[test]
fn test_nested_attribute_compiles_with_core_alias() {
    let server = load(&server_config_na(), &empty_sources_na());
    assert!(server.is_ok(), "Nested struct should load successfully");
    let server = server.unwrap();
    assert_eq!(at_na(&server, &["host"]), Some(&Value::Str("127.0.0.1".to_string())));
    assert_eq!(at_na(&server, &["port"]), Some(&Value::Int(3000)));
}

#[test]
fn test_automatic_nested_loading_with_core_alias() {
    let config = load(&app_config_na(), &empty_sources_na());
    assert!(
        config.is_ok(),
        "Config with nested fields should load automatically: {:?}",
        config.err()
    );
    let config = config.unwrap();
    assert_eq!(at_na(&config, &["server", "host"]), Some(&Value::Str("127.0.0.1".to_string())));
    assert_eq!(at_na(&config, &["server", "port"]), Some(&Value::Int(3000)));
    assert_eq!(at_na(&config, &["environment"]), Some(&Value::Str("production".to_string())));
}
