use gonfig::compose::{load, ConfigSpec, FieldSpec, Sources};
use gonfig::tree::{MergeStrategy, Value};

fn tls_config() -> ConfigSpec {
    ConfigSpec::new("TLS")
        .field(FieldSpec::new("enabled").with_default("true"))
        .field(FieldSpec::new("cert_path").with_default("./certs/cert.pem"))
}

fn http_config() -> ConfigSpec {
    ConfigSpec::new("HTTP")
        .field(FieldSpec::new("port").with_default("8080"))
        .field(FieldSpec::nested_type("tls", tls_config()))
}

fn app_with_deep_nesting() -> ConfigSpec {
    ConfigSpec::new("APP")
        .field(FieldSpec::nested_type("http", http_config()))
        .field(FieldSpec::new("name").with_default("app"))
}

fn service_config() -> ConfigSpec {
    let cache = ConfigSpec::new("CACHE")
        .field(FieldSpec::new("driver").with_default("redis"))
        .field(FieldSpec::new("host").with_default("localhost:6379"));
    let queue = ConfigSpec::new("QUEUE").field(FieldSpec::new("driver").with_default("rabbitmq"));
    ConfigSpec::new("SERVICE")
        .field(FieldSpec::nested_type("http", http_config()))
        .field(FieldSpec::nested_type("cache", cache))
        .field(FieldSpec::nested_type("queue", queue))
        .field(FieldSpec::new("service_name").with_default("service-1"))
}

fn empty_sources_cs() -> Sources {
    Sources { vars: Vec::new(), files: Vec::new(), cli: Vec::new(), strategy: MergeStrategy::Deep }
}

fn at_cs<'a>(t: &'a Value, p: &[&str]) -> Option<&'a Value> {
    t.get(&p.iter().map(|s| s.to_string()).collect())
}

#[test]
fn test_deep_nesting() {
    let config = load(&app_with_deep_nesting(), &empty_sources_cs());
    assert!(config.is_ok(), "Should handle deep nesting: {:?}", config.err());
    let config = config.unwrap();
    assert_eq!(at_cs(&config, &["http", "port"]), Some(&Value::Int(8080)));
    assert_eq!(at_cs(&config, &["http", "tls", "enabled"]), Some(&Value::Bool(true)));
    assert_eq!(
        at_cs(&config, &["http", "tls", "cert_path"]),
        Some(&Value::Str("./certs/cert.pem".to_string()))
    );
    assert_eq!(at_cs(&config, &["name"]), Some(&Value::Str("app".to_string())));
}

#[test]
fn test_multiple_nested_at_same_level() {
    let config = load(&service_config(), &empty_sources_cs());
    assert!(config.is_ok(), "Should handle multiple nested fields: {:?}", config.err());
    let config = config.unwrap();
    assert_eq!(at_cs(&config, &["http", "port"]), Some(&Value::Int(8080)));
    assert_eq!(at_cs(&config, &["cache", "driver"]), Some(&Value::Str("redis".to_string())));
    assert_eq!(at_cs(&config, &["cache", "host"]), Some(&Value::Str("localhost:6379".to_string())));
    assert_eq!(at_cs(&config, &["queue", "driver"]), Some(&Value::Str("rabbitmq".to_string())));
    assert_eq!(at_cs(&config, &["service_name"]), Some(&Value::Str("service-1".to_string())));
}
