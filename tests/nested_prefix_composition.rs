use gonfig::compose::{load, ConfigSpec, FieldSpec, Sources};
use gonfig::tree::{MergeStrategy, Value};

fn server_config() -> ConfigSpec {
    ConfigSpec::new("SERVER")
        .field(FieldSpec::new("host").with_default("127.0.0.1"))
        .field(FieldSpec::new("port").with_default("8080"))
}

fn database_config() -> ConfigSpec {
    ConfigSpec::new("DATABASE").field(FieldSpec::new("url").with_default("sqlite:./data.db"))
}

fn tradesmith_config() -> ConfigSpec {
    ConfigSpec::new("TRADESMITH")
        .field(FieldSpec::nested_type("server", server_config()))
        .field(FieldSpec::nested_type("database", database_config()))
        .field(FieldSpec::new("environment").with_default("production"))
}

fn sources_pc(pairs: &[(&str, &str)]) -> Sources {
    Sources {
        vars: pairs.iter().map(|(k, v)| (k.to_string(), v.to_string())).collect(),
        files: Vec::new(),
        cli: Vec::new(),
        strategy: MergeStrategy::Deep,
    }
}

fn at_pc<'a>(t: &'a Value, p: &[&str]) -> Option<&'a Value> {
    t.get(&p.iter().map(|s| s.to_string()).collect())
}

#[test]
fn test_prefix_composition() {
    let src = sources_pc(&[
        ("TRADESMITH_SERVER_HOST", "0.0.0.0"),
        ("TRADESMITH_SERVER_PORT", "9000"),
        ("TRADESMITH_DATABASE_URL", "postgres://db"),
        ("TRADESMITH_ENVIRONMENT", "staging"),
    ]);
    let config = load(&tradesmith_config(), &src);
    assert!(config.is_ok(), "Should load with composed prefixes: {:?}", config.err());
    let config = config.unwrap();
    assert_eq!(
        at_pc(&config, &["server", "host"]),
        Some(&Value::Str("0.0.0.0".to_string())),
        "Should use TRADESMITH_SERVER_HOST"
    );
    assert_eq!(
        at_pc(&config, &["server", "port"]),
        Some(&Value::Int(9000)),
        "Should use TRADESMITH_SERVER_PORT"
    );
    assert_eq!(
        at_pc(&config, &["database", "url"]),
        Some(&Value::Str("postgres://db".to_string())),
        "Should use TRADESMITH_DATABASE_URL"
    );
    assert_eq!(
        at_pc(&config, &["environment"]),
        Some(&Value::Str("staging".to_string())),
        "Should use TRADESMITH_ENVIRONMENT"
    );
}

#[test]
fn test_nested_without_parent_prefix_fails() {
    let src = sources_pc(&[("SERVER_HOST", "wrong.example.com")]);
    let config = load(&tradesmith_config(), &src).expect("Should load");
    assert_eq!(
        at_pc(&config, &["server", "host"]),
        Some(&Value::Str("127.0.0.1".to_string())),
        "Should ignore SERVER_HOST, require TRADESMITH_SERVER_HOST"
    );
}

#[test]
fn test_composed_prefix_takes_precedence() {
    let src = sources_pc(&[("TRADESMITH_SERVER_PORT", "9999"), ("SERVER_PORT", "7777")]);
    let config = load(&tradesmith_config(), &src).expect("Should load");
    assert_eq!(
        at_pc(&config, &["server", "port"]),
        Some(&Value::Int(9999)),
        "Composed prefix TRADESMITH_SERVER_PORT should be used"
    );
}
