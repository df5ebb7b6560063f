use gonfig::environment::Environment;
use gonfig::tree::{merge_all, MergeStrategy, Value};

fn path18(p: &[&str]) -> Vec<String> {
    p.iter().map(|s| s.to_string()).collect()
}

fn vars18(pairs: &[(&str, &str)]) -> Vec<(String, String)> {
    pairs.iter().map(|(k, v)| (k.to_string(), v.to_string())).collect()
}

fn put18(t: &mut Value, p: &[&str], v: Value) {
    t.set(&path18(p), v);
}

/// The tree that the YAML configuration file of these scenarios decodes to.
fn file_tree18() -> Value {
    let mut t = Value::empty_object();
    put18(&mut t, &["service", "name"], Value::Str("TestApp".to_string()));
    put18(&mut t, &["service", "version"], Value::Str("1.0.0".to_string()));
    put18(&mut t, &["http", "host"], Value::Str("127.0.0.1".to_string()));
    put18(&mut t, &["http", "port"], Value::Int(3000));
    put18(&mut t, &["http", "timeout"], Value::Int(30));
    put18(&mut t, &["database", "host"], Value::Str("localhost".to_string()));
    put18(&mut t, &["database", "port"], Value::Int(5432));
    put18(&mut t, &["database", "name"], Value::Str("prod_db".to_string()));
    put18(&mut t, &["database", "pool", "minsize"], Value::Int(5));
    put18(&mut t, &["database", "pool", "maxsize"], Value::Int(20));
    t
}

fn build18(vars: &[(&str, &str)], nested: bool) -> Value {
    let env = Environment::new().with_prefix("APP").nested(nested);
    let env_tree = env.collect(&vars18(vars));
    merge_all(vec![file_tree18(), env_tree], MergeStrategy::Deep)
}

fn at18<'a>(t: &'a Value, p: &[&str]) -> Option<&'a Value> {
    t.get(&path18(p))
}

#[test]
fn test_issue_18_basic_nested_override() {
    let config = build18(&[("APP_HTTP_PORT", "9000"), ("APP_DATABASE_NAME", "test_db")], true);
    assert_eq!(
        at18(&config, &["http", "port"]),
        Some(&Value::Int(9000)),
        "HTTP port should be overridden by env var"
    );
    assert_eq!(
        at18(&config, &["database", "name"]),
        Some(&Value::Str("test_db".to_string())),
        "Database name should be overridden by env var"
    );
    assert_eq!(at18(&config, &["http", "host"]), Some(&Value::Str("127.0.0.1".to_string())));
    assert_eq!(at18(&config, &["http", "timeout"]), Some(&Value::Int(30)));
    assert_eq!(at18(&config, &["service", "name"]), Some(&Value::Str("TestApp".to_string())));
}

#[test]
fn test_issue_18_deep_nested_override() {
    let config = build18(&[("APP_DATABASE_POOL_MAXSIZE", "100")], true);
    assert_eq!(
        at18(&config, &["database", "pool", "maxsize"]),
        Some(&Value::Int(100)),
        "Deeply nested pool maxsize should be overridden"
    );
    assert_eq!(
        at18(&config, &["database", "pool", "minsize"]),
        Some(&Value::Int(5)),
        "Non-overridden nested value should remain"
    );
}

#[test]
fn test_issue_18_multiple_nested_overrides() {
    let config = build18(
        &[
            ("APP_SERVICE_VERSION", "2.0.0"),
            ("APP_HTTP_PORT", "8080"),
            ("APP_HTTP_TIMEOUT", "60"),
            ("APP_DATABASE_HOST", "db.example.com"),
            ("APP_DATABASE_POOL_MINSIZE", "10"),
            ("APP_DATABASE_POOL_MAXSIZE", "50"),
        ],
        true,
    );
    assert_eq!(at18(&config, &["service", "version"]), Some(&Value::Str("2.0.0".to_string())));
    assert_eq!(at18(&config, &["http", "port"]), Some(&Value::Int(8080)));
    assert_eq!(at18(&config, &["http", "timeout"]), Some(&Value::Int(60)));
    assert_eq!(at18(&config, &["database", "host"]), Some(&Value::Str("db.example.com".to_string())));
    assert_eq!(at18(&config, &["database", "pool", "minsize"]), Some(&Value::Int(10)));
    assert_eq!(at18(&config, &["database", "pool", "maxsize"]), Some(&Value::Int(50)));
    assert_eq!(at18(&config, &["service", "name"]), Some(&Value::Str("TestApp".to_string())));
    assert_eq!(at18(&config, &["http", "host"]), Some(&Value::Str("127.0.0.1".to_string())));
}

#[test]
fn test_issue_18_backward_compatibility() {
    let config = build18(&[("APP_HTTP_PORT", "9000")], false);
    assert_eq!(
        at18(&config, &["http", "port"]),
        Some(&Value::Int(3000)),
        "Port should remain from file when nested=false"
    );
}
