use gonfig::environment::{Environment, Source};
use gonfig::tree::Value;

fn env_vars(pairs: &[(&str, &str)]) -> Vec<(String, String)> {
    pairs.iter().map(|(k, v)| (k.to_string(), v.to_string())).collect()
}

fn at_env<'a>(t: &'a Value, p: &[&str]) -> Option<&'a Value> {
    t.get(&p.iter().map(|s| s.to_string()).collect())
}

#[test]
fn env_key_joins_prefix_and_field_upper_cased() {
    let path = vec!["database_url".to_string()];
    assert_eq!(Environment::new().with_prefix("app").build_env_key(&path), "APP_DATABASE_URL");
    assert_eq!(
        Environment::new().with_prefix("app").case_sensitive(true).build_env_key(&path),
        "app_database_url"
    );
    assert_eq!(
        Environment::new().with_prefix("APP").separator("__").build_env_key(&path),
        "APP__DATABASE_URL"
    );
    assert_eq!(Environment::new().build_env_key(&path), "DATABASE_URL");
}

#[test]
fn override_wins_over_environment() {
    let env = Environment::new().with_prefix("APP").override_with("APP_PORT", "1");
    let vars = env_vars(&[("APP_PORT", "2"), ("APP_HOST", "h")]);
    assert_eq!(env.get_value("port", &vars), Some(Value::Int(1)));
    assert_eq!(env.get_value("host", &vars), Some(Value::Str("h".to_string())));
    assert_eq!(env.get_value("missing", &vars), None);
    assert!(env.has_value("port", &Vec::new()));
    assert!(!env.has_value("host", &Vec::new()));
    let later = env.override_with("APP_PORT", "3");
    assert_eq!(later.overrides.len(), 1);
    assert_eq!(later.get_value("port", &vars), Some(Value::Int(3)));
}

#[test]
fn flat_mode_keeps_one_lower_case_key() {
    let env = Environment::new().with_prefix("APP");
    let t = env.collect(&env_vars(&[("APP_HTTP_PORT", "9000"), ("OTHER", "x")]));
    assert_eq!(t, Value::Object(vec![("http_port".to_string(), Value::Int(9000))]));
}

#[test]
fn prefix_must_be_followed_by_the_separator() {
    let env = Environment::new().with_prefix("APP");
    let t = env.collect(&env_vars(&[("APPLE", "1"), ("APP_X", "2")]));
    assert_eq!(t, Value::Object(vec![("x".to_string(), Value::Int(2))]));
}

#[test]
fn only_one_separator_is_stripped() {
    let env = Environment::new().with_prefix("APP");
    let t = env.collect(&env_vars(&[("APP__X", "1")]));
    assert_eq!(t, Value::Object(vec![("_x".to_string(), Value::Int(1))]));
}

#[test]
fn without_prefix_every_variable_counts() {
    let t = Environment::new().collect(&env_vars(&[("Home", "/h"), ("N", "3")]));
    assert_eq!(
        t,
        Value::Object(vec![
            ("home".to_string(), Value::Str("/h".to_string())),
            ("n".to_string(), Value::Int(3)),
        ])
    );
}

#[test]
fn case_sensitive_prefix_matches_exactly() {
    let env = Environment::new().with_prefix("app").case_sensitive(true);
    let t = env.collect(&env_vars(&[("app_x", "1"), ("APP_Y", "2")]));
    assert_eq!(t, Value::Object(vec![("x".to_string(), Value::Int(1))]));
}

#[test]
fn overrides_apply_after_the_scan() {
    let env = Environment::new().with_prefix("APP").override_with("APP_DEBUG", "true");
    let t = env.collect(&env_vars(&[("APP_DEBUG", "false"), ("APP_LEVEL", "2")]));
    assert_eq!(
        t,
        Value::Object(vec![
            ("debug".to_string(), Value::Bool(true)),
            ("level".to_string(), Value::Int(2)),
        ])
    );
}

#[test]
fn nested_mode_splits_on_the_raw_separator() {
    let env = Environment::new().with_prefix("APP").separator("__").nested(true);
    let t = env.collect(&env_vars(&[("APP__DB__HOST", "h"), ("APP__DB_NAME", "n")]));
    assert_eq!(at_env(&t, &["db", "host"]), Some(&Value::Str("h".to_string())));
    assert_eq!(at_env(&t, &["db_name"]), Some(&Value::Str("n".to_string())));
}

#[test]
fn nested_tree_flattens_back_to_the_variable_names() {
    let names = ["APP_DATABASE_POOL_MAXSIZE", "APP_HTTP_PORT", "APP_NAME"];
    let vars = env_vars(&[(names[0], "100"), (names[1], "9000"), (names[2], "svc")]);
    let t = Environment::new().with_prefix("APP").nested(true).collect(&vars);
    fn walk(v: &Value, path: &mut Vec<String>, out: &mut Vec<String>) {
        match v {
            Value::Object(entries) => {
                for (k, x) in entries {
                    path.push(k.clone());
                    walk(x, path, out);
                    path.pop();
                }
            }
            _ => out.push(format!("APP_{}", path.join("_")).to_uppercase()),
        }
    }
    let mut out = Vec::new();
    walk(&t, &mut Vec::new(), &mut out);
    out.sort();
    assert_eq!(out, names.iter().map(|s| s.to_string()).collect::<Vec<_>>());
}

#[test]
fn field_mappings_read_exact_names_first() {
    let env = Environment::new()
        .with_prefix("APP")
        .with_field_mapping("db_url", "CUSTOM_DB")
        .with_field_mapping("x2", "APP_X");
    let t = env.collect(&env_vars(&[("CUSTOM_DB", "pg"), ("APP_X", "5"), ("APP_OTHER", "1"), ("APP_DB_URL", "no")]));
    assert_eq!(
        t,
        Value::Object(vec![
            ("db_url".to_string(), Value::Str("pg".to_string())),
            ("x2".to_string(), Value::Int(5)),
            ("other".to_string(), Value::Int(1)),
        ])
    );
}

#[test]
fn struct_fields_read_prefixed_names() {
    let env = Environment::new().with_prefix("app");
    let fields = vec![("host".to_string(), None), ("port".to_string(), Some("PORT_OVERRIDE".to_string()))];
    let r = env.collect_for_struct("server", &fields, &env_vars(&[("APP_SERVER_HOST", "h"), ("PORT_OVERRIDE", "80")]));
    assert_eq!(
        r,
        vec![("host".to_string(), Value::Str("h".to_string())), ("port".to_string(), Value::Int(80))]
    );
    let bare = Environment::new().collect_for_struct("server", &fields, &env_vars(&[("SERVER_HOST", "b")]));
    assert_eq!(bare, vec![("host".to_string(), Value::Str("b".to_string()))]);
}

#[test]
fn the_source_reports_its_kind() {
    assert_eq!(Environment::new().source_type(), Source::Environment);
}

#[test]
fn mapped_field_is_read_from_its_exact_name() {
    let env = Environment::new().with_prefix("APP").with_field_mapping("port", "CUSTOM_PORT");
    let vars = env_vars(&[("CUSTOM_PORT", "1"), ("APP_PORT", "2")]);
    assert_eq!(env.get_value("port", &vars), Some(Value::Int(1)));
    assert!(env.has_value("port", &vars));
    assert!(!env.has_value("port", &env_vars(&[("APP_PORT", "2")])));
    let overridden = env.override_with("CUSTOM_PORT", "3");
    assert_eq!(overridden.get_value("port", &vars), Some(Value::Int(3)));
    assert_eq!(overridden.get_value("host", &env_vars(&[("APP_HOST", "h")])), Some(Value::Str("h".to_string())));
}

#[test]
fn prefix_and_separator_are_normalized_together() {
    let env = Environment::new().with_prefix("app").separator("x");
    let t = env.collect(&env_vars(&[("APPXPORT", "1"), ("APPxHOST", "h")]));
    assert_eq!(
        t,
        Value::Object(vec![
            ("port".to_string(), Value::Int(1)),
            ("host".to_string(), Value::Str("h".to_string())),
        ])
    );
}
