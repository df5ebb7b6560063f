use gonfig::compose::{
    compose_prefix, default_value, load, load_validated, resolve, ConfigError, ConfigSpec, FieldSpec, Sources,
    MAX_NESTING,
};
use gonfig::tree::{MergeStrategy, Value};

fn sources_r(vars: &[(&str, &str)], files: Vec<Value>, cli: &[(&str, &str)]) -> Sources {
    let pairs = |p: &[(&str, &str)]| p.iter().map(|(k, v)| (k.to_string(), v.to_string())).collect();
    Sources { vars: pairs(vars), files, cli: pairs(cli), strategy: MergeStrategy::Deep }
}

fn at_r<'a>(t: &'a Value, p: &[&str]) -> Option<&'a Value> {
    t.get(&p.iter().map(|s| s.to_string()).collect())
}

fn port_spec() -> ConfigSpec {
    ConfigSpec::new("APP")
        .field(FieldSpec::new("port").with_default("8080"))
        .field(FieldSpec::new("max_connections").with_default("5"))
}

#[test]
fn prefixes_compose_with_the_separator() {
    assert_eq!(compose_prefix("TRADESMITH", "SERVER", "_"), "TRADESMITH_SERVER");
    assert_eq!(compose_prefix("", "SERVER", "_"), "SERVER");
    assert_eq!(compose_prefix("TRADESMITH", "", "_"), "TRADESMITH");
    assert_eq!(compose_prefix("", "", "_"), "");
}

#[test]
fn default_applies_only_without_a_higher_source() {
    let unset = load(&port_spec(), &sources_r(&[], Vec::new(), &[])).unwrap();
    assert_eq!(at_r(&unset, &["port"]), Some(&Value::Int(8080)));
    let set = load(&port_spec(), &sources_r(&[("APP_PORT", "9")], Vec::new(), &[])).unwrap();
    assert_eq!(at_r(&set, &["port"]), Some(&Value::Int(9)));
    assert_eq!(at_r(&set, &["max_connections"]), Some(&Value::Int(5)));
}

#[test]
fn precedence_runs_default_file_environment_command_line() {
    let mut file = Value::empty_object();
    file.set(&vec!["port".to_string()], Value::Int(1));
    file.set(&vec!["max_connections".to_string()], Value::Int(2));
    let src = sources_r(&[("APP_PORT", "3")], vec![file], &[("max-connections", "4")]);
    let t = load(&port_spec(), &src).unwrap();
    assert_eq!(at_r(&t, &["port"]), Some(&Value::Int(3)));
    assert_eq!(at_r(&t, &["max_connections"]), Some(&Value::Int(4)));
}

#[test]
fn explicit_names_replace_derived_ones() {
    let spec = ConfigSpec::new("APP")
        .field(FieldSpec::new("level").with_env_name("LOG_LEVEL").with_cli_name("lvl"));
    let t = load(&spec, &sources_r(&[("LOG_LEVEL", "debug"), ("APP_LEVEL", "no")], Vec::new(), &[])).unwrap();
    assert_eq!(at_r(&t, &["level"]), Some(&Value::Str("debug".to_string())));
    let t = load(&spec, &sources_r(&[("LOG_LEVEL", "debug")], Vec::new(), &[("lvl", "trace")])).unwrap();
    assert_eq!(at_r(&t, &["level"]), Some(&Value::Str("trace".to_string())));
}

#[test]
fn default_literals_are_json_or_text() {
    assert_eq!(default_value("8080"), Value::Int(8080));
    assert_eq!(default_value("127.0.0.1"), Value::Str("127.0.0.1".to_string()));
    assert_eq!(default_value("true"), Value::Bool(true));
}

#[test]
fn too_deep_nesting_is_a_configuration_error() {
    let mut spec = ConfigSpec::new("L").field(FieldSpec::new("leaf").with_default("1"));
    for _ in 0..MAX_NESTING {
        spec = ConfigSpec::new("L").field(FieldSpec::nested_type("inner", spec));
    }
    assert!(resolve(&spec, "", &sources_r(&[], Vec::new(), &[])).is_ok());
    let deeper = ConfigSpec::new("L").field(FieldSpec::nested_type("inner", spec));
    assert!(matches!(
        resolve(&deeper, "", &sources_r(&[], Vec::new(), &[])),
        Err(ConfigError::Configuration(_))
    ));
}

#[test]
fn nested_types_resolve_under_the_parent_prefix() {
    let child = ConfigSpec::new("DB").field(FieldSpec::new("url").with_default("none"));
    let spec = ConfigSpec::new("").field(FieldSpec::nested_type("db", child));
    let t = resolve(&spec, "SVC", &sources_r(&[("SVC_DB_URL", "pg"), ("DB_URL", "no")], Vec::new(), &[])).unwrap();
    assert_eq!(at_r(&t, &["db", "url"]), Some(&Value::Str("pg".to_string())));
}

#[test]
fn nested_types_read_their_own_part_of_each_file() {
    let child = ConfigSpec::new("SERVER").field(FieldSpec::new("port").with_default("8080"));
    let spec = ConfigSpec::new("APP")
        .field(FieldSpec::nested_type("server", child))
        .field(FieldSpec::new("port").with_default("1"));
    let mut file = Value::empty_object();
    file.set(&vec!["server".to_string(), "port".to_string()], Value::Int(3000));
    file.set(&vec!["port".to_string()], Value::Int(99));
    let t = load(&spec, &sources_r(&[], vec![file], &[])).unwrap();
    assert_eq!(at_r(&t, &["server", "port"]), Some(&Value::Int(3000)));
    assert_eq!(at_r(&t, &["server", "server"]), None);
    assert_eq!(at_r(&t, &["port"]), Some(&Value::Int(99)));
    let env = sources_r(&[("APP_SERVER_PORT", "7")], Vec::new(), &[]);
    let t = load(&spec, &env).unwrap();
    assert_eq!(at_r(&t, &["server", "port"]), Some(&Value::Int(7)));
}

#[test]
fn validation_sees_the_merged_tree_once() {
    let calls = std::cell::Cell::new(0);
    let ok = load_validated(&port_spec(), &sources_r(&[("APP_PORT", "9")], Vec::new(), &[]), |v: &Value| {
        calls.set(calls.get() + 1);
        if v.get(&vec!["port".to_string()]) == Some(&Value::Int(9)) {
            Ok(())
        } else {
            Err("port".to_string())
        }
    });
    assert_eq!(calls.get(), 1);
    assert!(ok.is_ok());
    let rejected = load_validated(&port_spec(), &sources_r(&[], Vec::new(), &[]), |_: &Value| {
        Err("rejected".to_string())
    });
    assert_eq!(rejected, Err(ConfigError::Validation("rejected".to_string())));
}
