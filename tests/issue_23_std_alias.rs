use gonfig::compose::{load, ConfigSpec, FieldSpec, Sources};
use gonfig::tree::{MergeStrategy, Value};

fn empty_sources_sa() -> Sources {
    Sources { vars: Vec::new(), files: Vec::new(), cli: Vec::new(), strategy: MergeStrategy::Deep }
}

fn at_sa<'a>(t: &'a Value, k: &str) -> Option<&'a Value> {
    t.get(&vec![k.to_string()])
}

#[test]
fn test_std_alias_basic_with_config() {
    let spec = ConfigSpec::new("STD_ALIAS_TEST")
        .field(FieldSpec::new("field").with_default("test_value"))
        .field(FieldSpec::new("number").with_default("42"));
    let config = load(&spec, &empty_sources_sa());
    assert!(config.is_ok(), "Should compile with std alias");
    let config = config.unwrap();
    assert_eq!(at_sa(&config, "field"), Some(&Value::Str("test_value".to_string())));
    assert_eq!(at_sa(&config, "number"), Some(&Value::Int(42)));
}

#[test]
fn test_std_alias_with_option_types() {
    let spec = ConfigSpec::new("OPT")
        .field(FieldSpec::new("optional_field").with_default("null"))
        .field(FieldSpec::new("list_field").with_default(r#"["item1","item2"]"#));
    let config = load(&spec, &empty_sources_sa());
    assert!(config.is_ok(), "Should compile with std alias and Option/Vec types");
    let config = config.unwrap();
    assert_eq!(at_sa(&config, "optional_field"), Some(&Value::Null));
    assert_eq!(
        at_sa(&config, "list_field"),
        Some(&Value::Array(vec![
            Value::Str("item1".to_string()),
            Value::Str("item2".to_string())
        ]))
    );
}
