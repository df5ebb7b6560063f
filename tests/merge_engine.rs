use gonfig::tree::{merge, merge_all, MergeStrategy, Value};

fn keys(p: &[&str]) -> Vec<String> {
    p.iter().map(|s| s.to_string()).collect()
}

fn tree(items: &[(&[&str], Value)]) -> Value {
    let mut t = Value::empty_object();
    for (p, v) in items {
        t.set(&keys(p), v.duplicate());
    }
    t
}

#[test]
fn deep_merge_recurses_into_objects() {
    let base = tree(&[(&["a", "x"], Value::Int(1)), (&["a", "y"], Value::Int(2)), (&["b"], Value::Int(1))]);
    let top = tree(&[(&["a", "y"], Value::Int(3)), (&["a", "z"], Value::Int(4))]);
    let r = merge(base, top, MergeStrategy::Deep);
    let expected = tree(&[
        (&["a", "x"], Value::Int(1)),
        (&["a", "y"], Value::Int(3)),
        (&["a", "z"], Value::Int(4)),
        (&["b"], Value::Int(1)),
    ]);
    assert_eq!(r, expected);
}

#[test]
fn shallow_merge_replaces_top_level_keys() {
    let base = tree(&[(&["a", "x"], Value::Int(1)), (&["b"], Value::Int(1))]);
    let top = tree(&[(&["a", "y"], Value::Int(3))]);
    let r = merge(base, top, MergeStrategy::Shallow);
    let expected = tree(&[(&["a", "y"], Value::Int(3)), (&["b"], Value::Int(1))]);
    assert_eq!(r, expected);
}

#[test]
fn arrays_are_replaced_whole() {
    let base = tree(&[(&["l"], Value::Array(vec![Value::Int(1), Value::Int(2)]))]);
    let top = tree(&[(&["l"], Value::Array(vec![Value::Int(3)]))]);
    let r = merge(base, top, MergeStrategy::Deep);
    assert_eq!(r.get(&keys(&["l"])), Some(&Value::Array(vec![Value::Int(3)])));
}

#[test]
fn object_and_scalar_replace_each_other() {
    let r = merge(
        tree(&[(&["a", "x"], Value::Int(1))]),
        tree(&[(&["a"], Value::Int(5))]),
        MergeStrategy::Deep,
    );
    assert_eq!(r.get(&keys(&["a"])), Some(&Value::Int(5)));
    let r = merge(
        tree(&[(&["a"], Value::Int(5))]),
        tree(&[(&["a", "x"], Value::Int(1))]),
        MergeStrategy::Deep,
    );
    assert_eq!(r.get(&keys(&["a", "x"])), Some(&Value::Int(1)));
    assert_eq!(merge(Value::Int(1), Value::Null, MergeStrategy::Deep), Value::Null);
}

#[test]
fn merging_nothing_gives_an_empty_object() {
    assert_eq!(merge_all(Vec::new(), MergeStrategy::Deep), Value::Object(Vec::new()));
}

#[test]
fn merging_a_tree_with_itself_keeps_it() {
    let t = tree(&[(&["a", "x"], Value::Int(1)), (&["b"], Value::Str("s".to_string()))]);
    for s in [MergeStrategy::Deep, MergeStrategy::Shallow] {
        assert_eq!(merge(t.duplicate(), t.duplicate(), s), t);
    }
}

#[test]
fn merging_a_prefix_first_gives_the_same_tree() {
    let ts = || {
        vec![
            tree(&[(&["a", "x"], Value::Int(1))]),
            tree(&[(&["a", "y"], Value::Int(2)), (&["b"], Value::Int(0))]),
            tree(&[(&["a", "x"], Value::Int(9))]),
        ]
    };
    let all = merge_all(ts(), MergeStrategy::Deep);
    let mut v = ts();
    let rest = v.split_off(2);
    let mut staged = vec![merge_all(v, MergeStrategy::Deep)];
    staged.extend(rest);
    assert_eq!(merge_all(staged, MergeStrategy::Deep), all);
}

#[test]
fn set_replaces_a_scalar_on_the_way() {
    let mut t = tree(&[(&["a"], Value::Int(5))]);
    t.set(&keys(&["a", "b"]), Value::Int(1));
    assert_eq!(t, tree(&[(&["a", "b"], Value::Int(1))]));
    let before = t.duplicate();
    t.set(&Vec::new(), Value::Null);
    assert_eq!(t, before);
    assert_eq!(t.get(&keys(&["a", "c"])), None);
    assert_eq!(t.get(&keys(&["a", "b", "c"])), None);
}

#[test]
fn objects_compare_as_maps() {
    let ab = Value::Object(vec![("a".to_string(), Value::Int(1)), ("b".to_string(), Value::Int(2))]);
    let ba = Value::Object(vec![("b".to_string(), Value::Int(2)), ("a".to_string(), Value::Int(1))]);
    assert_eq!(ab, ba);
    let other = Value::Object(vec![("a".to_string(), Value::Int(1)), ("b".to_string(), Value::Int(3))]);
    assert_ne!(ab, other);
    let fewer = Value::Object(vec![("a".to_string(), Value::Int(1))]);
    assert_ne!(ab, fewer);
    assert_ne!(fewer, ab);
    assert_ne!(Value::Array(vec![Value::Int(1)]), Value::Array(vec![Value::Int(1), Value::Int(1)]));
    assert_ne!(Value::Int(1), Value::Str("1".to_string()));
}

#[test]
fn storing_an_existing_value_changes_nothing() {
    let mut t = tree(&[(&["a", "b"], Value::Int(1)), (&["c"], Value::Bool(true))]);
    let before = t.duplicate();
    t.set(&keys(&["a", "b"]), Value::Int(1));
    assert_eq!(t, before);
}
