use edgeproxy::config::merge::{merge_documents, merge_values, yaml_eq, YamlNumber, YamlValue};

fn s(x: &str) -> YamlValue {
    YamlValue::Str(x.to_string())
}

fn n(x: u64) -> YamlValue {
    YamlValue::Number(YamlNumber::PosInt(x))
}

fn map(entries: Vec<(&str, YamlValue)>) -> YamlValue {
    YamlValue::Mapping(entries.into_iter().map(|(k, v)| (s(k), v)).collect())
}

#[test]
fn scalars_right_wins_maps_recurse() {
    // a: 1 / nested: {x: 1, y: 2}   merged with   a: 2 / nested: {y: 9, z: 3}
    let base = map(vec![("a", n(1)), ("nested", map(vec![("x", n(1)), ("y", n(2))]))]);
    let over = map(vec![("a", n(2)), ("nested", map(vec![("y", n(9)), ("z", n(3))]))]);
    let merged = merge_values(base, over);
    assert_eq!(
        merged,
        map(vec![("a", n(2)), ("nested", map(vec![("x", n(1)), ("y", n(9)), ("z", n(3))]))])
    );
}

#[test]
fn sequences_append() {
    let base = map(vec![("list", YamlValue::Sequence(vec![s("a"), s("b")]))]);
    let over = map(vec![("list", YamlValue::Sequence(vec![s("c")]))]);
    let merged = merge_values(base, over);
    assert_eq!(merged, map(vec![("list", YamlValue::Sequence(vec![s("a"), s("b"), s("c")]))]));
}

#[test]
fn shared_key_moves_to_the_end() {
    // the key found on both sides is swap-removed and re-added last
    let base = map(vec![("a", n(1)), ("b", n(2)), ("c", n(3))]);
    let over = map(vec![("a", n(10))]);
    assert_eq!(merge_values(base, over), map(vec![("c", n(3)), ("b", n(2)), ("a", n(10))]));
}

#[test]
fn mapping_replaced_by_scalar() {
    let base = map(vec![("a", n(1))]);
    assert_eq!(merge_values(base, YamlValue::Null), YamlValue::Null);
    assert_eq!(merge_values(s("x"), map(vec![])), map(vec![]));
}

#[test]
fn documents_merge_left_to_right() {
    let docs = vec![
        map(vec![("listen", s("a")), ("backends", YamlValue::Sequence(vec![s("api")]))]),
        map(vec![("backends", YamlValue::Sequence(vec![s("web")]))]),
        map(vec![("listen", s("b"))]),
    ];
    let merged = merge_documents(docs).unwrap();
    assert_eq!(
        merged,
        map(vec![("backends", YamlValue::Sequence(vec![s("api"), s("web")])), ("listen", s("b"))])
    );
    assert_eq!(merge_documents(vec![]), None);
}

#[test]
fn tagged_keys_compare_structurally() {
    let k = YamlValue::Tagged("t".to_string(), Box::new(n(1)));
    let base = YamlValue::Mapping(vec![(YamlValue::Tagged("t".to_string(), Box::new(n(1))), n(5))]);
    let over = YamlValue::Mapping(vec![(k, n(6))]);
    assert_eq!(
        merge_values(base, over),
        YamlValue::Mapping(vec![(YamlValue::Tagged("t".to_string(), Box::new(n(1))), n(6))])
    );
}

fn float(x: f64) -> YamlValue {
    YamlValue::Number(YamlNumber::FloatBits(x.to_bits()))
}

fn entry(k: YamlValue, v: YamlValue) -> YamlValue {
    YamlValue::Mapping(vec![(k, v)])
}

#[test]
fn zero_and_negative_zero_are_one_key() {
    // {0.0: 1} merged with {-0.0: 2}: the over key replaces the base key
    let merged = merge_values(entry(float(0.0), n(1)), entry(float(-0.0), n(2)));
    assert_eq!(merged, entry(float(-0.0), n(2)));
}

#[test]
fn float_keys_merge_their_values() {
    // {0.0: {a: 1}} merged with {-0.0: {b: 2}} gives {-0.0: {a: 1, b: 2}}
    let base = entry(float(0.0), map(vec![("a", n(1))]));
    let over = entry(float(-0.0), map(vec![("b", n(2))]));
    assert_eq!(merge_values(base, over), entry(float(-0.0), map(vec![("a", n(1)), ("b", n(2))])));
}

#[test]
fn nan_keys_are_one_key() {
    let nan_a = YamlValue::Number(YamlNumber::FloatBits(0x7ff8_0000_0000_0000));
    let nan_b = YamlValue::Number(YamlNumber::FloatBits(0xfff8_0000_0000_0001));
    let merged = merge_values(entry(nan_a, n(1)), entry(nan_b, n(2)));
    assert_eq!(merged, entry(YamlValue::Number(YamlNumber::FloatBits(0xfff8_0000_0000_0001)), n(2)));
}

#[test]
fn reordered_mapping_keys_are_one_key() {
    let base = entry(map(vec![("x", n(1)), ("y", n(2))]), n(1));
    let over = entry(map(vec![("y", n(2)), ("x", n(1))]), n(2));
    assert_eq!(merge_values(base, over), entry(map(vec![("y", n(2)), ("x", n(1))]), n(2)));
}

#[test]
fn integer_and_float_keys_stay_apart() {
    let merged = merge_values(entry(n(1), s("int")), entry(float(1.0), s("float")));
    assert_eq!(merged, YamlValue::Mapping(vec![(n(1), s("int")), (float(1.0), s("float"))]));
}

#[test]
fn yaml_equality_of_values() {
    assert!(yaml_eq(&float(0.0), &float(-0.0)));
    assert!(yaml_eq(&float(f64::NAN), &YamlValue::Number(YamlNumber::FloatBits(0x7ff0_0000_0000_0001))));
    assert!(!yaml_eq(&float(1.0), &float(2.0)));
    assert!(!yaml_eq(&float(f64::INFINITY), &float(f64::NAN)));
    assert!(!yaml_eq(&n(1), &float(1.0)));
    assert!(yaml_eq(&YamlValue::Number(YamlNumber::NegInt(-3)), &YamlValue::Number(YamlNumber::NegInt(-3))));
    assert!(yaml_eq(&map(vec![("x", n(1)), ("y", n(2))]), &map(vec![("y", n(2)), ("x", n(1))])));
    assert!(!yaml_eq(&map(vec![("x", n(1)), ("y", n(2))]), &map(vec![("y", n(2)), ("x", n(3))])));
    assert!(!yaml_eq(&map(vec![("x", n(1))]), &map(vec![("x", n(1)), ("y", n(2))])));
    assert!(yaml_eq(&YamlValue::Sequence(vec![n(1), s("a")]), &YamlValue::Sequence(vec![n(1), s("a")])));
    assert!(!yaml_eq(&YamlValue::Sequence(vec![n(1), s("a")]), &YamlValue::Sequence(vec![s("a"), n(1)])));
    assert!(!yaml_eq(
        &YamlValue::Tagged("a".to_string(), Box::new(n(1))),
        &YamlValue::Tagged("b".to_string(), Box::new(n(1)))
    ));
    assert!(yaml_eq(&YamlValue::Null, &YamlValue::Null));
    assert!(!yaml_eq(&YamlValue::Null, &YamlValue::Bool(false)));
}
