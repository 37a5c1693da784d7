use edgeproxy::config::document::parse_documents;
use edgeproxy::config::merge::{YamlNumber, YamlValue};

fn s(x: &str) -> YamlValue {
    YamlValue::Str(x.to_string())
}

#[test]
fn documents_parse_in_order() {
    let texts = vec!["a: 1\nb: [x, -2]\n".to_string(), "c: !tag 1.5\n".to_string()];
    let values = parse_documents(&texts).unwrap();
    assert_eq!(
        values,
        vec![
            YamlValue::Mapping(vec![
                (s("a"), YamlValue::Number(YamlNumber::PosInt(1))),
                (s("b"), YamlValue::Sequence(vec![s("x"), YamlValue::Number(YamlNumber::NegInt(-2))])),
            ]),
            YamlValue::Mapping(vec![(
                s("c"),
                YamlValue::Tagged(
                    "tag".to_string(),
                    Box::new(YamlValue::Number(YamlNumber::FloatBits(1.5f64.to_bits())))
                ),
            )]),
        ]
    );
}

#[test]
fn first_unparsable_document_is_reported() {
    let texts = vec!["a: 1\n".to_string(), "a: [1\n".to_string(), "b: :\n  - [".to_string()];
    let (index, message) = parse_documents(&texts).unwrap_err();
    assert_eq!(index, 1);
    assert!(!message.is_empty());
}

#[test]
fn no_documents_parse_to_nothing() {
    assert_eq!(parse_documents(&Vec::new()).unwrap(), Vec::<YamlValue>::new());
}

#[test]
fn repeated_key_does_not_parse() {
    let texts = vec!["a: 1\na: 2\n".to_string()];
    let (index, message) = parse_documents(&texts).unwrap_err();
    assert_eq!(index, 0);
    assert!(message.contains("duplicate entry"), "{message}");
}
