use markdown_core::schemas::{register_schema, Schemas};
use serde_json::Value;

fn json(text: &str) -> Value {
    serde_json::from_str(text).unwrap()
}

#[test]
fn profiles_share_identical_contracts_but_cannot_overwrite_them() {
    let mut schemas = Schemas::new();
    let schema = json(r#"{"title": "ExampleData", "type": "object"}"#);
    assert!(register_schema(&mut schemas, "test/example@1", schema.clone()).unwrap());
    assert!(!register_schema(&mut schemas, "test/example@1", schema.clone()).unwrap());
    let before = schemas.clone();
    assert!(register_schema(&mut schemas, "other/example@1", schema).is_err());
    assert!(register_schema(
        &mut schemas,
        "test/example@1",
        json(r#"{"title": "ExampleData", "type": "string"}"#)
    )
    .is_err());
    assert!(schemas == before);
}

#[test]
fn refusals_name_the_payload_or_the_title() {
    let mut schemas = Schemas::new();
    assert_eq!(
        register_schema(&mut schemas, "a@1", json(r#"{"type": "object"}"#)),
        Err("Missing payload type name".to_string())
    );
    assert_eq!(
        register_schema(&mut schemas, "a@1", json(r#"{"title": 3}"#)),
        Err("Missing payload type name".to_string())
    );
    assert_eq!(
        register_schema(&mut schemas, "a@1", json(r#"{"title": "A"}"#)),
        Ok(true)
    );
    assert_eq!(
        register_schema(&mut schemas, "a@1", json(r#"{"title": "A", "x": 1}"#)),
        Err("Conflicting payload contract across profiles: a@1".to_string())
    );
    assert_eq!(
        register_schema(&mut schemas, "b@1", json(r#"{"title": "A", "x": 1}"#)),
        Err("Duplicate payload type name: A".to_string())
    );
    assert_eq!(
        register_schema(&mut schemas, "b@1", json(r#"{"title": "B"}"#)),
        Ok(true)
    );
    assert_eq!(schemas.len(), 2);
    assert_eq!(schemas.get("b@1"), Some(&json(r#"{"title": "B"}"#)));
    assert!(schemas.get("c@1").is_none());
}

#[test]
fn registries_with_the_same_schemas_are_equal_whatever_the_order() {
    let mut first = Schemas::new();
    let mut second = Schemas::new();
    assert_eq!(register_schema(&mut first, "b@1", json(r#"{"title": "B"}"#)), Ok(true));
    assert_eq!(register_schema(&mut first, "a@1", json(r#"{"title": "A"}"#)), Ok(true));
    assert_eq!(register_schema(&mut first, "ab@1", json(r#"{"title": "AB"}"#)), Ok(true));
    assert_eq!(register_schema(&mut second, "ab@1", json(r#"{"title": "AB"}"#)), Ok(true));
    assert_eq!(register_schema(&mut second, "a@1", json(r#"{"title": "A"}"#)), Ok(true));
    assert_eq!(register_schema(&mut second, "b@1", json(r#"{"title": "B"}"#)), Ok(true));
    assert!(first == second);
    assert_eq!(first.get("ab@1"), Some(&json(r#"{"title": "AB"}"#)));
}
