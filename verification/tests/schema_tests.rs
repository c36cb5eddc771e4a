use int_map_codec::schema::{
    parse_key, resolve_schema, FieldDecl, FieldType, PolicyMarker, RecordSchema, SchemaError,
};

fn decl(name: &str, optional: bool, markers: Vec<PolicyMarker>, handles: bool) -> FieldDecl {
    FieldDecl {
        name: name.to_string(),
        optional,
        markers,
        handles_unknown_keys: handles,
    }
}

fn keyed(lit: &str) -> PolicyMarker {
    PolicyMarker::Keyed(lit.to_string())
}

fn resolve_one(marker: PolicyMarker) -> Result<RecordSchema, SchemaError> {
    resolve_schema(vec![decl("f", false, vec![marker], false)])
}

#[test]
fn signed_key_literals_resolve_to_distinct_keys() {
    let schema = resolve_schema(vec![
        decl("neg", false, vec![keyed("-5")], false),
        decl("pos", false, vec![keyed("+5")], false),
        decl("bare", false, vec![keyed("5")], false),
    ])
    .unwrap();
    let fields = schema.fields();
    assert_eq!(fields[0].field_type, FieldType::Keyed(-5));
    assert_eq!(fields[1].field_type, FieldType::Keyed(5));
    assert_eq!(fields[2].field_type, FieldType::Keyed(5));
    assert_ne!(fields[0].field_type, fields[1].field_type);
}

#[test]
fn parse_key_accepts_signed_decimal_literals() {
    assert_eq!(parse_key("0"), Some(0));
    assert_eq!(parse_key("42"), Some(42));
    assert_eq!(parse_key("+42"), Some(42));
    assert_eq!(parse_key("-42"), Some(-42));
    assert_eq!(parse_key("007"), Some(7));
    assert_eq!(parse_key("9223372036854775807"), Some(i64::MAX));
    assert_eq!(parse_key("-9223372036854775808"), Some(i64::MIN));
}

#[test]
fn parse_key_rejects_malformed_literals() {
    assert_eq!(parse_key(""), None);
    assert_eq!(parse_key("+"), None);
    assert_eq!(parse_key("-"), None);
    assert_eq!(parse_key("abc"), None);
    assert_eq!(parse_key("5x"), None);
    assert_eq!(parse_key("--5"), None);
    assert_eq!(parse_key("+-5"), None);
    assert_eq!(parse_key("1_000"), None);
    assert_eq!(parse_key(" 5"), None);
}

#[test]
fn parse_key_rejects_out_of_range_literals() {
    assert_eq!(parse_key("9223372036854775808"), None);
    assert_eq!(parse_key("-9223372036854775809"), None);
    assert_eq!(parse_key("99999999999999999999999999"), None);
}

#[test]
fn missing_policy_is_a_build_failure() {
    let err = resolve_schema(vec![decl("bare", false, vec![], false)]).unwrap_err();
    assert_eq!(err, SchemaError::MissingPolicy("bare".to_string()));
}

#[test]
fn conflicting_policies_are_a_build_failure() {
    let err = resolve_schema(vec![decl(
        "both",
        false,
        vec![keyed("1"), PolicyMarker::Phantom],
        false,
    )])
    .unwrap_err();
    assert_eq!(err, SchemaError::ConflictingPolicy("both".to_string()));
}

#[test]
fn malformed_key_literal_is_a_build_failure() {
    let err = resolve_one(keyed("nope")).unwrap_err();
    assert_eq!(
        err,
        SchemaError::MalformedKeyLiteral("f".to_string(), "nope".to_string())
    );
}

#[test]
fn catchall_without_capability_is_a_build_failure() {
    let err = resolve_one(PolicyMarker::CatchAll).unwrap_err();
    assert_eq!(err, SchemaError::CatchAllTypeUnsupported("f".to_string()));
}

#[test]
fn second_catchall_is_a_build_failure() {
    let err = resolve_schema(vec![
        decl("u", false, vec![PolicyMarker::CatchAll], true),
        decl("v", false, vec![PolicyMarker::CatchAll], true),
    ])
    .unwrap_err();
    assert_eq!(err, SchemaError::MultipleCatchAll("v".to_string()));
}

#[test]
fn ignored_fields_never_reach_the_schema() {
    let schema = resolve_schema(vec![
        decl("a", false, vec![keyed("1")], false),
        decl("skipme", false, vec![PolicyMarker::Ignore], false),
        decl("b", false, vec![keyed("2")], false),
    ])
    .unwrap();
    assert_eq!(schema.field_count(), 2);
    assert_eq!(schema.fields()[0].name, "a");
    assert_eq!(schema.fields()[1].name, "b");
}

#[test]
fn field_type_classification_predicates() {
    assert!(FieldType::CatchAll.is_wildcard());
    assert!(!FieldType::Keyed(3).is_wildcard());
    assert!(!FieldType::Phantom.is_wildcard());
    assert!(FieldType::Phantom.is_phantom());
    assert!(!FieldType::CatchAll.is_phantom());
    assert!(!FieldType::Keyed(3).is_phantom());
}

#[test]
fn schema_keeps_declaration_order_and_flags() {
    let schema = resolve_schema(vec![
        decl("first", true, vec![keyed("10")], false),
        decl("second", false, vec![PolicyMarker::Phantom], false),
        decl("third", false, vec![PolicyMarker::CatchAll], true),
    ])
    .unwrap();
    let fields = schema.fields();
    assert_eq!(fields.len(), 3);
    assert!(fields[0].optional);
    assert_eq!(fields[0].field_type, FieldType::Keyed(10));
    assert_eq!(fields[1].field_type, FieldType::Phantom);
    assert_eq!(fields[2].field_type, FieldType::CatchAll);
}
