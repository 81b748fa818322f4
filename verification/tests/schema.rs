use jocky::doc_block::{Corrupted, Field, ValueType};
use jocky::schema::{BasicSchema, FieldInfo};

#[test]
fn schema_keeps_what_it_was_built_from() {
    let fields = vec![("name".to_string(), 0u16), ("age".to_string(), 1u16)];
    let info = vec![
        FieldInfo::new(ValueType::String, false),
        FieldInfo::new(ValueType::U64, true),
    ];
    let schema = BasicSchema::new(fields, info, Some(1));

    assert_eq!(schema.fields().len(), 2);
    assert_eq!(schema.fields()[0].0, "name");
    assert_eq!(schema.fields()[1].1, 1);
    assert_eq!(schema.hash_key(), Some(1));
    assert_eq!(schema.info(0).value_type(), ValueType::String);
    assert!(!schema.info(0).is_multi());
    assert_eq!(schema.info(1).value_type(), ValueType::U64);
    assert!(schema.info(1).is_multi());
}

#[test]
fn field_carries_its_raw_bytes() {
    let bytes = 15u64.to_le_bytes();
    let field = Field { value_type: ValueType::U64, field_id: 1, value: &bytes };
    assert_eq!(field.field_id, 1);
    assert_eq!(u64::from_le_bytes(field.value.try_into().unwrap()), 15);
}

#[test]
fn corrupted_names_the_bad_type() {
    let err = Corrupted(ValueType::Json);
    assert_eq!(err.0, ValueType::Json);
    assert!(!err.message().is_empty());
}
