use anchor_generate_cpi_crate::value::are_encodable;
use anchor_generate_cpi_crate::{
    generate_cpi_crate, BindingTable, Category, DecodeError, FieldSpec, FieldType, Primitive,
    SchemaDocument, SchemaError, TypeDecl, Value, Variant,
};

fn field(name: &str, kind: Primitive) -> FieldSpec {
    FieldSpec { name: name.to_string(), ty: FieldType::Primitive(kind), size: None }
}

fn decl(name: &str, tag: u8, fields: Vec<FieldSpec>) -> TypeDecl {
    TypeDecl { name: name.to_string(), discriminator: [tag, 0, 0, 0, 0, 0, 0, 0], fields }
}

fn counter_and_flag() -> BindingTable {
    let doc = SchemaDocument {
        accounts: vec![
            decl("Counter", 1, vec![field("value", Primitive::U64)]),
            decl("Flag", 2, vec![field("set", Primitive::Bool)]),
        ],
        instructions: vec![],
    };
    generate_cpi_crate(&doc).unwrap()
}

#[test]
fn counter_is_encoded_as_discriminator_and_little_endian_value() {
    let table = counter_and_flag();
    let fields = vec![Value::U64(7)];
    assert!(are_encodable(&fields));
    let bytes = table.encode(Category::Account, "Counter", &fields).unwrap();
    assert_eq!(bytes, vec![1, 0, 0, 0, 0, 0, 0, 0, 7, 0, 0, 0, 0, 0, 0, 0]);
}

#[test]
fn encoded_counter_is_decoded_as_counter() {
    let table = counter_and_flag();
    let bytes = vec![1, 0, 0, 0, 0, 0, 0, 0, 7, 0, 0, 0, 0, 0, 0, 0];
    let found = table.identify_and_decode(Category::Account, &bytes);
    assert_eq!(found, Ok(Variant { name: "Counter".to_string(), fields: vec![Value::U64(7)] }));
}

#[test]
fn counter_round_trips() {
    let table = counter_and_flag();
    let fields = vec![Value::U64(7)];
    assert!(are_encodable(&fields));
    let bytes = table.encode(Category::Account, "Counter", &fields).unwrap();
    let found = table.identify_and_decode(Category::Account, &bytes).unwrap();
    assert_eq!(found.name, "Counter");
    assert_eq!(found.fields, fields);
}

#[test]
fn flag_round_trips() {
    let table = counter_and_flag();
    let fields = vec![Value::Bool(true)];
    assert!(are_encodable(&fields));
    let bytes = table.encode(Category::Account, "Flag", &fields).unwrap();
    assert_eq!(bytes, vec![2, 0, 0, 0, 0, 0, 0, 0, 1]);
    let found = table.identify_and_decode(Category::Account, &bytes);
    assert_eq!(found, Ok(Variant { name: "Flag".to_string(), fields }));
}

#[test]
fn empty_buffer_is_of_no_known_variant() {
    let table = counter_and_flag();
    assert_eq!(table.identify_and_decode(Category::Account, &[]), Err(DecodeError::UnknownVariant));
}

#[test]
fn discriminator_alone_is_a_corrupt_counter() {
    let table = counter_and_flag();
    assert_eq!(
        table.identify_and_decode(Category::Account, &[1, 0, 0, 0, 0, 0, 0, 0]),
        Err(DecodeError::CorruptPayload("Counter".to_string()))
    );
}

#[test]
fn two_accounts_of_one_name_are_refused() {
    let doc = SchemaDocument {
        accounts: vec![
            decl("Counter", 1, vec![field("value", Primitive::U64)]),
            decl("Counter", 2, vec![field("set", Primitive::Bool)]),
        ],
        instructions: vec![],
    };
    assert_eq!(generate_cpi_crate(&doc), Err(SchemaError::DuplicateName));
}

#[test]
fn accounts_are_not_looked_for_among_instructions() {
    let table = counter_and_flag();
    let bytes = vec![1, 0, 0, 0, 0, 0, 0, 0, 7, 0, 0, 0, 0, 0, 0, 0];
    assert_eq!(
        table.identify_and_decode(Category::Instruction, &bytes),
        Err(DecodeError::UnknownVariant)
    );
    assert_eq!(
        table.encode(Category::Instruction, "Counter", &vec![Value::U64(7)]),
        Err(DecodeError::UnknownName)
    );
}
