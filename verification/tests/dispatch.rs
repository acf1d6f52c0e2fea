use anchor_generate_cpi_crate::value::are_encodable;
use anchor_generate_cpi_crate::{
    BindingTable, Category, DecodeError, FieldSpec, FieldType, Layout, Primitive, TypeBinding,
    Value, Variant,
};

const TAG: [u8; 8] = [9, 8, 7, 6, 5, 4, 3, 2];

fn binding(name: &str, discriminator: [u8; 8], kind: Primitive) -> TypeBinding {
    TypeBinding {
        name: name.to_string(),
        discriminator,
        fields: vec![FieldSpec {
            name: "value".to_string(),
            ty: FieldType::Primitive(kind),
            size: None,
        }],
        layout: vec![Layout::Primitive(kind)],
    }
}

fn buffer(discriminator: [u8; 8], payload: &[u8]) -> Vec<u8> {
    let mut bytes = discriminator.to_vec();
    bytes.extend_from_slice(payload);
    bytes
}

/// Two account bindings with one discriminator: `First` holds a `u8`, `Second` a
/// `u16`.
fn colliding() -> BindingTable {
    BindingTable {
        accounts: vec![binding("First", TAG, Primitive::U8), binding("Second", TAG, Primitive::U16)],
        instructions: vec![],
    }
}

#[test]
fn first_declared_wins_where_discriminators_collide() {
    let table = colliding();
    let found = table.identify_and_decode(Category::Account, &buffer(TAG, &[5]));
    assert_eq!(found, Ok(Variant { name: "First".to_string(), fields: vec![Value::U8(5)] }));
}

#[test]
fn first_declared_wins_in_the_other_order_too() {
    let table = BindingTable {
        accounts: vec![binding("Second", TAG, Primitive::U16), binding("First", TAG, Primitive::U8)],
        instructions: vec![],
    };
    let found = table.identify_and_decode(Category::Account, &buffer(TAG, &[5, 0]));
    assert_eq!(found, Ok(Variant { name: "Second".to_string(), fields: vec![Value::U16(5)] }));
}

#[test]
fn later_binding_is_not_tried_after_a_corrupt_payload() {
    // Two bytes are a `u16`, so `Second` could decode them; `First` cannot.
    let table = colliding();
    let found = table.identify_and_decode(Category::Account, &buffer(TAG, &[5, 0]));
    assert_eq!(found, Err(DecodeError::CorruptPayload("First".to_string())));
}

#[test]
fn encoding_a_shadowed_binding_does_not_round_trip() {
    let table = colliding();
    let fields = vec![Value::U16(5)];
    assert!(are_encodable(&fields));
    let bytes = table.encode(Category::Account, "Second", &fields).unwrap();
    assert_eq!(bytes, buffer(TAG, &[5, 0]));
    assert_eq!(
        table.identify_and_decode(Category::Account, &bytes),
        Err(DecodeError::CorruptPayload("First".to_string()))
    );
}

#[test]
fn buffer_with_another_discriminator_is_unknown() {
    let table = colliding();
    let found = table.identify_and_decode(Category::Account, &buffer([9, 8, 7, 6, 5, 4, 3, 1], &[5]));
    assert_eq!(found, Err(DecodeError::UnknownVariant));
}

#[test]
fn buffer_shorter_than_a_discriminator_is_unknown() {
    let table = colliding();
    assert_eq!(
        table.identify_and_decode(Category::Account, &[9, 8, 7, 6, 5, 4, 3]),
        Err(DecodeError::UnknownVariant)
    );
}

#[test]
fn empty_table_knows_no_variant() {
    let table = BindingTable { accounts: vec![], instructions: vec![] };
    assert_eq!(
        table.identify_and_decode(Category::Account, &buffer(TAG, &[5])),
        Err(DecodeError::UnknownVariant)
    );
}

#[test]
fn bytes_behind_the_last_field_are_a_corrupt_payload() {
    let table = BindingTable {
        accounts: vec![binding("First", TAG, Primitive::U8)],
        instructions: vec![],
    };
    assert_eq!(
        table.identify_and_decode(Category::Account, &buffer(TAG, &[5, 0])),
        Err(DecodeError::CorruptPayload("First".to_string()))
    );
}

#[test]
fn encode_of_an_undeclared_name_is_unknown_name() {
    let table = colliding();
    assert_eq!(
        table.encode(Category::Account, "Third", &vec![Value::U8(1)]),
        Err(DecodeError::UnknownName)
    );
}

#[test]
fn encode_takes_the_first_binding_of_a_name() {
    let table = BindingTable {
        accounts: vec![
            binding("Same", [1, 1, 1, 1, 1, 1, 1, 1], Primitive::U8),
            binding("Same", [2, 2, 2, 2, 2, 2, 2, 2], Primitive::U8),
        ],
        instructions: vec![],
    };
    assert_eq!(table.position(Category::Account, "Same"), Some(0));
    assert_eq!(
        table.encode(Category::Account, "Same", &vec![Value::U8(3)]),
        Ok(vec![1, 1, 1, 1, 1, 1, 1, 1, 3])
    );
}

#[test]
fn position_is_the_index_in_declaration_order() {
    let table = colliding();
    assert_eq!(table.position(Category::Account, "First"), Some(0));
    assert_eq!(table.position(Category::Account, "Second"), Some(1));
    assert_eq!(table.position(Category::Account, "Third"), None);
    assert_eq!(table.position(Category::Instruction, "First"), None);
}

#[test]
fn bindings_gives_each_category_its_own() {
    let table = BindingTable {
        accounts: vec![binding("A", TAG, Primitive::U8)],
        instructions: vec![binding("I", TAG, Primitive::U16), binding("J", TAG, Primitive::U8)],
    };
    assert_eq!(table.bindings(Category::Account).len(), 1);
    assert_eq!(table.bindings(Category::Instruction).len(), 2);
    assert_eq!(table.bindings(Category::Instruction)[1].name, "J");
}

#[test]
fn binding_matches_by_its_leading_bytes() {
    let first = binding("First", TAG, Primitive::U8);
    assert!(first.matches(&buffer(TAG, &[])));
    assert!(first.matches(&buffer(TAG, &[1, 2, 3])));
    assert!(!first.matches(&[9, 8, 7, 6, 5, 4, 3]));
    assert!(!first.matches(&[9, 8, 7, 6, 5, 4, 3, 3, 2]));
    assert!(!first.matches(&[]));
}

#[test]
fn binding_encodes_and_decodes_its_own_fields() {
    let first = binding("First", TAG, Primitive::U8);
    let fields = vec![Value::U8(200)];
    assert!(first.admits(&fields));
    assert!(are_encodable(&fields));
    let bytes = first.encode(&fields);
    assert_eq!(bytes, buffer(TAG, &[200]));
    assert_eq!(first.decode(&bytes), Some(fields));
    assert_eq!(first.decode(&buffer(TAG, &[])), None);
    assert_eq!(first.decode(&[200]), None);
}

#[test]
fn binding_admits_only_assignments_of_its_layout() {
    let first = binding("First", TAG, Primitive::U8);
    assert!(first.admits(&vec![Value::U8(0)]));
    assert!(!first.admits(&vec![Value::U16(0)]));
    assert!(!first.admits(&vec![]));
    assert!(!first.admits(&vec![Value::U8(0), Value::U8(0)]));
}

#[test]
fn marker_binding_is_its_discriminator_alone() {
    let marker = TypeBinding {
        name: "Marker".to_string(),
        discriminator: TAG,
        fields: vec![],
        layout: vec![],
    };
    let table = BindingTable { accounts: vec![], instructions: vec![marker] };
    let bytes = table.encode(Category::Instruction, "Marker", &vec![]).unwrap();
    assert_eq!(bytes, TAG.to_vec());
    assert_eq!(
        table.identify_and_decode(Category::Instruction, &bytes),
        Ok(Variant { name: "Marker".to_string(), fields: vec![] })
    );
    assert_eq!(
        table.identify_and_decode(Category::Instruction, &buffer(TAG, &[0])),
        Err(DecodeError::CorruptPayload("Marker".to_string()))
    );
}
