use anchor_generate_cpi_crate::{
    generate_cpi_crate, BindingTable, Category, SchemaDocument, TypeDecl, VariantDecl,
};

fn decl(name: &str, tag: u8) -> TypeDecl {
    TypeDecl { name: name.to_string(), discriminator: [tag; 8], fields: vec![] }
}

fn table() -> BindingTable {
    let doc = SchemaDocument {
        accounts: vec![decl("Governor", 1), decl("Proposal", 2)],
        instructions: vec![decl("CreateGovernor", 1), decl("CastVote", 2), decl("Governor", 3)],
    };
    generate_cpi_crate(&doc).unwrap()
}

#[test]
fn the_collections_are_named_after_their_category() {
    assert_eq!(Category::Account.collection_name(), "AccountType");
    assert_eq!(Category::Instruction.collection_name(), "InstructionType");
}

#[test]
fn an_account_variant_holds_the_type_of_its_own_name() {
    assert_eq!(
        table().variants(Category::Account),
        vec![
            VariantDecl { name: "Governor".to_string(), path: vec!["Governor".to_string()] },
            VariantDecl { name: "Proposal".to_string(), path: vec!["Proposal".to_string()] },
        ]
    );
}

#[test]
fn an_instruction_variant_holds_the_type_in_the_instruction_module() {
    let path = |name: &str| vec!["instruction".to_string(), name.to_string()];
    assert_eq!(
        table().variants(Category::Instruction),
        vec![
            VariantDecl { name: "CreateGovernor".to_string(), path: path("CreateGovernor") },
            VariantDecl { name: "CastVote".to_string(), path: path("CastVote") },
            VariantDecl { name: "Governor".to_string(), path: path("Governor") },
        ]
    );
}

#[test]
fn a_category_without_bindings_has_no_variants() {
    let table = generate_cpi_crate(&SchemaDocument { accounts: vec![], instructions: vec![] }).unwrap();
    assert_eq!(table.variants(Category::Account), vec![]);
    assert_eq!(table.variants(Category::Instruction), vec![]);
}
