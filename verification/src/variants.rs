//! The closed collection of variants that stands for a category in generated
//! code: one variant for each binding, in declaration order.
use crate::schema::Category;
use crate::table::{bindings_view, BindingTable, SpecBinding};
use vstd::prelude::*;

verus! {

/// One variant of a category's collection: its name, and the path of the type
/// that holds its fields.
#[derive(Clone, Debug, PartialEq, Eq)]
pub struct VariantDecl {
    pub name: String,
    pub path: Vec<String>,
}

/// The model of a `VariantDecl`.
pub struct SpecVariantDecl {
    pub name: Seq<char>,
    pub path: Seq<Seq<char>>,
}

impl View for VariantDecl {
    type V = SpecVariantDecl;

    open spec fn view(&self) -> SpecVariantDecl {
        SpecVariantDecl { name: self.name@, path: Seq::new(self.path@.len(), |i: int| self.path@[i]@) }
    }
}

/// The path of the type that holds the fields of the binding `name`: an account
/// type stands at the root, an instruction type in the module `instruction`.
pub open spec fn payload_path(category: Category, name: Seq<char>) -> Seq<Seq<char>> {
    match category {
        Category::Account => seq![name],
        Category::Instruction => seq!["instruction"@, name],
    }
}

/// The variant that stands for `binding`.
pub open spec fn variant_of(category: Category, binding: SpecBinding) -> SpecVariantDecl {
    SpecVariantDecl { name: binding.name, path: payload_path(category, binding.name) }
}

impl Category {
    /// The name of the collection of a category's variants.
    pub open spec fn spec_collection_name(&self) -> Seq<char> {
        match self {
            Category::Account => "AccountType"@,
            Category::Instruction => "InstructionType"@,
        }
    }

    /// The name of the collection of a category's variants.
    pub fn collection_name(&self) -> (name: &'static str)
        ensures
            name@ == self.spec_collection_name(),
    {
        match self {
            Category::Account => "AccountType",
            Category::Instruction => "InstructionType",
        }
    }
}

impl BindingTable {
    /// The variants of a category's collection: one for each binding, in
    /// declaration order, each named like its binding.
    pub fn variants(&self, category: Category) -> (variants: Vec<VariantDecl>)
        ensures
            variants@.len() == self@.bindings(category).len(),
            forall|i: int|
                0 <= i < variants@.len() ==> (#[trigger] variants@[i])@ == variant_of(
                    category,
                    self@.bindings(category)[i],
                ),
    {
        let bindings = self.bindings(category);
        let mut variants: Vec<VariantDecl> = Vec::new();
        let mut i: usize = 0;
        while i < bindings.len()
            invariant
                i <= bindings.len(),
                bindings_view(bindings@) == self@.bindings(category),
                variants@.len() == i,
                forall|k: int|
                    0 <= k < i ==> (#[trigger] variants@[k])@ == variant_of(
                        category,
                        self@.bindings(category)[k],
                    ),
            decreases bindings.len() - i,
        {
            let name = &bindings[i].name;
            assert(bindings_view(bindings@)[i as int] == bindings@[i as int]@);
            let mut path: Vec<String> = Vec::new();
            match category {
                Category::Account => {},
                Category::Instruction => {
                    path.push("instruction".to_owned());
                },
            }
            path.push(name.clone());
            let variant = VariantDecl { name: name.clone(), path };
            assert(variant@.path =~= payload_path(category, name@));
            variants.push(variant);
            i = i + 1;
        }
        variants
    }
}

} // verus!
