//! The declarations of a schema document, as they stand before they are bound.
use crate::value::Primitive;
use vstd::prelude::*;

verus! {

/// The number of bytes in a discriminator.
pub const DISCRIMINATOR_LEN: usize = 8;

/// The two collections of a schema.
#[derive(Clone, Copy, Debug, PartialEq, Eq, Structural)]
pub enum Category {
    Account,
    Instruction,
}

impl Category {
    /// The other collection.
    pub open spec fn spec_other(&self) -> Category {
        match self {
            Category::Account => Category::Instruction,
            Category::Instruction => Category::Account,
        }
    }

    /// The other collection.
    #[verifier::when_used_as_spec(spec_other)]
    pub fn other(&self) -> (c: Category)
        ensures
            c == self.spec_other(),
    {
        match self {
            Category::Account => Category::Instruction,
            Category::Instruction => Category::Account,
        }
    }
}

/// The declared type of a field.
#[derive(Debug, PartialEq, Eq)]
pub enum FieldType {
    Primitive(Primitive),
    /// The fields of the declaration of this name, nested.
    Defined(String),
    /// A sequence of items of one type.
    Sequence(Box<FieldType>),
}

/// One field of a declaration. The order of the fields of a declaration is the
/// order of their bytes.
#[derive(Debug, PartialEq, Eq)]
pub struct FieldSpec {
    pub name: String,
    pub ty: FieldType,
    /// For a sequence, the fixed number of its items; `None` where the number is
    /// written in front of them.
    pub size: Option<u32>,
}

impl Clone for FieldType {
    /// A copy of the type, equal to it.
    fn clone(&self) -> (copy: FieldType)
        ensures
            copy == *self,
        decreases self,
    {
        match self {
            FieldType::Primitive(kind) => FieldType::Primitive(*kind),
            FieldType::Defined(name) => FieldType::Defined(name.clone()),
            FieldType::Sequence(item) => {
                let inner: &FieldType = item;
                FieldType::Sequence(Box::new(inner.clone()))
            },
        }
    }
}

impl Clone for FieldSpec {
    /// A copy of the field, equal to it.
    fn clone(&self) -> (copy: FieldSpec)
        ensures
            copy == *self,
    {
        FieldSpec { name: self.name.clone(), ty: self.ty.clone(), size: self.size }
    }
}

/// One declared account or instruction.
#[derive(Clone, Debug, PartialEq, Eq)]
pub struct TypeDecl {
    pub name: String,
    pub discriminator: [u8; DISCRIMINATOR_LEN],
    pub fields: Vec<FieldSpec>,
}

/// A schema document: its accounts and its instructions, in declaration order.
#[derive(Clone, Debug, PartialEq, Eq)]
pub struct SchemaDocument {
    pub accounts: Vec<TypeDecl>,
    pub instructions: Vec<TypeDecl>,
}

/// Why a schema document was not bound.
#[derive(Clone, Copy, Debug, PartialEq, Eq, Structural)]
pub enum SchemaError {
    /// Two declarations of one collection have the same name.
    DuplicateName,
    /// A field names a type that the document does not declare.
    UnresolvedReference,
    /// The document does not have the shape of a schema.
    Malformed,
}

impl SchemaDocument {
    /// The declarations of one collection.
    pub open spec fn decls(&self, category: Category) -> Seq<TypeDecl> {
        match category {
            Category::Account => self.accounts@,
            Category::Instruction => self.instructions@,
        }
    }

    /// The declarations of one collection.
    pub fn declarations(&self, category: Category) -> (decls: &Vec<TypeDecl>)
        ensures
            decls@ == self.decls(category),
    {
        match category {
            Category::Account => &self.accounts,
            Category::Instruction => &self.instructions,
        }
    }
}

} // verus!
