//! Bindings for the accounts and instructions of a remote program, made from a
//! schema, and the dispatch that recognises a raw buffer as one of them.
//!
//! `generate_cpi_crate` binds a schema document to a `BindingTable`. The table
//! encodes field values under a declared name and, given a buffer of unknown
//! shape, says which declared type it is and decodes it.
pub mod binder;
pub mod codec;
pub mod endian;
pub mod laws;
pub mod nesting;
pub mod schema;
pub mod table;
pub mod value;
pub mod variants;

pub use binder::generate_cpi_crate;
pub use schema::{Category, FieldSpec, FieldType, SchemaDocument, SchemaError, TypeDecl};
pub use table::{BindingTable, DecodeError, TypeBinding, Variant};
pub use value::{Layout, Primitive, Value};
pub use variants::VariantDecl;
