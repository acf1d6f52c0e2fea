//! What holds of binding, encoding and dispatch, whatever the schema and the
//! buffer.
use crate::binder::{
    bind_decls, bind_document, lemma_bound_decls_distinct, well_shaped,
};
use crate::codec::{
    encode_values, lemma_decode_fields_of_encoded, lemma_encode_of_decoded_fields,
};
use crate::schema::{Category, SchemaDocument};
use crate::table::{
    decode_as, distinct_bindings, first_match, first_named, identify, SpecBinding, SpecDecodeError,
    SpecTable, SpecVariant,
};
use crate::value::{all_admitted, SpecValue};
use vstd::prelude::*;

verus! {

/// `first_match` finds the least index, from `start` on, of a binding whose
/// discriminator the buffer starts with, and finds none only where there is none.
pub proof fn lemma_first_match(bindings: Seq<SpecBinding>, bytes: Seq<u8>, start: nat)
    ensures
        match first_match(bindings, bytes, start) {
            Some(k) => start <= k < bindings.len() && bindings[k].matches(bytes) && forall|j: int|
                start <= j < k ==> !(#[trigger] bindings[j]).matches(bytes),
            None => forall|j: int|
                start <= j < bindings.len() ==> !(#[trigger] bindings[j]).matches(bytes),
        },
    decreases bindings.len() - start,
{
    if start < bindings.len() && !bindings[start as int].matches(bytes) {
        lemma_first_match(bindings, bytes, start + 1);
    }
}

/// `first_named` finds the least index, from `start` on, of a binding of the
/// name, and finds none only where there is none.
pub proof fn lemma_first_named(bindings: Seq<SpecBinding>, name: Seq<char>, start: nat)
    ensures
        match first_named(bindings, name, start) {
            Some(k) => start <= k < bindings.len() && bindings[k].name == name && forall|j: int|
                start <= j < k ==> (#[trigger] bindings[j]).name != name,
            None => forall|j: int|
                start <= j < bindings.len() ==> (#[trigger] bindings[j]).name != name,
        },
    decreases bindings.len() - start,
{
    if start < bindings.len() && bindings[start as int].name != name {
        lemma_first_named(bindings, name, start + 1);
    }
}

/// Among bindings that can be told apart, a buffer starts with the
/// discriminator of at most one.
pub proof fn lemma_one_match(bindings: Seq<SpecBinding>, bytes: Seq<u8>, i: int, j: int)
    requires
        distinct_bindings(bindings),
        0 <= i < bindings.len(),
        0 <= j < bindings.len(),
        bindings[i].matches(bytes),
        bindings[j].matches(bytes),
    ensures
        i == j,
{
    if i != j {
        assert(bindings[i].discriminator.len() == bindings[j].discriminator.len());
        assert(bindings[i].discriminator == bindings[j].discriminator);
        if i < j {
            assert(bindings[i].discriminator != bindings[j].discriminator);
        } else {
            assert(bindings[j].discriminator != bindings[i].discriminator);
        }
    }
}

/// Decoding is the inverse of encoding: a binding decodes a buffer as a field
/// assignment exactly where its layout admits the assignment and the buffer is
/// the assignment's encoding.
pub proof fn law_decode_inverts_encode(
    binding: SpecBinding,
    bytes: Seq<u8>,
    values: Seq<SpecValue>,
)
    ensures
        binding.decode(bytes) == Some(values) <==> all_admitted(binding.layout, values)
            && binding.encode(values) == bytes,
{
    let width = binding.discriminator.len() as int;
    if binding.decode(bytes) == Some(values) {
        lemma_encode_of_decoded_fields(binding.layout, bytes, width);
        assert(binding.discriminator + bytes.subrange(width, bytes.len() as int) =~= bytes);
    }
    if all_admitted(binding.layout, values) && binding.encode(values) == bytes {
        assert(bytes.subrange(0, width) =~= binding.discriminator);
        assert(bytes.subrange(width, bytes.len() as int) =~= encode_values(values));
        lemma_decode_fields_of_encoded(binding.layout, values, bytes, width);
    }
}

/// What was encoded is decoded as what it was: in a table whose bindings can be
/// told apart, the bytes that `encode` gives for a declared name and a field
/// assignment that the binding's layout admits are taken by
/// `identify_and_decode` for that name and that assignment.
pub proof fn law_round_trip(
    table: SpecTable,
    category: Category,
    name: Seq<char>,
    values: Seq<SpecValue>,
)
    requires
        table.wf(),
        first_named(table.bindings(category), name, 0) is Some,
        all_admitted(
            table.bindings(category)[first_named(table.bindings(category), name, 0).unwrap()].layout,
            values,
        ),
    ensures
        table.encode(category, name, values) is Ok,
        table.identify_and_decode(category, table.encode(category, name, values)->Ok_0) == Ok::<
            SpecVariant,
            SpecDecodeError,
        >(SpecVariant { name, fields: values }),
{
    let bindings = table.bindings(category);
    lemma_first_named(bindings, name, 0);
    let i = first_named(bindings, name, 0).unwrap();
    let binding = bindings[i];
    let bytes = binding.encode(values);
    law_decode_inverts_encode(binding, bytes, values);
    assert(binding.matches(bytes));
    lemma_first_match(bindings, bytes, 0);
    lemma_one_match(bindings, bytes, i, first_match(bindings, bytes, 0).unwrap());
}

/// In a table whose bindings can be told apart, two different bindings of one
/// category have different discriminators.
pub proof fn law_discriminators_differ(table: SpecTable, category: Category, i: int, j: int)
    requires
        table.wf(),
        0 <= i < table.bindings(category).len(),
        0 <= j < table.bindings(category).len(),
        i != j,
    ensures
        table.bindings(category)[i].discriminator != table.bindings(category)[j].discriminator,
{
    let bindings = table.bindings(category);
    assert(distinct_bindings(bindings));
    if i < j {
        assert(bindings[i].discriminator != bindings[j].discriminator);
    } else {
        assert(bindings[j].discriminator != bindings[i].discriminator);
    }
}

/// Every table that a document is bound to has bindings that can be told apart:
/// a document in which two declarations of one category share a name or a
/// discriminator is refused.
pub proof fn law_bound_table_is_wf(doc: SchemaDocument)
    requires
        bind_document(doc) is Ok,
    ensures
        bind_document(doc)->Ok_0.wf(),
{
    assert(well_shaped(doc));
    lemma_bound_decls_distinct(doc, Category::Account);
    lemma_bound_decls_distinct(doc, Category::Instruction);
    assert(bind_document(doc)->Ok_0.accounts == bind_decls(doc, Category::Account));
    assert(bind_document(doc)->Ok_0.instructions == bind_decls(doc, Category::Instruction));
}

/// The earlier declaration wins: where a buffer starts with the discriminators
/// of two bindings, dispatch answers for a binding that is declared no later
/// than the earlier of the two, and so never for the later one. Where none
/// before the earlier one matches, it answers for that one.
pub proof fn law_first_declared_wins(bindings: Seq<SpecBinding>, bytes: Seq<u8>, a: int, b: int)
    requires
        0 <= a < b < bindings.len(),
        bindings[a].matches(bytes),
        bindings[b].matches(bytes),
    ensures
        first_match(bindings, bytes, 0) is Some,
        first_match(bindings, bytes, 0).unwrap() <= a,
        identify(bindings, bytes) == decode_as(
            bindings[first_match(bindings, bytes, 0).unwrap()],
            bytes,
        ),
        (forall|j: int| 0 <= j < a ==> !(#[trigger] bindings[j]).matches(bytes)) ==> identify(
            bindings,
            bytes,
        ) == decode_as(bindings[a], bytes),
{
    lemma_first_match(bindings, bytes, 0);
}

/// A damaged buffer is reported as damaged: where a buffer starts with the
/// discriminator of a binding, no earlier binding matches, and what follows is
/// not the binding's fields, dispatch reports a corrupt payload of that binding,
/// whatever any other binding would make of the bytes.
pub proof fn law_corruption_is_reported(bindings: Seq<SpecBinding>, bytes: Seq<u8>, x: int)
    requires
        0 <= x < bindings.len(),
        bindings[x].matches(bytes),
        forall|j: int| 0 <= j < x ==> !(#[trigger] bindings[j]).matches(bytes),
        bindings[x].decode(bytes) is None,
    ensures
        identify(bindings, bytes) == Err::<SpecVariant, SpecDecodeError>(
            SpecDecodeError::CorruptPayload(bindings[x].name),
        ),
{
    lemma_first_match(bindings, bytes, 0);
}

/// The same in a table whose bindings can be told apart, where no other binding
/// can match.
pub proof fn law_corruption_is_reported_in_table(
    table: SpecTable,
    category: Category,
    bytes: Seq<u8>,
    x: int,
)
    requires
        table.wf(),
        0 <= x < table.bindings(category).len(),
        table.bindings(category)[x].matches(bytes),
        table.bindings(category)[x].decode(bytes) is None,
    ensures
        table.identify_and_decode(category, bytes) == Err::<SpecVariant, SpecDecodeError>(
            SpecDecodeError::CorruptPayload(table.bindings(category)[x].name),
        ),
{
    let bindings = table.bindings(category);
    lemma_first_match(bindings, bytes, 0);
    lemma_one_match(bindings, bytes, x, first_match(bindings, bytes, 0).unwrap());
}

/// A buffer is of no known variant exactly where it starts with the
/// discriminator of no binding.
pub proof fn law_unknown_variant(bindings: Seq<SpecBinding>, bytes: Seq<u8>)
    ensures
        (forall|i: int| 0 <= i < bindings.len() ==> !(#[trigger] bindings[i]).matches(bytes))
            <==> identify(bindings, bytes) == Err::<SpecVariant, SpecDecodeError>(
            SpecDecodeError::UnknownVariant,
        ),
{
    lemma_first_match(bindings, bytes, 0);
}

} // verus!
