//! What it means for the declarations of a document to have layouts: that their
//! nesting is well founded.
//!
//! The binder gives a declaration a layout by following the names in its fields,
//! at most as deep as the document has declarations. This module states the
//! same without a depth: the declarations can be ranked so that each nests only
//! declarations of lower rank.
use crate::binder::{
    bind_field, bind_fields, bind_layout, bind_type, depth_limit, find_decl, resolve_name,
};
use crate::schema::{Category, FieldSpec, FieldType, SchemaDocument, TypeDecl};
use vstd::prelude::*;

verus! {

/// Whether every declaration that `ty` names, in a declaration of the collection
/// `home`, has a rank below `bound`.
pub open spec fn nests_below(
    doc: SchemaDocument,
    home: Category,
    ty: FieldType,
    rank: spec_fn(Category, int) -> nat,
    bound: nat,
) -> bool
    decreases ty,
{
    match ty {
        FieldType::Primitive(_) => true,
        FieldType::Sequence(item) => nests_below(doc, home, *item, rank, bound),
        FieldType::Defined(name) => match resolve_name(doc, home, name@) {
            Some((category, i)) => rank(category, i) < bound,
            None => false,
        },
    }
}

/// Whether a fixed size stands only on sequences.
pub open spec fn sizes_on_sequences(fields: Seq<FieldSpec>) -> bool {
    forall|j: int|
        0 <= j < fields.len() && (#[trigger] fields[j]).size is Some ==> fields[j].ty is Sequence
}

/// Whether each declaration of the collection `home` has a rank of at most the
/// number of declarations, names only declarations of lower rank, and has its
/// fixed sizes on sequences.
pub open spec fn collection_ranked(
    doc: SchemaDocument,
    home: Category,
    rank: spec_fn(Category, int) -> nat,
) -> bool {
    forall|i: int|
        0 <= i < doc.decls(home).len() ==> {
            &&& rank(home, i) <= depth_limit(doc)
            &&& sizes_on_sequences((#[trigger] doc.decls(home)[i]).fields@)
            &&& forall|j: int|
                0 <= j < doc.decls(home)[i].fields@.len() ==> nests_below(
                    doc,
                    home,
                    #[trigger] doc.decls(home)[i].fields@[j].ty,
                    rank,
                    rank(home, i),
                )
        }
}

/// Whether `rank` ranks the declarations of the document so that each nests only
/// declarations of lower rank.
pub open spec fn ranked(doc: SchemaDocument, rank: spec_fn(Category, int) -> nat) -> bool {
    collection_ranked(doc, Category::Account, rank) && collection_ranked(
        doc,
        Category::Instruction,
        rank,
    )
}

/// Whether the fields of the declaration `i` of the collection `home` have
/// layouts when named types nest at most `depth` deep.
pub open spec fn binds_at(doc: SchemaDocument, home: Category, i: int, depth: nat) -> bool {
    bind_fields(doc, home, doc.decls(home)[i].fields@, 0, depth) is Some
}

/// The least depth at which the declaration has a layout.
pub open spec fn least_depth(doc: SchemaDocument, home: Category, i: int) -> nat {
    choose|depth: nat|
        binds_at(doc, home, i, depth) && forall|less: nat|
            less < depth ==> !binds_at(doc, home, i, less)
}

/// A found declaration is one of the declarations.
pub proof fn lemma_find_decl_in_range(decls: Seq<TypeDecl>, name: Seq<char>, start: nat)
    ensures
        find_decl(decls, name, start) matches Some(i) ==> start <= i < decls.len(),
    decreases decls.len() - start,
{
    if start < decls.len() && decls[start as int].name@ != name {
        lemma_find_decl_in_range(decls, name, start + 1);
    }
}

/// A resolved name stands for one of the declarations.
pub proof fn lemma_resolved_in_range(doc: SchemaDocument, home: Category, name: Seq<char>)
    ensures
        resolve_name(doc, home, name) matches Some((category, i)) ==> 0 <= i < doc.decls(
            category,
        ).len(),
{
    lemma_find_decl_in_range(doc.decls(home), name, 0);
    lemma_find_decl_in_range(doc.decls(home.other()), name, 0);
}

/// In a ranked document, a type that names only declarations below `bound` has a
/// layout at every depth from `bound` on.
proof fn lemma_ranked_binds_type(
    doc: SchemaDocument,
    home: Category,
    ty: FieldType,
    depth: nat,
    bound: nat,
    rank: spec_fn(Category, int) -> nat,
)
    requires
        ranked(doc, rank),
        nests_below(doc, home, ty, rank, bound),
        bound <= depth,
    ensures
        bind_type(doc, home, ty, depth) is Some,
    decreases depth, 0nat, 0nat, ty,
{
    match ty {
        FieldType::Primitive(_) => {},
        FieldType::Sequence(item) => {
            lemma_ranked_binds_type(doc, home, *item, depth, bound, rank);
        },
        FieldType::Defined(name) => {
            lemma_resolved_in_range(doc, home, name@);
            let (category, i) = resolve_name(doc, home, name@).unwrap();
            lemma_ranked_binds_fields(doc, category, i, 0, (depth - 1) as nat, rank);
        },
    }
}

/// In a ranked document, the fields of a declaration have layouts at every depth
/// from the declaration's rank on.
proof fn lemma_ranked_binds_fields(
    doc: SchemaDocument,
    home: Category,
    i: int,
    start: nat,
    depth: nat,
    rank: spec_fn(Category, int) -> nat,
)
    requires
        ranked(doc, rank),
        0 <= i < doc.decls(home).len(),
        rank(home, i) <= depth,
        start <= doc.decls(home)[i].fields@.len(),
    ensures
        bind_fields(doc, home, doc.decls(home)[i].fields@, start, depth) is Some,
    decreases depth, 2nat, doc.decls(home)[i].fields@.len() - start,
{
    let fields = doc.decls(home)[i].fields@;
    assert(collection_ranked(doc, home, rank));
    assert(sizes_on_sequences(fields));
    if start < fields.len() {
        let field = fields[start as int];
        assert(nests_below(doc, home, field.ty, rank, rank(home, i)));
        match field.size {
            None => {
                lemma_ranked_binds_type(doc, home, field.ty, depth, rank(home, i), rank);
            },
            Some(count) => {
                match field.ty {
                    FieldType::Sequence(item) => {
                        lemma_ranked_binds_type(doc, home, *item, depth, rank(home, i), rank);
                    },
                    _ => {},
                }
            },
        }
        assert(bind_field(doc, home, field, depth) is Some);
        lemma_ranked_binds_fields(doc, home, i, start + 1, depth, rank);
    }
}

/// A layout that is found at one depth is found at every greater depth.
proof fn lemma_deeper_binds_type(doc: SchemaDocument, home: Category, ty: FieldType, depth: nat)
    requires
        bind_type(doc, home, ty, depth) is Some,
    ensures
        bind_type(doc, home, ty, depth + 1) == bind_type(doc, home, ty, depth),
    decreases depth, 0nat, 0nat, ty,
{
    match ty {
        FieldType::Primitive(_) => {},
        FieldType::Sequence(item) => {
            lemma_deeper_binds_type(doc, home, *item, depth);
        },
        FieldType::Defined(name) => {
            let (category, i) = resolve_name(doc, home, name@).unwrap();
            lemma_deeper_binds_fields(
                doc,
                category,
                doc.decls(category)[i].fields@,
                0,
                (depth - 1) as nat,
            );
        },
    }
}

/// The same for the fields of a declaration.
proof fn lemma_deeper_binds_fields(
    doc: SchemaDocument,
    home: Category,
    fields: Seq<FieldSpec>,
    start: nat,
    depth: nat,
)
    requires
        bind_fields(doc, home, fields, start, depth) is Some,
    ensures
        bind_fields(doc, home, fields, start, depth + 1) == bind_fields(
            doc,
            home,
            fields,
            start,
            depth,
        ),
    decreases depth, 2nat, fields.len() - start,
{
    if start < fields.len() {
        let field = fields[start as int];
        match field.size {
            None => {
                lemma_deeper_binds_type(doc, home, field.ty, depth);
            },
            Some(count) => {
                match field.ty {
                    FieldType::Sequence(item) => {
                        lemma_deeper_binds_type(doc, home, *item, depth);
                    },
                    _ => {},
                }
            },
        }
        assert(bind_field(doc, home, field, depth + 1) == bind_field(doc, home, field, depth));
        lemma_deeper_binds_fields(doc, home, fields, start + 1, depth);
    }
}

/// A declaration that has a layout at some depth has a least such depth.
proof fn lemma_least_depth(doc: SchemaDocument, home: Category, i: int, depth: nat)
    requires
        binds_at(doc, home, i, depth),
    ensures
        binds_at(doc, home, i, least_depth(doc, home, i)),
        forall|less: nat| less < least_depth(doc, home, i) ==> !binds_at(doc, home, i, less),
        least_depth(doc, home, i) <= depth,
    decreases depth,
{
    if exists|less: nat| less < depth && binds_at(doc, home, i, less) {
        let less = choose|less: nat| less < depth && binds_at(doc, home, i, less);
        lemma_least_depth(doc, home, i, less);
    } else {
        assert(binds_at(doc, home, i, depth) && forall|less: nat|
            less < depth ==> !binds_at(doc, home, i, less));
    }
}

/// Where a type has a layout at a depth, each declaration that it names has one
/// at the depth below.
proof fn lemma_bound_type_nests(doc: SchemaDocument, home: Category, ty: FieldType, depth: nat)
    requires
        bind_type(doc, home, ty, depth) is Some,
        forall|c: Category, k: int, d: nat|
            0 <= k < doc.decls(c).len() && #[trigger] binds_at(doc, c, k, d) ==> least_depth(
                doc,
                c,
                k,
            ) <= d,
    ensures
        nests_below(doc, home, ty, |c: Category, k: int| least_depth(doc, c, k), depth),
    decreases ty,
{
    match ty {
        FieldType::Primitive(_) => {},
        FieldType::Sequence(item) => {
            lemma_bound_type_nests(doc, home, *item, depth);
        },
        FieldType::Defined(name) => {
            lemma_resolved_in_range(doc, home, name@);
            let (category, i) = resolve_name(doc, home, name@).unwrap();
            assert(binds_at(doc, category, i, (depth - 1) as nat));
        },
    }
}

/// Where the fields of a declaration have layouts, each of them has one.
proof fn lemma_each_field_binds(
    doc: SchemaDocument,
    home: Category,
    fields: Seq<FieldSpec>,
    start: nat,
    depth: nat,
    j: int,
)
    requires
        bind_fields(doc, home, fields, start, depth) is Some,
        start <= j < fields.len(),
    ensures
        bind_field(doc, home, fields[j], depth) is Some,
    decreases fields.len() - start,
{
    if start < j {
        lemma_each_field_binds(doc, home, fields, start + 1, depth, j);
    }
}

/// The declarations of a document all have layouts exactly where a fixed size
/// stands only on sequences and the nesting of the declarations is well founded:
/// where they can be ranked, by numbers up to the number of declarations, so
/// that each nests only declarations of lower rank.
pub proof fn law_layouts_are_well_founded_nesting(doc: SchemaDocument)
    ensures
        (forall|c: Category, i: int|
            0 <= i < doc.decls(c).len() ==> #[trigger] bind_layout(doc, c, doc.decls(c)[i])
                is Some) <==> exists|rank: spec_fn(Category, int) -> nat| ranked(doc, rank),
{
    let all_bind = forall|c: Category, i: int|
        0 <= i < doc.decls(c).len() ==> #[trigger] bind_layout(doc, c, doc.decls(c)[i]) is Some;
    if exists|rank: spec_fn(Category, int) -> nat| ranked(doc, rank) {
        let rank = choose|rank: spec_fn(Category, int) -> nat| ranked(doc, rank);
        assert forall|c: Category, i: int| 0 <= i < doc.decls(c).len() implies #[trigger] bind_layout(
            doc,
            c,
            doc.decls(c)[i],
        ) is Some by {
            assert(collection_ranked(doc, c, rank));
            lemma_ranked_binds_fields(doc, c, i, 0, depth_limit(doc), rank);
        }
    }
    if all_bind {
        let rank = |c: Category, k: int| least_depth(doc, c, k);
        assert forall|c: Category, k: int, d: nat|
            0 <= k < doc.decls(c).len() && #[trigger] binds_at(doc, c, k, d) implies least_depth(
            doc,
            c,
            k,
        ) <= d by {
            lemma_least_depth(doc, c, k, d);
        }
        assert forall|c: Category| #[trigger] collection_ranked(doc, c, rank) by {
            assert forall|i: int| 0 <= i < doc.decls(c).len() implies {
                &&& rank(c, i) <= depth_limit(doc)
                &&& sizes_on_sequences((#[trigger] doc.decls(c)[i]).fields@)
                &&& forall|j: int|
                    0 <= j < doc.decls(c)[i].fields@.len() ==> nests_below(
                        doc,
                        c,
                        #[trigger] doc.decls(c)[i].fields@[j].ty,
                        rank,
                        rank(c, i),
                    )
            } by {
                let fields = doc.decls(c)[i].fields@;
                assert(bind_layout(doc, c, doc.decls(c)[i]) is Some);
                assert(binds_at(doc, c, i, depth_limit(doc)));
                lemma_least_depth(doc, c, i, depth_limit(doc));
                let least = least_depth(doc, c, i);
                assert forall|j: int|
                    0 <= j < fields.len() && (#[trigger] fields[j]).size is Some implies fields[j].ty
                    is Sequence by {
                    lemma_each_field_binds(doc, c, fields, 0, least, j);
                }
                assert forall|j: int| 0 <= j < fields.len() implies nests_below(
                    doc,
                    c,
                    #[trigger] fields[j].ty,
                    rank,
                    rank(c, i),
                ) by {
                    lemma_each_field_binds(doc, c, fields, 0, least, j);
                    match fields[j].size {
                        None => {
                            lemma_bound_type_nests(doc, c, fields[j].ty, least);
                        },
                        Some(count) => {
                            match fields[j].ty {
                                FieldType::Sequence(item) => {
                                    lemma_bound_type_nests(doc, c, *item, least);
                                },
                                _ => {},
                            }
                        },
                    }
                }
            }
        }
        assert(ranked(doc, rank));
    }
}

} // verus!
