//! Binding a schema document: from its declarations to a binding table.
//!
//! A document is bound as a whole or not at all. The names of each collection
//! must differ, every type that a field names must be declared in the document,
//! and the document must have the shape of a schema: the fields of a declaration
//! have different names, a fixed size stands only on a sequence, the
//! discriminators of a collection differ, and no declaration nests itself.
use crate::schema::{
    Category, FieldSpec, FieldType, SchemaDocument, SchemaError, TypeDecl, DISCRIMINATOR_LEN,
};
use crate::table::{bindings_view, BindingTable, SpecBinding, SpecTable, TypeBinding};
use crate::value::{layouts_view, Layout, SpecLayout};
use vstd::prelude::*;

verus! {

/// The first declaration from index `start` on that has the name `name`.
pub open spec fn find_decl(decls: Seq<TypeDecl>, name: Seq<char>, start: nat) -> Option<int>
    decreases decls.len() - start,
{
    if start >= decls.len() {
        None
    } else if decls[start as int].name@ == name {
        Some(start as int)
    } else {
        find_decl(decls, name, start + 1)
    }
}

/// The declaration that the name `name` stands for in a declaration of the
/// collection `home`: the one of that name in `home`, or else the one in the
/// other collection.
pub open spec fn resolve_name(doc: SchemaDocument, home: Category, name: Seq<char>) -> Option<
    (Category, int),
> {
    match find_decl(doc.decls(home), name, 0) {
        Some(i) => Some((home, i)),
        None => match find_decl(doc.decls(home.other()), name, 0) {
            Some(i) => Some((home.other(), i)),
            None => None,
        },
    }
}

/// Whether the document declares a type of the name `name`, in either
/// collection.
pub open spec fn declares(doc: SchemaDocument, name: Seq<char>) -> bool {
    find_decl(doc.accounts@, name, 0) is Some || find_decl(doc.instructions@, name, 0) is Some
}

/// Whether the document declares every type that `ty` names.
pub open spec fn type_resolves(doc: SchemaDocument, ty: FieldType) -> bool
    decreases ty,
{
    match ty {
        FieldType::Primitive(_) => true,
        FieldType::Defined(name) => declares(doc, name@),
        FieldType::Sequence(item) => type_resolves(doc, *item),
    }
}

/// Whether the document declares every type that a field of `decls` names.
pub open spec fn decls_resolve(doc: SchemaDocument, decls: Seq<TypeDecl>) -> bool {
    forall|i: int, j: int|
        0 <= i < decls.len() && 0 <= j < decls[i].fields@.len() ==> type_resolves(
            doc,
            #[trigger] decls[i].fields@[j].ty,
        )
}

/// Whether no two of `decls` have one name.
pub open spec fn names_distinct(decls: Seq<TypeDecl>) -> bool {
    forall|i: int, j: int|
        0 <= i < j < decls.len() ==> (#[trigger] decls[i]).name@ != (#[trigger] decls[j]).name@
}

/// Whether no two of `decls` have one discriminator.
pub open spec fn discriminators_distinct(decls: Seq<TypeDecl>) -> bool {
    forall|i: int, j: int|
        0 <= i < j < decls.len() ==> (#[trigger] decls[i]).discriminator@ != (
        #[trigger] decls[j]).discriminator@
}

/// Whether no two of `fields` have one name.
pub open spec fn field_names_distinct(fields: Seq<FieldSpec>) -> bool {
    forall|i: int, j: int|
        0 <= i < j < fields.len() ==> (#[trigger] fields[i]).name@ != (#[trigger] fields[j]).name@
}

/// How deep declarations may nest: the number of declarations in the document.
/// A chain of nested declarations that is longer than this holds one of them
/// twice.
pub open spec fn depth_limit(doc: SchemaDocument) -> nat {
    doc.accounts@.len() + doc.instructions@.len()
}

/// The layout of the type `ty` in a declaration of the collection `home`, with
/// named types nesting at most `depth` deep.
pub open spec fn bind_type(doc: SchemaDocument, home: Category, ty: FieldType, depth: nat)
    -> Option<SpecLayout>
    decreases depth, 0nat, 0nat, ty,
{
    match ty {
        FieldType::Primitive(kind) => Some(SpecLayout::Primitive(kind)),
        FieldType::Sequence(item) => match bind_type(doc, home, *item, depth) {
            Some(layout) => Some(SpecLayout::List(Box::new(layout))),
            None => None,
        },
        FieldType::Defined(name) => {
            if depth == 0 {
                None
            } else {
                match resolve_name(doc, home, name@) {
                    Some((category, i)) => match bind_fields(
                        doc,
                        category,
                        doc.decls(category)[i].fields@,
                        0,
                        (depth - 1) as nat,
                    ) {
                        Some(layouts) => Some(SpecLayout::Record(layouts)),
                        None => None,
                    },
                    None => None,
                }
            }
        },
    }
}

/// The layout of one field: that of its type, or, where the field has a fixed
/// size, an array of that many items of the sequence's item type. A fixed size
/// on anything but a sequence has no layout.
pub open spec fn bind_field(doc: SchemaDocument, home: Category, field: FieldSpec, depth: nat)
    -> Option<SpecLayout>
    decreases depth, 1nat, 0nat,
{
    match field.size {
        None => bind_type(doc, home, field.ty, depth),
        Some(count) => match field.ty {
            FieldType::Sequence(item) => match bind_type(doc, home, *item, depth) {
                Some(layout) => Some(SpecLayout::Array(Box::new(layout), count as nat)),
                None => None,
            },
            _ => None,
        },
    }
}

/// The layouts of `fields` from index `start` on.
pub open spec fn bind_fields(
    doc: SchemaDocument,
    home: Category,
    fields: Seq<FieldSpec>,
    start: nat,
    depth: nat,
) -> Option<Seq<SpecLayout>>
    decreases depth, 2nat, fields.len() - start,
{
    if start >= fields.len() {
        Some(Seq::empty())
    } else {
        match bind_field(doc, home, fields[start as int], depth) {
            Some(first) => match bind_fields(doc, home, fields, start + 1, depth) {
                Some(rest) => Some(seq![first] + rest),
                None => None,
            },
            None => None,
        }
    }
}

/// The layouts of the fields of `decl`, a declaration of the collection `home`.
pub open spec fn bind_layout(doc: SchemaDocument, home: Category, decl: TypeDecl) -> Option<
    Seq<SpecLayout>,
> {
    bind_fields(doc, home, decl.fields@, 0, depth_limit(doc))
}

/// Whether each of `decls`, declarations of the collection `home`, has fields of
/// different names and a layout.
pub open spec fn decls_shaped(doc: SchemaDocument, home: Category, decls: Seq<TypeDecl>) -> bool {
    forall|i: int|
        0 <= i < decls.len() ==> field_names_distinct((#[trigger] decls[i]).fields@)
            && bind_layout(doc, home, decls[i]) is Some
}

/// Whether the document has the shape of a schema.
pub open spec fn well_shaped(doc: SchemaDocument) -> bool {
    &&& discriminators_distinct(doc.accounts@)
    &&& discriminators_distinct(doc.instructions@)
    &&& decls_shaped(doc, Category::Account, doc.accounts@)
    &&& decls_shaped(doc, Category::Instruction, doc.instructions@)
}

/// The binding of `decl`, a declaration of the collection `home`.
pub open spec fn bind_decl(doc: SchemaDocument, home: Category, decl: TypeDecl) -> SpecBinding {
    SpecBinding {
        name: decl.name@,
        discriminator: decl.discriminator@,
        fields: decl.fields@,
        layout: bind_layout(doc, home, decl).unwrap(),
    }
}

/// The bindings of the collection `home`, in declaration order.
pub open spec fn bind_decls(doc: SchemaDocument, home: Category) -> Seq<SpecBinding> {
    Seq::new(doc.decls(home).len(), |i: int| bind_decl(doc, home, doc.decls(home)[i]))
}

/// What binding the document gives: its table, or the reason why it has none.
/// Names are looked at first, then references, then the shape.
pub open spec fn bind_document(doc: SchemaDocument) -> Result<SpecTable, SchemaError> {
    if !names_distinct(doc.accounts@) || !names_distinct(doc.instructions@) {
        Err(SchemaError::DuplicateName)
    } else if !decls_resolve(doc, doc.accounts@) || !decls_resolve(doc, doc.instructions@) {
        Err(SchemaError::UnresolvedReference)
    } else if !well_shaped(doc) {
        Err(SchemaError::Malformed)
    } else {
        Ok(
            SpecTable {
                accounts: bind_decls(doc, Category::Account),
                instructions: bind_decls(doc, Category::Instruction),
            },
        )
    }
}

/// A layout list has one layout for each field that it was made from.
pub proof fn lemma_bind_fields_len(
    doc: SchemaDocument,
    home: Category,
    fields: Seq<FieldSpec>,
    start: nat,
    depth: nat,
)
    requires
        start <= fields.len(),
        bind_fields(doc, home, fields, start, depth) is Some,
    ensures
        bind_fields(doc, home, fields, start, depth).unwrap().len() == fields.len() - start,
    decreases fields.len() - start,
{
    if start < fields.len() {
        lemma_bind_fields_len(doc, home, fields, start + 1, depth);
    }
}

/// The index of the first of `decls` that has the name `name`.
fn find(decls: &Vec<TypeDecl>, name: &String) -> (at: Option<usize>)
    ensures
        match at {
            Some(i) => find_decl(decls@, name@, 0) == Some(i as int) && i < decls@.len(),
            None => find_decl(decls@, name@, 0) is None,
        },
{
    let mut i: usize = 0;
    while i < decls.len()
        invariant
            i <= decls.len(),
            find_decl(decls@, name@, 0) == find_decl(decls@, name@, i as nat),
        decreases decls.len() - i,
    {
        if decls[i].name == *name {
            return Some(i);
        }
        i = i + 1;
    }
    None
}

/// The declaration that `name` stands for in a declaration of `home`.
fn resolve(doc: &SchemaDocument, home: Category, name: &String) -> (at: Option<(Category, usize)>)
    ensures
        match at {
            Some((category, i)) => resolve_name(*doc, home, name@) == Some((category, i as int))
                && i < doc.decls(category).len(),
            None => resolve_name(*doc, home, name@) is None,
        },
{
    match find(doc.declarations(home), name) {
        Some(i) => Some((home, i)),
        None => match find(doc.declarations(home.other()), name) {
            Some(i) => Some((home.other(), i)),
            None => None,
        },
    }
}

/// Whether the document declares every type that `ty` names.
fn resolves(doc: &SchemaDocument, ty: &FieldType) -> (ok: bool)
    ensures
        ok == type_resolves(*doc, *ty),
    decreases ty,
{
    match ty {
        FieldType::Primitive(_) => true,
        FieldType::Defined(name) => resolve(doc, Category::Account, name).is_some(),
        FieldType::Sequence(item) => resolves(doc, item),
    }
}

/// Whether the document declares every type that a field of `decls` names.
fn all_resolve(doc: &SchemaDocument, decls: &Vec<TypeDecl>) -> (ok: bool)
    ensures
        ok == decls_resolve(*doc, decls@),
{
    let mut i: usize = 0;
    while i < decls.len()
        invariant
            i <= decls.len(),
            forall|a: int, b: int|
                0 <= a < i && 0 <= b < decls@[a].fields@.len() ==> type_resolves(
                    *doc,
                    #[trigger] decls@[a].fields@[b].ty,
                ),
        decreases decls.len() - i,
    {
        let fields = &decls[i].fields;
        let mut j: usize = 0;
        while j < fields.len()
            invariant
                i < decls.len(),
                j <= fields.len(),
                fields@ == decls@[i as int].fields@,
                forall|b: int| 0 <= b < j ==> type_resolves(*doc, #[trigger] fields@[b].ty),
            decreases fields.len() - j,
        {
            if !resolves(doc, &fields[j].ty) {
                assert(!type_resolves(*doc, decls@[i as int].fields@[j as int].ty));
                return false;
            }
            j = j + 1;
        }
        i = i + 1;
    }
    true
}

/// Whether no two of `decls` have one name.
fn distinct_names(decls: &Vec<TypeDecl>) -> (ok: bool)
    ensures
        ok == names_distinct(decls@),
{
    let mut j: usize = 0;
    while j < decls.len()
        invariant
            j <= decls.len(),
            forall|a: int, b: int|
                0 <= a < b < j ==> (#[trigger] decls@[a]).name@ != (#[trigger] decls@[b]).name@,
        decreases decls.len() - j,
    {
        let mut i: usize = 0;
        while i < j
            invariant
                i <= j < decls.len(),
                forall|a: int| 0 <= a < i ==> (#[trigger] decls@[a]).name@ != decls@[j as int].name@,
            decreases j - i,
        {
            if decls[i].name == decls[j].name {
                return false;
            }
            i = i + 1;
        }
        j = j + 1;
    }
    true
}

/// Whether no two of `fields` have one name.
fn distinct_field_names(fields: &Vec<FieldSpec>) -> (ok: bool)
    ensures
        ok == field_names_distinct(fields@),
{
    let mut j: usize = 0;
    while j < fields.len()
        invariant
            j <= fields.len(),
            forall|a: int, b: int|
                0 <= a < b < j ==> (#[trigger] fields@[a]).name@ != (#[trigger] fields@[b]).name@,
        decreases fields.len() - j,
    {
        let mut i: usize = 0;
        while i < j
            invariant
                i <= j < fields.len(),
                forall|a: int|
                    0 <= a < i ==> (#[trigger] fields@[a]).name@ != fields@[j as int].name@,
            decreases j - i,
        {
            if fields[i].name == fields[j].name {
                return false;
            }
            i = i + 1;
        }
        j = j + 1;
    }
    true
}

/// Whether two discriminators hold the same bytes.
fn same_discriminator(a: &[u8; DISCRIMINATOR_LEN], b: &[u8; DISCRIMINATOR_LEN]) -> (same: bool)
    ensures
        same == (a@ == b@),
{
    let mut i: usize = 0;
    while i < DISCRIMINATOR_LEN
        invariant
            i <= DISCRIMINATOR_LEN,
            a@.len() == DISCRIMINATOR_LEN,
            b@.len() == DISCRIMINATOR_LEN,
            forall|k: int| 0 <= k < i ==> a@[k] == b@[k],
        decreases DISCRIMINATOR_LEN - i,
    {
        if a[i] != b[i] {
            assert(a@[i as int] != b@[i as int]);
            return false;
        }
        i = i + 1;
    }
    assert(a@ =~= b@);
    true
}

/// Whether no two of `decls` have one discriminator.
fn distinct_discriminators(decls: &Vec<TypeDecl>) -> (ok: bool)
    ensures
        ok == discriminators_distinct(decls@),
{
    let mut j: usize = 0;
    while j < decls.len()
        invariant
            j <= decls.len(),
            forall|a: int, b: int|
                0 <= a < b < j ==> (#[trigger] decls@[a]).discriminator@ != (
                #[trigger] decls@[b]).discriminator@,
        decreases decls.len() - j,
    {
        let mut i: usize = 0;
        while i < j
            invariant
                i <= j < decls.len(),
                forall|a: int|
                    0 <= a < i ==> (#[trigger] decls@[a]).discriminator@
                        != decls@[j as int].discriminator@,
            decreases j - i,
        {
            if same_discriminator(&decls[i].discriminator, &decls[j].discriminator) {
                return false;
            }
            i = i + 1;
        }
        j = j + 1;
    }
    true
}

/// The layout of `ty` in a declaration of `home`.
fn layout_of_type(doc: &SchemaDocument, home: Category, ty: &FieldType, depth: u128) -> (bound:
    Option<Layout>)
    ensures
        match bound {
            Some(layout) => bind_type(*doc, home, *ty, depth as nat) == Some(layout@),
            None => bind_type(*doc, home, *ty, depth as nat) is None,
        },
    decreases depth, 0nat, 0nat, ty,
{
    match ty {
        FieldType::Primitive(kind) => Some(Layout::Primitive(*kind)),
        FieldType::Sequence(item) => match layout_of_type(doc, home, item, depth) {
            Some(layout) => Some(Layout::List(Box::new(layout))),
            None => None,
        },
        FieldType::Defined(name) => {
            if depth == 0 {
                return None;
            }
            match resolve(doc, home, name) {
                Some((category, i)) => {
                    let decls = doc.declarations(category);
                    match layouts_of_fields(doc, category, &decls[i].fields, depth - 1) {
                        Some(layouts) => Some(Layout::Record(layouts)),
                        None => None,
                    }
                },
                None => None,
            }
        },
    }
}

/// The layout of one field of a declaration of `home`.
fn layout_of_field(doc: &SchemaDocument, home: Category, field: &FieldSpec, depth: u128) -> (bound:
    Option<Layout>)
    ensures
        match bound {
            Some(layout) => bind_field(*doc, home, *field, depth as nat) == Some(layout@),
            None => bind_field(*doc, home, *field, depth as nat) is None,
        },
    decreases depth, 1nat,
{
    match field.size {
        None => layout_of_type(doc, home, &field.ty, depth),
        Some(count) => match &field.ty {
            FieldType::Sequence(item) => match layout_of_type(doc, home, item, depth) {
                Some(layout) => Some(Layout::Array(Box::new(layout), count)),
                None => None,
            },
            _ => None,
        },
    }
}

/// The layouts of the fields of a declaration of `home`.
fn layouts_of_fields(doc: &SchemaDocument, home: Category, fields: &Vec<FieldSpec>, depth: u128)
    -> (bound: Option<Vec<Layout>>)
    ensures
        match bound {
            Some(layouts) => bind_fields(*doc, home, fields@, 0, depth as nat) == Some(
                layouts_view(layouts@),
            ),
            None => bind_fields(*doc, home, fields@, 0, depth as nat) is None,
        },
    decreases depth, 2nat,
{
    let mut layouts: Vec<Layout> = Vec::new();
    let mut i: usize = 0;
    while i < fields.len()
        invariant
            i <= fields.len(),
            bind_fields(*doc, home, fields@, 0, depth as nat) == match bind_fields(
                *doc,
                home,
                fields@,
                i as nat,
                depth as nat,
            ) {
                Some(rest) => Some(layouts_view(layouts@) + rest),
                None => None,
            },
        decreases fields.len() - i,
    {
        match layout_of_field(doc, home, &fields[i], depth) {
            Some(layout) => {
                let ghost done = layouts_view(layouts@);
                layouts.push(layout);
                proof {
                    assert(layouts_view(layouts@) =~= done + seq![layout@]);
                    match bind_fields(*doc, home, fields@, (i + 1) as nat, depth as nat) {
                        Some(rest) => {
                            assert(done + (seq![layout@] + rest) =~= layouts_view(layouts@) + rest);
                        },
                        None => {},
                    }
                }
            },
            None => {
                return None;
            },
        }
        i = i + 1;
    }
    assert(layouts_view(layouts@) + Seq::<SpecLayout>::empty() =~= layouts_view(layouts@));
    Some(layouts)
}

/// A copy of `fields`.
fn copy_fields(fields: &Vec<FieldSpec>) -> (copy: Vec<FieldSpec>)
    ensures
        copy@ == fields@,
{
    let mut copy: Vec<FieldSpec> = Vec::new();
    let mut i: usize = 0;
    while i < fields.len()
        invariant
            i <= fields.len(),
            copy@ == fields@.subrange(0, i as int),
        decreases fields.len() - i,
    {
        let field = &fields[i];
        copy.push(field.clone());
        assert(copy@ =~= fields@.subrange(0, i + 1));
        i = i + 1;
    }
    assert(copy@ =~= fields@);
    copy
}

/// The bindings of the collection `home`, where each of its declarations has the
/// shape of one.
fn bind_category(doc: &SchemaDocument, home: Category, depth: u128) -> (bound: Option<
    Vec<TypeBinding>,
>)
    requires
        depth == depth_limit(*doc),
    ensures
        match bound {
            Some(bindings) => decls_shaped(*doc, home, doc.decls(home)) && bindings_view(
                bindings@,
            ) == bind_decls(*doc, home),
            None => !decls_shaped(*doc, home, doc.decls(home)),
        },
{
    let decls = doc.declarations(home);
    let mut bindings: Vec<TypeBinding> = Vec::new();
    let mut i: usize = 0;
    while i < decls.len()
        invariant
            i <= decls.len(),
            decls@ == doc.decls(home),
            depth == depth_limit(*doc),
            bindings@.len() == i,
            forall|k: int|
                0 <= k < i ==> field_names_distinct((#[trigger] decls@[k]).fields@) && bind_layout(
                    *doc,
                    home,
                    decls@[k],
                ) is Some && bindings@[k]@ == bind_decl(*doc, home, decls@[k]),
        decreases decls.len() - i,
    {
        let decl = &decls[i];
        if !distinct_field_names(&decl.fields) {
            return None;
        }
        match layouts_of_fields(doc, home, &decl.fields, depth) {
            Some(layout) => {
                bindings.push(
                    TypeBinding {
                        name: decl.name.clone(),
                        discriminator: decl.discriminator,
                        fields: copy_fields(&decl.fields),
                        layout,
                    },
                );
            },
            None => {
                return None;
            },
        }
        i = i + 1;
    }
    assert(bindings_view(bindings@) =~= bind_decls(*doc, home));
    Some(bindings)
}

/// The bindings of one collection of a well-shaped document can be told apart.
pub proof fn lemma_bound_decls_distinct(doc: SchemaDocument, home: Category)
    requires
        names_distinct(doc.decls(home)),
        discriminators_distinct(doc.decls(home)),
        decls_shaped(doc, home, doc.decls(home)),
    ensures
        crate::table::distinct_bindings(bind_decls(doc, home)),
{
    let decls = doc.decls(home);
    let bound = bind_decls(doc, home);
    assert forall|i: int| 0 <= i < bound.len() implies (#[trigger] bound[i]).discriminator.len()
        == DISCRIMINATOR_LEN && bound[i].layout.len() == bound[i].fields.len() by {
        assert(field_names_distinct(decls[i].fields@));
        lemma_bind_fields_len(doc, home, decls[i].fields@, 0, depth_limit(doc));
    }
    assert forall|i: int, j: int| 0 <= i < j < bound.len() implies (#[trigger] bound[i]).name != (
    #[trigger] bound[j]).name by {
        assert(decls[i].name@ != decls[j].name@);
    }
    assert forall|i: int, j: int| 0 <= i < j < bound.len() implies (
    #[trigger] bound[i]).discriminator != (#[trigger] bound[j]).discriminator by {
        assert(decls[i].discriminator@ != decls[j].discriminator@);
    }
}

/// Binds a schema document: makes, from its declarations, the table by which
/// buffers of its accounts and instructions are recognised, decoded and encoded.
///
/// The document is bound as a whole or not at all. It is refused with
/// `DuplicateName` where two declarations of one collection have the same name;
/// else with `UnresolvedReference` where a field names a type that the document
/// does not declare; else with `Malformed` where it has not the shape of a
/// schema. The bindings stand in declaration order.
pub fn generate_cpi_crate(doc: &SchemaDocument) -> (bound: Result<BindingTable, SchemaError>)
    ensures
        match bound {
            Ok(table) => bind_document(*doc) == Ok::<SpecTable, SchemaError>(table@) && table@.wf(),
            Err(error) => bind_document(*doc) == Err::<SpecTable, SchemaError>(error),
        },
{
    if !distinct_names(&doc.accounts) || !distinct_names(&doc.instructions) {
        return Err(SchemaError::DuplicateName);
    }
    if !all_resolve(doc, &doc.accounts) || !all_resolve(doc, &doc.instructions) {
        return Err(SchemaError::UnresolvedReference);
    }
    if !distinct_discriminators(&doc.accounts) || !distinct_discriminators(&doc.instructions) {
        return Err(SchemaError::Malformed);
    }
    let depth: u128 = doc.accounts.len() as u128 + doc.instructions.len() as u128;
    let accounts = match bind_category(doc, Category::Account, depth) {
        Some(bindings) => bindings,
        None => {
            return Err(SchemaError::Malformed);
        },
    };
    let instructions = match bind_category(doc, Category::Instruction, depth) {
        Some(bindings) => bindings,
        None => {
            return Err(SchemaError::Malformed);
        },
    };
    proof {
        lemma_bound_decls_distinct(*doc, Category::Account);
        lemma_bound_decls_distinct(*doc, Category::Instruction);
    }
    Ok(BindingTable { accounts, instructions })
}

} // verus!
