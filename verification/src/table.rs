//! The binding table and the dispatch over it.
//!
//! A buffer is recognised by its leading bytes: the bindings of a category are
//! tried in declaration order, and the first whose discriminator the buffer
//! starts with decides what the buffer is. Its fields are then decoded; a
//! failure there is reported, never passed on to a later binding.
use crate::codec::{decode_fields, encode_values, read_fields, write_values};
use crate::schema::{Category, FieldSpec, DISCRIMINATOR_LEN};
use crate::value::{
    admit_each, all_admitted, all_encodable, layouts_view, lemma_admitted_is_encodable,
    values_view, Layout, SpecLayout, SpecValue, Value,
};
use vstd::prelude::*;

verus! {

/// A declared type, bound: its name, its fields, its discriminator and the layout
/// by which its fields are encoded and decoded.
#[derive(Clone, Debug, PartialEq, Eq)]
pub struct TypeBinding {
    pub name: String,
    pub discriminator: [u8; DISCRIMINATOR_LEN],
    pub fields: Vec<FieldSpec>,
    /// The layout of each field, in declared order.
    pub layout: Vec<Layout>,
}

/// The model of a `TypeBinding`.
pub struct SpecBinding {
    pub name: Seq<char>,
    pub discriminator: Seq<u8>,
    pub fields: Seq<FieldSpec>,
    pub layout: Seq<SpecLayout>,
}

impl View for TypeBinding {
    type V = SpecBinding;

    open spec fn view(&self) -> SpecBinding {
        SpecBinding {
            name: self.name@,
            discriminator: self.discriminator@,
            fields: self.fields@,
            layout: layouts_view(self.layout@),
        }
    }
}

/// The models of `bindings`, in order.
pub open spec fn bindings_view(bindings: Seq<TypeBinding>) -> Seq<SpecBinding> {
    Seq::new(bindings.len(), |i: int| bindings[i]@)
}

impl SpecBinding {
    /// Whether `bytes` starts with the discriminator.
    pub open spec fn matches(self, bytes: Seq<u8>) -> bool {
        self.discriminator.len() <= bytes.len() && bytes.subrange(
            0,
            self.discriminator.len() as int,
        ) == self.discriminator
    }

    /// The discriminator, and behind it the bytes of `values`.
    pub open spec fn encode(self, values: Seq<SpecValue>) -> Seq<u8> {
        self.discriminator + encode_values(values)
    }

    /// The field values that stand behind the discriminator of `bytes`: `None`
    /// where what stands there, as a whole, is not one value for each field.
    pub open spec fn decode(self, bytes: Seq<u8>) -> Option<Seq<SpecValue>> {
        if self.matches(bytes) {
            decode_fields(self.layout, bytes, self.discriminator.len() as int)
        } else {
            None
        }
    }
}

/// A buffer recognised and decoded: which binding it is, and its field values.
#[derive(Clone, Debug, PartialEq, Eq)]
pub struct Variant {
    pub name: String,
    pub fields: Vec<Value>,
}

/// The model of a `Variant`.
pub struct SpecVariant {
    pub name: Seq<char>,
    pub fields: Seq<SpecValue>,
}

impl View for Variant {
    type V = SpecVariant;

    open spec fn view(&self) -> SpecVariant {
        SpecVariant { name: self.name@, fields: values_view(self.fields@) }
    }
}

/// Why a buffer was not decoded, or a value not encoded.
#[derive(Clone, Debug, PartialEq, Eq)]
pub enum DecodeError {
    /// The buffer starts with no discriminator of its category.
    UnknownVariant,
    /// The buffer starts with the discriminator of the named binding, and what
    /// follows is not its fields.
    CorruptPayload(String),
    /// The category has no binding of the name given.
    UnknownName,
}

/// The model of a `DecodeError`.
pub enum SpecDecodeError {
    UnknownVariant,
    CorruptPayload(Seq<char>),
    UnknownName,
}

impl View for DecodeError {
    type V = SpecDecodeError;

    open spec fn view(&self) -> SpecDecodeError {
        match self {
            DecodeError::UnknownVariant => SpecDecodeError::UnknownVariant,
            DecodeError::CorruptPayload(name) => SpecDecodeError::CorruptPayload(name@),
            DecodeError::UnknownName => SpecDecodeError::UnknownName,
        }
    }
}

/// The first binding from index `start` on whose discriminator `bytes` starts with.
pub open spec fn first_match(bindings: Seq<SpecBinding>, bytes: Seq<u8>, start: nat) -> Option<
    int,
>
    decreases bindings.len() - start,
{
    if start >= bindings.len() {
        None
    } else if bindings[start as int].matches(bytes) {
        Some(start as int)
    } else {
        first_match(bindings, bytes, start + 1)
    }
}

/// The first binding from index `start` on that has the name `name`.
pub open spec fn first_named(bindings: Seq<SpecBinding>, name: Seq<char>, start: nat) -> Option<
    int,
>
    decreases bindings.len() - start,
{
    if start >= bindings.len() {
        None
    } else if bindings[start as int].name == name {
        Some(start as int)
    } else {
        first_named(bindings, name, start + 1)
    }
}

/// What `bytes` is taken for once `binding` is known to be its binding: the
/// decoded fields under the binding's name, or a corrupt payload of that name.
pub open spec fn decode_as(binding: SpecBinding, bytes: Seq<u8>) -> Result<
    SpecVariant,
    SpecDecodeError,
> {
    match binding.decode(bytes) {
        Some(fields) => Ok(SpecVariant { name: binding.name, fields }),
        None => Err(SpecDecodeError::CorruptPayload(binding.name)),
    }
}

/// What dispatch over `bindings` makes of `bytes`: what the first binding whose
/// discriminator matches makes of them, whatever the later ones would.
pub open spec fn identify(bindings: Seq<SpecBinding>, bytes: Seq<u8>) -> Result<
    SpecVariant,
    SpecDecodeError,
> {
    match first_match(bindings, bytes, 0) {
        None => Err(SpecDecodeError::UnknownVariant),
        Some(i) => decode_as(bindings[i], bytes),
    }
}

/// The bytes of `values` as the binding of `bindings` named `name`.
pub open spec fn encode_named(
    bindings: Seq<SpecBinding>,
    name: Seq<char>,
    values: Seq<SpecValue>,
) -> Result<Seq<u8>, SpecDecodeError> {
    match first_named(bindings, name, 0) {
        None => Err(SpecDecodeError::UnknownName),
        Some(i) => Ok(bindings[i].encode(values)),
    }
}

/// The bindings of a schema: its accounts and its instructions, in declaration
/// order.
#[derive(Clone, Debug, PartialEq, Eq)]
pub struct BindingTable {
    pub accounts: Vec<TypeBinding>,
    pub instructions: Vec<TypeBinding>,
}

/// The model of a `BindingTable`.
pub struct SpecTable {
    pub accounts: Seq<SpecBinding>,
    pub instructions: Seq<SpecBinding>,
}

impl View for BindingTable {
    type V = SpecTable;

    open spec fn view(&self) -> SpecTable {
        SpecTable {
            accounts: bindings_view(self.accounts@),
            instructions: bindings_view(self.instructions@),
        }
    }
}

/// Whether the bindings of one category can be told apart: no two have one name,
/// no two have one discriminator, and each has a discriminator of the fixed
/// length and a layout for each of its fields.
pub open spec fn distinct_bindings(bindings: Seq<SpecBinding>) -> bool {
    &&& forall|i: int|
        0 <= i < bindings.len() ==> (#[trigger] bindings[i]).discriminator.len() == DISCRIMINATOR_LEN
            && bindings[i].layout.len() == bindings[i].fields.len()
    &&& forall|i: int, j: int|
        0 <= i < j < bindings.len() ==> (#[trigger] bindings[i]).name != (
        #[trigger] bindings[j]).name
    &&& forall|i: int, j: int|
        0 <= i < j < bindings.len() ==> (#[trigger] bindings[i]).discriminator != (
        #[trigger] bindings[j]).discriminator
}

impl SpecTable {
    /// The bindings of one category.
    pub open spec fn bindings(self, category: Category) -> Seq<SpecBinding> {
        match category {
            Category::Account => self.accounts,
            Category::Instruction => self.instructions,
        }
    }

    /// Whether the table is one that a schema document can be bound to.
    pub open spec fn wf(self) -> bool {
        distinct_bindings(self.accounts) && distinct_bindings(self.instructions)
    }

    /// What dispatch makes of `bytes` in one category.
    pub open spec fn identify_and_decode(self, category: Category, bytes: Seq<u8>) -> Result<
        SpecVariant,
        SpecDecodeError,
    > {
        identify(self.bindings(category), bytes)
    }

    /// The bytes of `values` as the binding of `category` named `name`.
    pub open spec fn encode(self, category: Category, name: Seq<char>, values: Seq<SpecValue>)
        -> Result<Seq<u8>, SpecDecodeError> {
        encode_named(self.bindings(category), name, values)
    }
}

impl TypeBinding {
    /// Whether `bytes` starts with the discriminator.
    pub fn matches(&self, bytes: &[u8]) -> (hit: bool)
        ensures
            hit == self@.matches(bytes@),
    {
        if bytes.len() < DISCRIMINATOR_LEN {
            return false;
        }
        let mut i: usize = 0;
        while i < DISCRIMINATOR_LEN
            invariant
                i <= DISCRIMINATOR_LEN <= bytes@.len(),
                self.discriminator@.len() == DISCRIMINATOR_LEN,
                forall|j: int| 0 <= j < i ==> bytes@[j] == self.discriminator@[j],
            decreases DISCRIMINATOR_LEN - i,
        {
            if bytes[i] != self.discriminator[i] {
                assert(bytes@.subrange(0, DISCRIMINATOR_LEN as int)[i as int]
                    != self.discriminator@[i as int]);
                return false;
            }
            i = i + 1;
        }
        assert(bytes@.subrange(0, DISCRIMINATOR_LEN as int) =~= self.discriminator@);
        true
    }

    /// Whether `values` is a field assignment of this binding: one value for each
    /// field, each of the field's layout.
    ///
    /// An assignment that the binding admits can be encoded.
    pub fn admits(&self, values: &Vec<Value>) -> (ok: bool)
        ensures
            ok == all_admitted(self@.layout, values_view(values@)),
            ok ==> all_encodable(values_view(values@)),
    {
        let ok = admit_each(&self.layout, values);
        proof {
            if ok {
                let models = values_view(values@);
                assert forall|i: int| 0 <= i < models.len() implies (
                #[trigger] models[i]).encodable() by {
                    lemma_admitted_is_encodable(self@.layout[i], models[i]);
                }
            }
        }
        ok
    }

    /// The discriminator, and behind it the bytes of `values`.
    pub fn encode(&self, values: &Vec<Value>) -> (bytes: Vec<u8>)
        requires
            all_encodable(values_view(values@)),
        ensures
            bytes@ == self@.encode(values_view(values@)),
    {
        let mut out: Vec<u8> = Vec::new();
        let mut i: usize = 0;
        while i < DISCRIMINATOR_LEN
            invariant
                i <= DISCRIMINATOR_LEN,
                self.discriminator@.len() == DISCRIMINATOR_LEN,
                out@ == self.discriminator@.subrange(0, i as int),
            decreases DISCRIMINATOR_LEN - i,
        {
            out.push(self.discriminator[i]);
            assert(out@ =~= self.discriminator@.subrange(0, i + 1));
            i = i + 1;
        }
        assert(out@ =~= self.discriminator@);
        write_values(values, &mut out);
        out
    }

    /// The field values that stand behind the discriminator of `bytes`.
    pub fn decode(&self, bytes: &[u8]) -> (fields: Option<Vec<Value>>)
        ensures
            match fields {
                Some(values) => self@.decode(bytes@) == Some(values_view(values@)),
                None => self@.decode(bytes@) is None,
            },
    {
        if self.matches(bytes) {
            read_fields(&self.layout, bytes, DISCRIMINATOR_LEN)
        } else {
            None
        }
    }
}

impl BindingTable {
    /// The bindings of one category, in declaration order.
    pub fn bindings(&self, category: Category) -> (bindings: &Vec<TypeBinding>)
        ensures
            bindings_view(bindings@) == self@.bindings(category),
    {
        match category {
            Category::Account => &self.accounts,
            Category::Instruction => &self.instructions,
        }
    }

    /// Says which binding of `category` the buffer `bytes` is, and decodes it.
    ///
    /// The bindings are tried in declaration order. The first whose discriminator
    /// `bytes` starts with is the answer: its fields are decoded from the rest of
    /// the buffer, and if they cannot be, the error names that binding. Where no
    /// discriminator matches, the buffer is of no known variant.
    pub fn identify_and_decode(&self, category: Category, bytes: &[u8]) -> (found: Result<
        Variant,
        DecodeError,
    >)
        ensures
            match found {
                Ok(variant) => self@.identify_and_decode(category, bytes@) == Ok::<
                    SpecVariant,
                    SpecDecodeError,
                >(variant@),
                Err(error) => self@.identify_and_decode(category, bytes@) == Err::<
                    SpecVariant,
                    SpecDecodeError,
                >(error@),
            },
    {
        let bindings = self.bindings(category);
        let ghost models = bindings_view(bindings@);
        let mut i: usize = 0;
        while i < bindings.len()
            invariant
                i <= bindings.len(),
                models == bindings_view(bindings@),
                models == self@.bindings(category),
                first_match(models, bytes@, 0) == first_match(models, bytes@, i as nat),
            decreases bindings.len() - i,
        {
            let binding = &bindings[i];
            assert(models[i as int] == binding@);
            if binding.matches(bytes) {
                return match binding.decode(bytes) {
                    Some(fields) => Ok(Variant { name: binding.name.clone(), fields }),
                    None => Err(DecodeError::CorruptPayload(binding.name.clone())),
                };
            }
            i = i + 1;
        }
        Err(DecodeError::UnknownVariant)
    }

    /// The index of the binding of `category` named `name`.
    pub fn position(&self, category: Category, name: &str) -> (at: Option<usize>)
        ensures
            match at {
                Some(i) => first_named(self@.bindings(category), name@, 0) == Some(i as int) && i
                    < self@.bindings(category).len(),
                None => first_named(self@.bindings(category), name@, 0) is None,
            },
    {
        let bindings = self.bindings(category);
        let ghost models = bindings_view(bindings@);
        let wanted = name.to_owned();
        let mut i: usize = 0;
        while i < bindings.len()
            invariant
                i <= bindings.len(),
                models == bindings_view(bindings@),
                models == self@.bindings(category),
                wanted@ == name@,
                first_named(models, name@, 0) == first_named(models, name@, i as nat),
            decreases bindings.len() - i,
        {
            assert(models[i as int] == bindings@[i as int]@);
            if bindings[i].name == wanted {
                return Some(i);
            }
            i = i + 1;
        }
        None
    }

    /// Encodes `values` as the binding of `category` named `name`: its
    /// discriminator, and behind it the bytes of the values.
    pub fn encode(&self, category: Category, name: &str, values: &Vec<Value>) -> (bytes: Result<
        Vec<u8>,
        DecodeError,
    >)
        requires
            all_encodable(values_view(values@)),
        ensures
            match bytes {
                Ok(out) => self@.encode(category, name@, values_view(values@)) == Ok::<
                    Seq<u8>,
                    SpecDecodeError,
                >(out@),
                Err(error) => self@.encode(category, name@, values_view(values@)) == Err::<
                    Seq<u8>,
                    SpecDecodeError,
                >(error@),
            },
    {
        match self.position(category, name) {
            Some(i) => {
                let bindings = self.bindings(category);
                assert(bindings_view(bindings@)[i as int] == bindings@[i as int]@);
                Ok(bindings[i].encode(values))
            },
            None => Err(DecodeError::UnknownName),
        }
    }
}

} // verus!
