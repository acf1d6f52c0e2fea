//! Field values and the layouts that they are checked against.
//!
//! `Value` and `Layout` are what the program holds; `SpecValue` and `SpecLayout`
//! are their mathematical models, which the contracts speak of.
use vstd::prelude::*;

verus! {

/// The kinds of scalar field: a boolean, or an integer of a fixed width.
#[derive(Clone, Copy, Debug, PartialEq, Eq, Structural)]
pub enum Primitive {
    Bool,
    U8,
    U16,
    U32,
    U64,
    U128,
    I8,
    I16,
    I32,
    I64,
    I128,
}

impl Primitive {
    /// The number of bytes that a scalar of this kind takes.
    pub open spec fn width(&self) -> nat {
        match self {
            Primitive::Bool | Primitive::U8 | Primitive::I8 => 1,
            Primitive::U16 | Primitive::I16 => 2,
            Primitive::U32 | Primitive::I32 => 4,
            Primitive::U64 | Primitive::I64 => 8,
            Primitive::U128 | Primitive::I128 => 16,
        }
    }

    /// Whether this kind holds negative numbers.
    pub open spec fn is_signed(&self) -> bool {
        match self {
            Primitive::I8 | Primitive::I16 | Primitive::I32 | Primitive::I64 | Primitive::I128 => true,
            _ => false,
        }
    }

    /// How many bit patterns the bytes of this kind have.
    pub open spec fn modulus(&self) -> int {
        match self {
            Primitive::Bool | Primitive::U8 | Primitive::I8 => 0x100int,
            Primitive::U16 | Primitive::I16 => 0x1_0000int,
            Primitive::U32 | Primitive::I32 => 0x1_0000_0000int,
            Primitive::U64 | Primitive::I64 => 0x1_0000_0000_0000_0000int,
            Primitive::U128 | Primitive::I128 => 0x1_0000_0000_0000_0000_0000_0000_0000_0000int,
        }
    }

    /// Whether `value` is a number that a scalar of this kind can hold.
    pub open spec fn admits(&self, value: int) -> bool {
        if *self == Primitive::Bool {
            value == 0 || value == 1
        } else if self.is_signed() {
            -(self.modulus() / 2) <= value < self.modulus() / 2
        } else {
            0 <= value < self.modulus()
        }
    }

    /// The unsigned number that the bytes of `value` denote: `value` itself, or its
    /// two's complement where it is negative.
    pub open spec fn image(&self, value: int) -> nat {
        if value < 0 {
            (value + self.modulus()) as nat
        } else {
            value as nat
        }
    }

    /// The number that the unsigned `image` stands for in this kind, if any.
    pub open spec fn value_of(&self, image: nat) -> Option<int> {
        if *self == Primitive::Bool {
            if image <= 1 {
                Some(image as int)
            } else {
                None
            }
        } else if self.is_signed() && image >= self.modulus() / 2 {
            Some(image - self.modulus())
        } else {
            Some(image as int)
        }
    }

    /// The number of bytes that a scalar of this kind takes.
    pub fn byte_width(&self) -> (w: usize)
        ensures
            w == self.width(),
            1 <= w <= 16,
    {
        match self {
            Primitive::Bool | Primitive::U8 | Primitive::I8 => 1,
            Primitive::U16 | Primitive::I16 => 2,
            Primitive::U32 | Primitive::I32 => 4,
            Primitive::U64 | Primitive::I64 => 8,
            Primitive::U128 | Primitive::I128 => 16,
        }
    }
}

/// The value of one field.
#[derive(Debug, PartialEq, Eq)]
pub enum Value {
    Bool(bool),
    U8(u8),
    U16(u16),
    U32(u32),
    U64(u64),
    U128(u128),
    I8(i8),
    I16(i16),
    I32(i32),
    I64(i64),
    I128(i128),
    /// The fields of a nested type, in declared order.
    Record(Vec<Value>),
    /// A sequence that is written behind its own length.
    List(Vec<Value>),
    /// A sequence whose length the schema fixes.
    Array(Vec<Value>),
}

/// The model of a `Value`: a scalar is its kind and its number.
pub enum SpecValue {
    Scalar(Primitive, int),
    Record(Seq<SpecValue>),
    List(Seq<SpecValue>),
    Array(Seq<SpecValue>),
}

/// The models of `items`, in order.
pub open spec fn values_view(items: Seq<Value>) -> Seq<SpecValue>
    decreases items,
{
    Seq::new(
        items.len(),
        |i: int|
            if 0 <= i < items.len() {
                value_model(items[i])
            } else {
                arbitrary()
            },
    )
}

impl View for Value {
    type V = SpecValue;

    open spec fn view(&self) -> SpecValue {
        value_model(*self)
    }
}

/// The model of `value`.
pub open spec fn value_model(value: Value) -> SpecValue
    decreases value,
{
    match value {
        Value::Bool(b) => SpecValue::Scalar(
            Primitive::Bool,
            if b {
                1
            } else {
                0
            },
        ),
        Value::U8(x) => SpecValue::Scalar(Primitive::U8, x as int),
        Value::U16(x) => SpecValue::Scalar(Primitive::U16, x as int),
        Value::U32(x) => SpecValue::Scalar(Primitive::U32, x as int),
        Value::U64(x) => SpecValue::Scalar(Primitive::U64, x as int),
        Value::U128(x) => SpecValue::Scalar(Primitive::U128, x as int),
        Value::I8(x) => SpecValue::Scalar(Primitive::I8, x as int),
        Value::I16(x) => SpecValue::Scalar(Primitive::I16, x as int),
        Value::I32(x) => SpecValue::Scalar(Primitive::I32, x as int),
        Value::I64(x) => SpecValue::Scalar(Primitive::I64, x as int),
        Value::I128(x) => SpecValue::Scalar(Primitive::I128, x as int),
        Value::Record(items) => SpecValue::Record(values_view(items@)),
        Value::List(items) => SpecValue::List(values_view(items@)),
        Value::Array(items) => SpecValue::Array(values_view(items@)),
    }
}

impl SpecValue {
    /// Whether the value can be written: every scalar is a number of its kind, and
    /// no list is longer than its length field can say.
    pub open spec fn encodable(self) -> bool
        decreases self,
    {
        match self {
            SpecValue::Scalar(kind, value) => kind.admits(value),
            SpecValue::Record(items) => forall|i: int|
                0 <= i < items.len() ==> (#[trigger] items[i]).encodable(),
            SpecValue::List(items) => items.len() <= u32::MAX && forall|i: int|
                0 <= i < items.len() ==> (#[trigger] items[i]).encodable(),
            SpecValue::Array(items) => forall|i: int|
                0 <= i < items.len() ==> (#[trigger] items[i]).encodable(),
        }
    }
}

/// Whether every value of `items` can be written.
pub open spec fn all_encodable(items: Seq<SpecValue>) -> bool {
    forall|i: int| 0 <= i < items.len() ==> (#[trigger] items[i]).encodable()
}

/// The shape that the values of one field must have.
#[derive(Debug, PartialEq, Eq)]
pub enum Layout {
    Primitive(Primitive),
    /// A nested type: the layouts of its fields, in declared order.
    Record(Vec<Layout>),
    /// Any number of items of one layout, behind a length.
    List(Box<Layout>),
    /// A fixed number of items of one layout.
    Array(Box<Layout>, u32),
}

/// The model of a `Layout`.
pub enum SpecLayout {
    Primitive(Primitive),
    Record(Seq<SpecLayout>),
    List(Box<SpecLayout>),
    Array(Box<SpecLayout>, nat),
}

/// The models of `items`, in order.
pub open spec fn layouts_view(items: Seq<Layout>) -> Seq<SpecLayout>
    decreases items,
{
    Seq::new(
        items.len(),
        |i: int|
            if 0 <= i < items.len() {
                layout_model(items[i])
            } else {
                arbitrary()
            },
    )
}

impl View for Layout {
    type V = SpecLayout;

    open spec fn view(&self) -> SpecLayout {
        layout_model(*self)
    }
}

/// The model of `layout`.
pub open spec fn layout_model(layout: Layout) -> SpecLayout
    decreases layout,
{
    match layout {
        Layout::Primitive(kind) => SpecLayout::Primitive(kind),
        Layout::Record(fields) => SpecLayout::Record(layouts_view(fields@)),
        Layout::List(item) => SpecLayout::List(Box::new(layout_model(*item))),
        Layout::Array(item, count) => SpecLayout::Array(
            Box::new(layout_model(*item)),
            count as nat,
        ),
    }
}

impl SpecLayout {
    /// Whether `value` is a value of this layout.
    pub open spec fn admits(self, value: SpecValue) -> bool
        decreases value,
    {
        match (self, value) {
            (SpecLayout::Primitive(kind), SpecValue::Scalar(of, number)) => kind == of
                && kind.admits(number),
            (SpecLayout::Record(fields), SpecValue::Record(items)) => fields.len() == items.len()
                && forall|i: int|
                0 <= i < items.len() ==> fields[i].admits(#[trigger] items[i]),
            (SpecLayout::List(item), SpecValue::List(items)) => items.len() <= u32::MAX
                && forall|i: int| 0 <= i < items.len() ==> item.admits(#[trigger] items[i]),
            (SpecLayout::Array(item, count), SpecValue::Array(items)) => items.len() == count
                && forall|i: int| 0 <= i < items.len() ==> item.admits(#[trigger] items[i]),
            _ => false,
        }
    }
}

/// Whether `values` assigns each of `fields` a value of its layout.
pub open spec fn all_admitted(fields: Seq<SpecLayout>, values: Seq<SpecValue>) -> bool {
    fields.len() == values.len() && forall|i: int|
        0 <= i < values.len() ==> fields[i].admits(#[trigger] values[i])
}

/// A value that a layout admits can be written.
pub proof fn lemma_admitted_is_encodable(layout: SpecLayout, value: SpecValue)
    requires
        layout.admits(value),
    ensures
        value.encodable(),
    decreases value,
{
    match (layout, value) {
        (SpecLayout::Record(fields), SpecValue::Record(items)) => {
            assert forall|i: int| 0 <= i < items.len() implies (#[trigger] items[i]).encodable() by {
                lemma_admitted_is_encodable(fields[i], items[i]);
            }
        },
        (SpecLayout::List(item), SpecValue::List(items)) => {
            assert forall|i: int| 0 <= i < items.len() implies (#[trigger] items[i]).encodable() by {
                lemma_admitted_is_encodable(*item, items[i]);
            }
        },
        (SpecLayout::Array(item, count), SpecValue::Array(items)) => {
            assert forall|i: int| 0 <= i < items.len() implies (#[trigger] items[i]).encodable() by {
                lemma_admitted_is_encodable(*item, items[i]);
            }
        },
        _ => {},
    }
}

impl Value {
    /// Whether the value can be written: whether none of its lists is longer than
    /// `u32::MAX`.
    pub fn is_encodable(&self) -> (ok: bool)
        ensures
            ok == self@.encodable(),
        decreases self,
    {
        match self {
            Value::Record(items) => {
                let ok = are_encodable(items);
                assert(self@->Record_0 == values_view(items@));
                ok
            },
            Value::List(items) => {
                let ok = are_encodable(items);
                assert(self@->List_0 == values_view(items@));
                items.len() <= u32::MAX as usize && ok
            },
            Value::Array(items) => {
                let ok = are_encodable(items);
                assert(self@->Array_0 == values_view(items@));
                ok
            },
            _ => true,
        }
    }
}

/// Whether every value of `items` can be written.
pub fn are_encodable(items: &Vec<Value>) -> (ok: bool)
    ensures
        ok == all_encodable(values_view(items@)),
    decreases items,
{
    let mut i: usize = 0;
    while i < items.len()
        invariant
            i <= items.len(),
            forall|j: int| 0 <= j < i ==> (#[trigger] values_view(items@)[j]).encodable(),
        decreases items.len() - i,
    {
        if !items[i].is_encodable() {
            assert(!values_view(items@)[i as int].encodable());
            return false;
        }
        i = i + 1;
    }
    true
}

impl Layout {
    /// Whether `value` is a value of this layout.
    pub fn admits(&self, value: &Value) -> (ok: bool)
        ensures
            ok == self@.admits(value@),
        decreases value,
    {
        match self {
            Layout::Primitive(kind) => {
                match value {
                    Value::Bool(_) => *kind == Primitive::Bool,
                    Value::U8(_) => *kind == Primitive::U8,
                    Value::U16(_) => *kind == Primitive::U16,
                    Value::U32(_) => *kind == Primitive::U32,
                    Value::U64(_) => *kind == Primitive::U64,
                    Value::U128(_) => *kind == Primitive::U128,
                    Value::I8(_) => *kind == Primitive::I8,
                    Value::I16(_) => *kind == Primitive::I16,
                    Value::I32(_) => *kind == Primitive::I32,
                    Value::I64(_) => *kind == Primitive::I64,
                    Value::I128(_) => *kind == Primitive::I128,
                    _ => false,
                }
            },
            Layout::Record(fields) => {
                match value {
                    Value::Record(items) => {
                        assert(self@->Record_0 == layouts_view(fields@));
                        assert(value@->Record_0 == values_view(items@));
                        admit_each(fields, items)
                    },
                    _ => false,
                }
            },
            Layout::List(item) => {
                match value {
                    Value::List(items) => {
                        assert(*self@->List_0 == item@);
                        assert(value@->List_0 == values_view(items@));
                        let ok = admit_all(item, items);
                        items.len() <= u32::MAX as usize && ok
                    },
                    _ => false,
                }
            },
            Layout::Array(item, count) => {
                match value {
                    Value::Array(items) => {
                        assert(*self@->Array_0 == item@);
                        assert(value@->Array_0 == values_view(items@));
                        let ok = admit_all(item, items);
                        items.len() == *count as usize && ok
                    },
                    _ => false,
                }
            },
        }
    }
}

/// Whether `items` assigns each of `fields` a value of its layout.
pub fn admit_each(fields: &Vec<Layout>, items: &Vec<Value>) -> (ok: bool)
    ensures
        ok == all_admitted(layouts_view(fields@), values_view(items@)),
    decreases items,
{
    if fields.len() != items.len() {
        return false;
    }
    let mut i: usize = 0;
    while i < items.len()
        invariant
            i <= items.len() == fields.len(),
            forall|j: int|
                0 <= j < i ==> layouts_view(fields@)[j].admits(#[trigger] values_view(items@)[j]),
        decreases items.len() - i,
    {
        if !fields[i].admits(&items[i]) {
            assert(!layouts_view(fields@)[i as int].admits(values_view(items@)[i as int]));
            return false;
        }
        i = i + 1;
    }
    true
}

/// Whether each of `items` is a value of the layout `item`.
pub fn admit_all(item: &Layout, items: &Vec<Value>) -> (ok: bool)
    ensures
        ok == (forall|i: int|
            0 <= i < items@.len() ==> item@.admits(#[trigger] values_view(items@)[i])),
    decreases items,
{
    let mut i: usize = 0;
    while i < items.len()
        invariant
            i <= items.len(),
            forall|j: int| 0 <= j < i ==> item@.admits(#[trigger] values_view(items@)[j]),
        decreases items.len() - i,
    {
        if !item.admits(&items[i]) {
            assert(!item@.admits(values_view(items@)[i as int]));
            return false;
        }
        i = i + 1;
    }
    true
}

impl Clone for Value {
    /// A copy of the value: it has the same model.
    fn clone(&self) -> (copy: Value)
        ensures
            copy@ == self@,
        decreases self,
    {
        match self {
            Value::Bool(b) => Value::Bool(*b),
            Value::U8(x) => Value::U8(*x),
            Value::U16(x) => Value::U16(*x),
            Value::U32(x) => Value::U32(*x),
            Value::U64(x) => Value::U64(*x),
            Value::U128(x) => Value::U128(*x),
            Value::I8(x) => Value::I8(*x),
            Value::I16(x) => Value::I16(*x),
            Value::I32(x) => Value::I32(*x),
            Value::I64(x) => Value::I64(*x),
            Value::I128(x) => Value::I128(*x),
            Value::Record(items) => Value::Record(copy_values(items)),
            Value::List(items) => Value::List(copy_values(items)),
            Value::Array(items) => Value::Array(copy_values(items)),
        }
    }
}

/// A copy of each of `items`, in order.
fn copy_values(items: &Vec<Value>) -> (copy: Vec<Value>)
    ensures
        values_view(copy@) == values_view(items@),
    decreases items,
{
    let mut copy: Vec<Value> = Vec::new();
    let mut i: usize = 0;
    while i < items.len()
        invariant
            i <= items.len(),
            copy@.len() == i,
            forall|j: int| 0 <= j < i ==> copy@[j]@ == items@[j]@,
        decreases items.len() - i,
    {
        copy.push(items[i].clone());
        i = i + 1;
    }
    assert(values_view(copy@) =~= values_view(items@));
    copy
}

impl Clone for Layout {
    /// A copy of the layout: it has the same model.
    fn clone(&self) -> (copy: Layout)
        ensures
            copy@ == self@,
        decreases self,
    {
        match self {
            Layout::Primitive(kind) => Layout::Primitive(*kind),
            Layout::Record(fields) => Layout::Record(copy_layouts(fields)),
            Layout::List(item) => {
                let inner: &Layout = item;
                Layout::List(Box::new(inner.clone()))
            },
            Layout::Array(item, count) => {
                let inner: &Layout = item;
                Layout::Array(Box::new(inner.clone()), *count)
            },
        }
    }
}

/// A copy of each of `items`, in order.
fn copy_layouts(items: &Vec<Layout>) -> (copy: Vec<Layout>)
    ensures
        layouts_view(copy@) == layouts_view(items@),
    decreases items,
{
    let mut copy: Vec<Layout> = Vec::new();
    let mut i: usize = 0;
    while i < items.len()
        invariant
            i <= items.len(),
            copy@.len() == i,
            forall|j: int| 0 <= j < i ==> copy@[j]@ == items@[j]@,
        decreases items.len() - i,
    {
        copy.push(items[i].clone());
        i = i + 1;
    }
    assert(layouts_view(copy@) =~= layouts_view(items@));
    copy
}

} // verus!
