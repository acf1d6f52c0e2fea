//! The byte encoding of field values, and its inverse.
//!
//! A scalar is written as the little-endian bytes of its kind's width, a boolean
//! as one byte that is 0 or 1. The fields of a nested type follow each other in
//! declared order. A list is written as a four-byte little-endian length and then
//! its items; an array as its items alone.
use crate::endian::{
    le_bytes, le_value, lemma_le_bytes_len, lemma_le_bytes_of_value, lemma_le_value_bound,
    lemma_le_value_of_bytes, lemma_pow256_widths, pow256, read_uint, write_uint,
};
use crate::value::{
    all_admitted, all_encodable, layouts_view, values_view, Layout, Primitive, SpecLayout,
    SpecValue, Value,
};
use vstd::prelude::*;

verus! {

/// The number of bytes in the length field of a list.
pub const LENGTH_WIDTH: usize = 4;

/// The bytes of `value`.
pub open spec fn encode_value(value: SpecValue) -> Seq<u8>
    decreases value, 0nat,
{
    match value {
        SpecValue::Scalar(kind, number) => le_bytes(kind.image(number), kind.width()),
        SpecValue::Record(items) => encode_from(items, 0),
        SpecValue::List(items) => le_bytes(items.len(), LENGTH_WIDTH as nat) + encode_from(
            items,
            0,
        ),
        SpecValue::Array(items) => encode_from(items, 0),
    }
}

/// The bytes of the items of `items` from index `start` on, one after the other.
pub open spec fn encode_from(items: Seq<SpecValue>, start: nat) -> Seq<u8>
    decreases items, items.len() - start,
{
    if start >= items.len() {
        Seq::empty()
    } else {
        encode_value(items[start as int]) + encode_from(items, start + 1)
    }
}

/// The bytes of `items`, one after the other.
pub open spec fn encode_values(items: Seq<SpecValue>) -> Seq<u8> {
    encode_from(items, 0)
}

/// Reads one value of `layout` from `bytes` at `pos`: the value and the position
/// behind it, or `None` where the bytes there are no value of that layout.
pub open spec fn decode_value(layout: SpecLayout, bytes: Seq<u8>, pos: int) -> Option<
    (SpecValue, int),
>
    decreases layout, 0nat,
{
    match layout {
        SpecLayout::Primitive(kind) => {
            if 0 <= pos && pos + kind.width() <= bytes.len() {
                match kind.value_of(le_value(bytes.subrange(pos, pos + kind.width()))) {
                    Some(number) => Some((SpecValue::Scalar(kind, number), pos + kind.width())),
                    None => None,
                }
            } else {
                None
            }
        },
        SpecLayout::Record(fields) => {
            match decode_record(fields, 0, bytes, pos) {
                Some((items, end)) => Some((SpecValue::Record(items), end)),
                None => None,
            }
        },
        SpecLayout::List(item) => {
            if 0 <= pos && pos + LENGTH_WIDTH <= bytes.len() {
                match decode_repeat(
                    *item,
                    le_value(bytes.subrange(pos, pos + LENGTH_WIDTH)),
                    bytes,
                    pos + LENGTH_WIDTH,
                ) {
                    Some((items, end)) => Some((SpecValue::List(items), end)),
                    None => None,
                }
            } else {
                None
            }
        },
        SpecLayout::Array(item, count) => {
            match decode_repeat(*item, count, bytes, pos) {
                Some((items, end)) => Some((SpecValue::Array(items), end)),
                None => None,
            }
        },
    }
}

/// Reads one value for each of `fields` from index `start` on, one behind the other.
pub open spec fn decode_record(
    fields: Seq<SpecLayout>,
    start: nat,
    bytes: Seq<u8>,
    pos: int,
) -> Option<(Seq<SpecValue>, int)>
    decreases fields, fields.len() - start,
{
    if start >= fields.len() {
        if 0 <= pos <= bytes.len() {
            Some((Seq::empty(), pos))
        } else {
            None
        }
    } else {
        match decode_value(fields[start as int], bytes, pos) {
            Some((first, next)) => match decode_record(fields, start + 1, bytes, next) {
                Some((rest, end)) => Some((seq![first] + rest, end)),
                None => None,
            },
            None => None,
        }
    }
}

/// Reads `count` values of `item`, one behind the other.
pub open spec fn decode_repeat(item: SpecLayout, count: nat, bytes: Seq<u8>, pos: int) -> Option<
    (Seq<SpecValue>, int),
>
    decreases item, count,
{
    if count == 0 {
        if 0 <= pos <= bytes.len() {
            Some((Seq::empty(), pos))
        } else {
            None
        }
    } else {
        match decode_value(item, bytes, pos) {
            Some((first, next)) => match decode_repeat(item, (count - 1) as nat, bytes, next) {
                Some((rest, end)) => Some((seq![first] + rest, end)),
                None => None,
            },
            None => None,
        }
    }
}

/// Reads the rest of a buffer, from `pos` on, as one value for each of `fields`:
/// `None` where the bytes end early, hold what a field does not admit, or go on
/// behind the last field.
pub open spec fn decode_fields(fields: Seq<SpecLayout>, bytes: Seq<u8>, pos: int) -> Option<
    Seq<SpecValue>,
> {
    match decode_record(fields, 0, bytes, pos) {
        Some((items, end)) => if end == bytes.len() {
            Some(items)
        } else {
            None
        },
        None => None,
    }
}

/// The unsigned number that the bytes of a signed `value` denote.
fn signed_image(value: i128, kind: Primitive) -> (image: u128)
    requires
        kind.is_signed(),
        kind.admits(value as int),
    ensures
        image == kind.image(value as int),
{
    if value >= 0 {
        value as u128
    } else {
        match kind {
            Primitive::I8 => (value + 0x80) as u128 + 0x80,
            Primitive::I16 => (value + 0x8000) as u128 + 0x8000,
            Primitive::I32 => (value + 0x8000_0000) as u128 + 0x8000_0000,
            Primitive::I64 => (value + 0x8000_0000_0000_0000) as u128 + 0x8000_0000_0000_0000,
            _ => (value - i128::MIN) as u128 + 0x8000_0000_0000_0000_0000_0000_0000_0000,
        }
    }
}

/// The signed number that the unsigned `image` stands for.
fn signed_value(image: u128, kind: Primitive) -> (value: i128)
    requires
        kind.is_signed(),
        image < kind.modulus(),
    ensures
        kind.value_of(image as nat) == Some(value as int),
        kind.admits(value as int),
{
    match kind {
        Primitive::I8 => if image >= 0x80 {
            (image - 0x80) as i128 - 0x80
        } else {
            image as i128
        },
        Primitive::I16 => if image >= 0x8000 {
            (image - 0x8000) as i128 - 0x8000
        } else {
            image as i128
        },
        Primitive::I32 => if image >= 0x8000_0000 {
            (image - 0x8000_0000) as i128 - 0x8000_0000
        } else {
            image as i128
        },
        Primitive::I64 => if image >= 0x8000_0000_0000_0000 {
            (image - 0x8000_0000_0000_0000) as i128 - 0x8000_0000_0000_0000
        } else {
            image as i128
        },
        _ => if image >= 0x8000_0000_0000_0000_0000_0000_0000_0000 {
            (image - 0x8000_0000_0000_0000_0000_0000_0000_0000) as i128 + i128::MIN
        } else {
            image as i128
        },
    }
}

/// Appends the bytes of `value` to `out`.
pub fn write_value(value: &Value, out: &mut Vec<u8>)
    requires
        value@.encodable(),
    ensures
        final(out)@ == old(out)@ + encode_value(value@),
    decreases value, 0nat,
{
    match value {
        Value::Bool(b) => write_uint(
            if *b {
                1
            } else {
                0
            },
            1,
            out,
        ),
        Value::U8(x) => write_uint(*x as u128, 1, out),
        Value::U16(x) => write_uint(*x as u128, 2, out),
        Value::U32(x) => write_uint(*x as u128, 4, out),
        Value::U64(x) => write_uint(*x as u128, 8, out),
        Value::U128(x) => write_uint(*x, 16, out),
        Value::I8(x) => write_uint(signed_image(*x as i128, Primitive::I8), 1, out),
        Value::I16(x) => write_uint(signed_image(*x as i128, Primitive::I16), 2, out),
        Value::I32(x) => write_uint(signed_image(*x as i128, Primitive::I32), 4, out),
        Value::I64(x) => write_uint(signed_image(*x as i128, Primitive::I64), 8, out),
        Value::I128(x) => write_uint(signed_image(*x, Primitive::I128), 16, out),
        Value::Record(items) => {
            assert(value@->Record_0 == values_view(items@));
            write_values(items, out)
        },
        Value::List(items) => {
            assert(value@->List_0 == values_view(items@));
            write_uint(items.len() as u128, LENGTH_WIDTH, out);
            let ghost head = out@;
            write_values(items, out);
            assert(out@ == old(out)@ + (le_bytes(items@.len(), LENGTH_WIDTH as nat) + encode_from(
                values_view(items@),
                0,
            ))) by {
                assert(head + encode_from(values_view(items@), 0) =~= old(out)@ + (le_bytes(
                    items@.len(),
                    LENGTH_WIDTH as nat,
                ) + encode_from(values_view(items@), 0)));
            }
        },
        Value::Array(items) => {
            assert(value@->Array_0 == values_view(items@));
            write_values(items, out)
        },
    }
}

/// Appends the bytes of each of `items` to `out`, in order.
pub fn write_values(items: &Vec<Value>, out: &mut Vec<u8>)
    requires
        all_encodable(values_view(items@)),
    ensures
        final(out)@ == old(out)@ + encode_values(values_view(items@)),
    decreases items, 1nat,
{
    let ghost models = values_view(items@);
    let mut i: usize = 0;
    while i < items.len()
        invariant
            i <= items.len(),
            models == values_view(items@),
            all_encodable(models),
            old(out)@ + encode_from(models, 0) == out@ + encode_from(models, i as nat),
        decreases items.len() - i,
    {
        let ghost before = out@;
        assert(models[i as int] == items@[i as int]@);
        assert(models[i as int].encodable());
        write_value(&items[i], out);
        proof {
            let rest = encode_from(models, (i + 1) as nat);
            assert(encode_from(models, i as nat) == encode_value(models[i as int]) + rest);
            assert(before + (encode_value(models[i as int]) + rest) =~= out@ + rest);
        }
        i = i + 1;
    }
    assert(out@ + encode_from(models, i as nat) =~= out@);
}

/// Reads one value of `layout` from `bytes` at `pos`, and says where it ends.
pub fn read_value(layout: &Layout, bytes: &[u8], pos: usize) -> (read: Option<(Value, usize)>)
    ensures
        match read {
            Some((value, end)) => decode_value(layout@, bytes@, pos as int) == Some(
                (value@, end as int),
            ) && pos <= end <= bytes@.len(),
            None => decode_value(layout@, bytes@, pos as int) is None,
        },
    decreases layout, 0nat,
{
    if pos > bytes.len() {
        proof {
            if decode_value(layout@, bytes@, pos as int) is Some {
                lemma_encode_of_decoded(layout@, bytes@, pos as int);
            }
        }
        return None;
    }
    match layout {
        Layout::Primitive(kind) => {
            let width = kind.byte_width();
            if bytes.len() - pos < width {
                return None;
            }
            let image = read_uint(bytes, pos, width);
            proof {
                lemma_le_value_bound(bytes@.subrange(pos as int, pos + width));
                lemma_pow256_widths();
            }
            let end = pos + width;
            match kind {
                Primitive::Bool => if image > 1 {
                    None
                } else {
                    Some((Value::Bool(image == 1), end))
                },
                Primitive::U8 => Some((Value::U8(image as u8), end)),
                Primitive::U16 => Some((Value::U16(image as u16), end)),
                Primitive::U32 => Some((Value::U32(image as u32), end)),
                Primitive::U64 => Some((Value::U64(image as u64), end)),
                Primitive::U128 => Some((Value::U128(image), end)),
                Primitive::I8 => Some((Value::I8(signed_value(image, *kind) as i8), end)),
                Primitive::I16 => Some((Value::I16(signed_value(image, *kind) as i16), end)),
                Primitive::I32 => Some((Value::I32(signed_value(image, *kind) as i32), end)),
                Primitive::I64 => Some((Value::I64(signed_value(image, *kind) as i64), end)),
                Primitive::I128 => Some((Value::I128(signed_value(image, *kind)), end)),
            }
        },
        Layout::Record(fields) => {
            match read_record(fields, bytes, pos) {
                Some((items, end)) => Some((Value::Record(items), end)),
                None => None,
            }
        },
        Layout::List(item) => {
            if bytes.len() - pos < LENGTH_WIDTH {
                return None;
            }
            let count = read_uint(bytes, pos, LENGTH_WIDTH);
            proof {
                lemma_le_value_bound(bytes@.subrange(pos as int, pos + LENGTH_WIDTH));
                lemma_pow256_widths();
            }
            match read_repeat(item, count as usize, bytes, pos + LENGTH_WIDTH) {
                Some((items, end)) => Some((Value::List(items), end)),
                None => None,
            }
        },
        Layout::Array(item, count) => {
            match read_repeat(item, *count as usize, bytes, pos) {
                Some((items, end)) => Some((Value::Array(items), end)),
                None => None,
            }
        },
    }
}

/// Reads one value for each of `fields` from `bytes` at `pos`, one behind the other.
pub fn read_record(fields: &Vec<Layout>, bytes: &[u8], pos: usize) -> (read: Option<
    (Vec<Value>, usize),
>)
    ensures
        match read {
            Some((items, end)) => decode_record(layouts_view(fields@), 0, bytes@, pos as int)
                == Some((values_view(items@), end as int)) && pos <= end <= bytes@.len(),
            None => decode_record(layouts_view(fields@), 0, bytes@, pos as int) is None,
        },
    decreases fields, 1nat,
{
    if pos > bytes.len() {
        proof {
            if decode_record(layouts_view(fields@), 0, bytes@, pos as int) is Some {
                lemma_encode_of_decoded_record(layouts_view(fields@), 0, bytes@, pos as int);
            }
        }
        return None;
    }
    let ghost shapes = layouts_view(fields@);
    let mut items: Vec<Value> = Vec::new();
    let mut at: usize = pos;
    let mut i: usize = 0;
    while i < fields.len()
        invariant
            i <= fields.len(),
            shapes == layouts_view(fields@),
            pos <= at <= bytes@.len(),
            decode_record(shapes, 0, bytes@, pos as int) == match decode_record(
                shapes,
                i as nat,
                bytes@,
                at as int,
            ) {
                Some((rest, end)) => Some((values_view(items@) + rest, end)),
                None => None,
            },
        decreases fields.len() - i,
    {
        assert(shapes[i as int] == fields@[i as int]@);
        match read_value(&fields[i], bytes, at) {
            Some((value, next)) => {
                let ghost done = values_view(items@);
                items.push(value);
                proof {
                    assert(values_view(items@) =~= done + seq![value@]);
                    match decode_record(shapes, (i + 1) as nat, bytes@, next as int) {
                        Some((rest, end)) => {
                            assert(done + (seq![value@] + rest) =~= values_view(items@) + rest);
                        },
                        None => {},
                    }
                }
                at = next;
            },
            None => {
                return None;
            },
        }
        i = i + 1;
    }
    assert(values_view(items@) + Seq::<SpecValue>::empty() =~= values_view(items@));
    Some((items, at))
}

/// Reads `count` values of `item` from `bytes` at `pos`, one behind the other.
pub fn read_repeat(item: &Layout, count: usize, bytes: &[u8], pos: usize) -> (read: Option<
    (Vec<Value>, usize),
>)
    ensures
        match read {
            Some((items, end)) => decode_repeat(item@, count as nat, bytes@, pos as int) == Some(
                (values_view(items@), end as int),
            ) && pos <= end <= bytes@.len(),
            None => decode_repeat(item@, count as nat, bytes@, pos as int) is None,
        },
    decreases item, 1nat,
{
    if pos > bytes.len() {
        proof {
            if decode_repeat(item@, count as nat, bytes@, pos as int) is Some {
                lemma_encode_of_decoded_repeat(item@, count as nat, bytes@, pos as int);
            }
        }
        return None;
    }
    let mut items: Vec<Value> = Vec::new();
    let mut at: usize = pos;
    let mut i: usize = 0;
    while i < count
        invariant
            i <= count,
            pos <= at <= bytes@.len(),
            decode_repeat(item@, count as nat, bytes@, pos as int) == match decode_repeat(
                item@,
                (count - i) as nat,
                bytes@,
                at as int,
            ) {
                Some((rest, end)) => Some((values_view(items@) + rest, end)),
                None => None,
            },
        decreases count - i,
    {
        match read_value(item, bytes, at) {
            Some((value, next)) => {
                let ghost done = values_view(items@);
                items.push(value);
                proof {
                    assert(values_view(items@) =~= done + seq![value@]);
                    match decode_repeat(item@, (count - i - 1) as nat, bytes@, next as int) {
                        Some((rest, end)) => {
                            assert(done + (seq![value@] + rest) =~= values_view(items@) + rest);
                        },
                        None => {},
                    }
                }
                at = next;
            },
            None => {
                return None;
            },
        }
        i = i + 1;
    }
    assert(values_view(items@) + Seq::<SpecValue>::empty() =~= values_view(items@));
    Some((items, at))
}

/// A scalar kind's modulus is `pow256` of its width.
pub proof fn lemma_modulus_is_pow256(kind: Primitive)
    ensures
        kind.modulus() == pow256(kind.width()),
{
    lemma_pow256_widths();
}

/// Where `bytes` holds, from `pos` on, the bytes of a value that `layout` admits,
/// reading a value of `layout` there gives that value and ends behind those bytes.
pub proof fn lemma_decode_of_encoded(
    layout: SpecLayout,
    value: SpecValue,
    bytes: Seq<u8>,
    pos: int,
)
    requires
        layout.admits(value),
        0 <= pos,
        pos + encode_value(value).len() <= bytes.len(),
        bytes.subrange(pos, pos + encode_value(value).len()) == encode_value(value),
    ensures
        decode_value(layout, bytes, pos) == Some((value, pos + encode_value(value).len())),
    decreases value, 0nat,
{
    match (layout, value) {
        (SpecLayout::Primitive(kind), SpecValue::Scalar(of, number)) => {
            let image = kind.image(number);
            lemma_le_bytes_len(image, kind.width());
            lemma_modulus_is_pow256(kind);
            lemma_le_value_of_bytes(image, kind.width());
        },
        (SpecLayout::Record(fields), SpecValue::Record(items)) => {
            lemma_decode_record_of_encoded(fields, items, 0, bytes, pos);
            assert(items.subrange(0, items.len() as int) =~= items);
        },
        (SpecLayout::List(item), SpecValue::List(items)) => {
            let head = le_bytes(items.len(), LENGTH_WIDTH as nat);
            let body = encode_from(items, 0);
            lemma_le_bytes_len(items.len(), LENGTH_WIDTH as nat);
            lemma_pow256_widths();
            lemma_le_value_of_bytes(items.len(), LENGTH_WIDTH as nat);
            assert(bytes.subrange(pos, pos + LENGTH_WIDTH) =~= head) by {
                assert(bytes.subrange(pos, pos + LENGTH_WIDTH) =~= (head + body).subrange(
                    0,
                    LENGTH_WIDTH as int,
                ));
            }
            assert(bytes.subrange(pos + LENGTH_WIDTH, pos + LENGTH_WIDTH + body.len()) =~= body)
                by {
                assert(bytes.subrange(pos + LENGTH_WIDTH, pos + LENGTH_WIDTH + body.len())
                    =~= (head + body).subrange(
                    LENGTH_WIDTH as int,
                    LENGTH_WIDTH + body.len(),
                ));
            }
            lemma_decode_repeat_of_encoded(*item, items, 0, bytes, pos + LENGTH_WIDTH);
            assert(items.subrange(0, items.len() as int) =~= items);
        },
        (SpecLayout::Array(item, count), SpecValue::Array(items)) => {
            lemma_decode_repeat_of_encoded(*item, items, 0, bytes, pos);
            assert(items.subrange(0, items.len() as int) =~= items);
        },
        _ => {},
    }
}

/// The same for the fields of a record, from index `start` on.
pub proof fn lemma_decode_record_of_encoded(
    fields: Seq<SpecLayout>,
    items: Seq<SpecValue>,
    start: nat,
    bytes: Seq<u8>,
    pos: int,
)
    requires
        fields.len() == items.len(),
        start <= items.len(),
        forall|i: int| start <= i < items.len() ==> fields[i].admits(#[trigger] items[i]),
        0 <= pos,
        pos + encode_from(items, start).len() <= bytes.len(),
        bytes.subrange(pos, pos + encode_from(items, start).len()) == encode_from(items, start),
    ensures
        decode_record(fields, start, bytes, pos) == Some(
            (items.subrange(start as int, items.len() as int), pos + encode_from(items, start).len()),
        ),
    decreases items, items.len() - start,
{
    if start >= items.len() {
        assert(items.subrange(start as int, items.len() as int) =~= Seq::empty());
    } else {
        let first = encode_value(items[start as int]);
        let rest = encode_from(items, start + 1);
        assert(encode_from(items, start) == first + rest);
        assert(bytes.subrange(pos, pos + first.len()) =~= first) by {
            assert(bytes.subrange(pos, pos + first.len()) =~= (first + rest).subrange(
                0,
                first.len() as int,
            ));
        }
        assert(bytes.subrange(pos + first.len(), pos + first.len() + rest.len()) =~= rest) by {
            assert(bytes.subrange(pos + first.len(), pos + first.len() + rest.len()) =~= (first
                + rest).subrange(first.len() as int, (first.len() + rest.len()) as int));
        }
        lemma_decode_of_encoded(fields[start as int], items[start as int], bytes, pos);
        lemma_decode_record_of_encoded(fields, items, start + 1, bytes, pos + first.len());
        assert(seq![items[start as int]] + items.subrange(start as int + 1, items.len() as int)
            =~= items.subrange(start as int, items.len() as int));
    }
}

/// The same for the items of a list or an array, from index `start` on.
pub proof fn lemma_decode_repeat_of_encoded(
    item: SpecLayout,
    items: Seq<SpecValue>,
    start: nat,
    bytes: Seq<u8>,
    pos: int,
)
    requires
        start <= items.len(),
        forall|i: int| start <= i < items.len() ==> item.admits(#[trigger] items[i]),
        0 <= pos,
        pos + encode_from(items, start).len() <= bytes.len(),
        bytes.subrange(pos, pos + encode_from(items, start).len()) == encode_from(items, start),
    ensures
        decode_repeat(item, (items.len() - start) as nat, bytes, pos) == Some(
            (items.subrange(start as int, items.len() as int), pos + encode_from(items, start).len()),
        ),
    decreases items, items.len() - start,
{
    if start >= items.len() {
        assert(items.subrange(start as int, items.len() as int) =~= Seq::empty());
    } else {
        let first = encode_value(items[start as int]);
        let rest = encode_from(items, start + 1);
        assert(encode_from(items, start) == first + rest);
        assert(bytes.subrange(pos, pos + first.len()) =~= first) by {
            assert(bytes.subrange(pos, pos + first.len()) =~= (first + rest).subrange(
                0,
                first.len() as int,
            ));
        }
        assert(bytes.subrange(pos + first.len(), pos + first.len() + rest.len()) =~= rest) by {
            assert(bytes.subrange(pos + first.len(), pos + first.len() + rest.len()) =~= (first
                + rest).subrange(first.len() as int, (first.len() + rest.len()) as int));
        }
        lemma_decode_of_encoded(item, items[start as int], bytes, pos);
        lemma_decode_repeat_of_encoded(item, items, start + 1, bytes, pos + first.len());
        assert(seq![items[start as int]] + items.subrange(start as int + 1, items.len() as int)
            =~= items.subrange(start as int, items.len() as int));
    }
}

/// Decoding undoes encoding: where the rest of a buffer, from `pos` on, is the
/// bytes of a field assignment that `fields` admits, it is read back as that
/// assignment.
pub proof fn lemma_decode_fields_of_encoded(
    fields: Seq<SpecLayout>,
    values: Seq<SpecValue>,
    bytes: Seq<u8>,
    pos: int,
)
    requires
        all_admitted(fields, values),
        0 <= pos <= bytes.len(),
        bytes.subrange(pos, bytes.len() as int) == encode_values(values),
    ensures
        decode_fields(fields, bytes, pos) == Some(values),
{
    lemma_decode_record_of_encoded(fields, values, 0, bytes, pos);
    assert(values.subrange(0, values.len() as int) =~= values);
}

/// The bytes of a sequence that starts with `front` are, behind `front`, the
/// bytes of what follows it.
pub proof fn lemma_encode_from_shift(front: Seq<SpecValue>, back: Seq<SpecValue>, start: nat)
    requires
        start <= back.len(),
    ensures
        encode_from(front + back, front.len() + start) == encode_from(back, start),
    decreases back.len() - start,
{
    if start < back.len() {
        lemma_encode_from_shift(front, back, start + 1);
        assert((front + back)[(front.len() + start) as int] == back[start as int]);
    }
}

/// Writing a value in front of others puts its bytes in front of theirs.
pub proof fn lemma_encode_values_cons(first: SpecValue, rest: Seq<SpecValue>)
    ensures
        encode_values(seq![first] + rest) == encode_value(first) + encode_values(rest),
{
    let all = seq![first] + rest;
    assert(all[0] == first);
    lemma_encode_from_shift(seq![first], rest, 0);
}

/// Encoding undoes decoding: a value that is read from `bytes` at `pos` is a
/// value of the layout, and its bytes are the bytes that were read.
pub proof fn lemma_encode_of_decoded(layout: SpecLayout, bytes: Seq<u8>, pos: int)
    requires
        decode_value(layout, bytes, pos) is Some,
    ensures
        ({
            let (value, end) = decode_value(layout, bytes, pos).unwrap();
            &&& 0 <= pos <= end <= bytes.len()
            &&& layout.admits(value)
            &&& encode_value(value) == bytes.subrange(pos, end)
        }),
    decreases layout, 0nat,
{
    match layout {
        SpecLayout::Primitive(kind) => {
            let taken = bytes.subrange(pos, pos + kind.width());
            lemma_le_value_bound(taken);
            lemma_modulus_is_pow256(kind);
            lemma_le_bytes_of_value(taken);
        },
        SpecLayout::Record(fields) => {
            lemma_encode_of_decoded_record(fields, 0, bytes, pos);
        },
        SpecLayout::List(item) => {
            let taken = bytes.subrange(pos, pos + LENGTH_WIDTH);
            lemma_le_value_bound(taken);
            lemma_pow256_widths();
            lemma_le_bytes_of_value(taken);
            lemma_encode_of_decoded_repeat(*item, le_value(taken), bytes, pos + LENGTH_WIDTH);
            let (items, end) = decode_repeat(*item, le_value(taken), bytes, pos + LENGTH_WIDTH).unwrap();
            assert(taken + bytes.subrange(pos + LENGTH_WIDTH, end) =~= bytes.subrange(pos, end));
        },
        SpecLayout::Array(item, count) => {
            lemma_encode_of_decoded_repeat(*item, count, bytes, pos);
        },
    }
}

/// The same for the fields of a record, from index `start` on.
pub proof fn lemma_encode_of_decoded_record(
    fields: Seq<SpecLayout>,
    start: nat,
    bytes: Seq<u8>,
    pos: int,
)
    requires
        start <= fields.len(),
        decode_record(fields, start, bytes, pos) is Some,
    ensures
        ({
            let (items, end) = decode_record(fields, start, bytes, pos).unwrap();
            &&& 0 <= pos <= end <= bytes.len()
            &&& items.len() == fields.len() - start
            &&& forall|i: int| 0 <= i < items.len() ==> fields[start + i].admits(#[trigger] items[i])
            &&& encode_values(items) == bytes.subrange(pos, end)
        }),
    decreases fields, fields.len() - start,
{
    if start >= fields.len() {
        assert(bytes.subrange(pos, pos) =~= Seq::<u8>::empty());
    } else {
        lemma_encode_of_decoded(fields[start as int], bytes, pos);
        let (first, next) = decode_value(fields[start as int], bytes, pos).unwrap();
        lemma_encode_of_decoded_record(fields, start + 1, bytes, next);
        let (rest, end) = decode_record(fields, start + 1, bytes, next).unwrap();
        let items = seq![first] + rest;
        lemma_encode_values_cons(first, rest);
        assert(bytes.subrange(pos, next) + bytes.subrange(next, end) =~= bytes.subrange(pos, end));
        assert forall|i: int| 0 <= i < items.len() implies fields[start + i].admits(
            #[trigger] items[i],
        ) by {
            if i > 0 {
                assert(items[i] == rest[i - 1]);
                assert(fields[start + 1 + (i - 1)].admits(rest[i - 1]));
            }
        }
    }
}

/// The same for the items of a list or an array.
pub proof fn lemma_encode_of_decoded_repeat(
    item: SpecLayout,
    count: nat,
    bytes: Seq<u8>,
    pos: int,
)
    requires
        decode_repeat(item, count, bytes, pos) is Some,
    ensures
        ({
            let (items, end) = decode_repeat(item, count, bytes, pos).unwrap();
            &&& 0 <= pos <= end <= bytes.len()
            &&& items.len() == count
            &&& forall|i: int| 0 <= i < items.len() ==> item.admits(#[trigger] items[i])
            &&& encode_values(items) == bytes.subrange(pos, end)
        }),
    decreases item, count,
{
    if count == 0 {
        assert(bytes.subrange(pos, pos) =~= Seq::<u8>::empty());
    } else {
        lemma_encode_of_decoded(item, bytes, pos);
        let (first, next) = decode_value(item, bytes, pos).unwrap();
        lemma_encode_of_decoded_repeat(item, (count - 1) as nat, bytes, next);
        let (rest, end) = decode_repeat(item, (count - 1) as nat, bytes, next).unwrap();
        let items = seq![first] + rest;
        lemma_encode_values_cons(first, rest);
        assert(bytes.subrange(pos, next) + bytes.subrange(next, end) =~= bytes.subrange(pos, end));
        assert forall|i: int| 0 <= i < items.len() implies item.admits(#[trigger] items[i]) by {
            if i > 0 {
                assert(items[i] == rest[i - 1]);
            }
        }
    }
}

/// Encoding undoes decoding: the field values that are read from the rest of a
/// buffer are admitted by `fields`, and their bytes are that rest.
pub proof fn lemma_encode_of_decoded_fields(fields: Seq<SpecLayout>, bytes: Seq<u8>, pos: int)
    requires
        decode_fields(fields, bytes, pos) is Some,
    ensures
        0 <= pos <= bytes.len(),
        all_admitted(fields, decode_fields(fields, bytes, pos).unwrap()),
        encode_values(decode_fields(fields, bytes, pos).unwrap()) == bytes.subrange(
            pos,
            bytes.len() as int,
        ),
{
    lemma_encode_of_decoded_record(fields, 0, bytes, pos);
}

/// Reads the rest of `bytes`, from `pos` on, as one value for each of `fields`.
pub fn read_fields(fields: &Vec<Layout>, bytes: &[u8], pos: usize) -> (read: Option<Vec<Value>>)
    ensures
        match read {
            Some(items) => decode_fields(layouts_view(fields@), bytes@, pos as int) == Some(
                values_view(items@),
            ),
            None => decode_fields(layouts_view(fields@), bytes@, pos as int) is None,
        },
{
    match read_record(fields, bytes, pos) {
        Some((items, end)) => if end == bytes.len() {
            Some(items)
        } else {
            None
        },
        None => None,
    }
}

} // verus!
