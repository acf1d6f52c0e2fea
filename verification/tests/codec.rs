use anchor_generate_cpi_crate::codec::{
    read_fields, read_record, read_repeat, read_value, write_value, write_values,
};
use anchor_generate_cpi_crate::endian::{read_uint, write_uint};
use anchor_generate_cpi_crate::value::{admit_all, admit_each, are_encodable};
use anchor_generate_cpi_crate::{Layout, Primitive, Value};

fn bytes_of(value: &Value) -> Vec<u8> {
    assert!(value.is_encodable());
    let mut out = Vec::new();
    write_value(value, &mut out);
    out
}

fn round_trip(layout: &Layout, value: Value) {
    assert!(layout.admits(&value));
    let bytes = bytes_of(&value);
    let end = bytes.len();
    assert_eq!(read_value(layout, &bytes, 0), Some((value, end)));
}

fn list_of(kind: Primitive) -> Layout {
    Layout::List(Box::new(Layout::Primitive(kind)))
}

#[test]
fn write_uint_puts_the_low_byte_first() {
    let mut out = vec![0xaa];
    write_uint(0x0102, 2, &mut out);
    assert_eq!(out, vec![0xaa, 0x02, 0x01]);
}

#[test]
fn write_uint_keeps_only_the_low_bytes() {
    let mut out = Vec::new();
    write_uint(0x01_0203, 2, &mut out);
    assert_eq!(out, vec![0x03, 0x02]);
}

#[test]
fn write_uint_of_width_zero_writes_nothing() {
    let mut out = vec![1];
    write_uint(77, 0, &mut out);
    assert_eq!(out, vec![1]);
}

#[test]
fn write_uint_pads_with_zero_bytes() {
    let mut out = Vec::new();
    write_uint(7, 4, &mut out);
    assert_eq!(out, vec![7, 0, 0, 0]);
}

#[test]
fn read_uint_reads_little_endian_at_a_position() {
    let bytes = [0xff, 0x34, 0x12, 0xff];
    assert_eq!(read_uint(&bytes, 1, 2), 0x1234);
    assert_eq!(read_uint(&bytes, 0, 4), 0xff12_34ff);
    assert_eq!(read_uint(&bytes, 4, 0), 0);
}

#[test]
fn read_uint_reads_sixteen_bytes() {
    let bytes = [0xff; 16];
    assert_eq!(read_uint(&bytes, 0, 16), u128::MAX);
}

#[test]
fn primitive_widths_in_bytes() {
    assert_eq!(Primitive::Bool.byte_width(), 1);
    assert_eq!(Primitive::U8.byte_width(), 1);
    assert_eq!(Primitive::I8.byte_width(), 1);
    assert_eq!(Primitive::U16.byte_width(), 2);
    assert_eq!(Primitive::I16.byte_width(), 2);
    assert_eq!(Primitive::U32.byte_width(), 4);
    assert_eq!(Primitive::I32.byte_width(), 4);
    assert_eq!(Primitive::U64.byte_width(), 8);
    assert_eq!(Primitive::I64.byte_width(), 8);
    assert_eq!(Primitive::U128.byte_width(), 16);
    assert_eq!(Primitive::I128.byte_width(), 16);
}

#[test]
fn booleans_are_one_byte_zero_or_one() {
    assert_eq!(bytes_of(&Value::Bool(false)), vec![0]);
    assert_eq!(bytes_of(&Value::Bool(true)), vec![1]);
}

#[test]
fn unsigned_integers_are_little_endian() {
    assert_eq!(bytes_of(&Value::U8(0xab)), vec![0xab]);
    assert_eq!(bytes_of(&Value::U16(0x1234)), vec![0x34, 0x12]);
    assert_eq!(bytes_of(&Value::U32(0x1234_5678)), vec![0x78, 0x56, 0x34, 0x12]);
    assert_eq!(
        bytes_of(&Value::U64(0x0102_0304_0506_0708)),
        vec![0x08, 0x07, 0x06, 0x05, 0x04, 0x03, 0x02, 0x01]
    );
    assert_eq!(bytes_of(&Value::U128(1 << 120)), vec![0, 0, 0, 0, 0, 0, 0, 0, 0, 0, 0, 0, 0, 0, 0, 1]);
    assert_eq!(bytes_of(&Value::U128(u128::MAX)), vec![0xff; 16]);
}

#[test]
fn signed_integers_are_twos_complement() {
    assert_eq!(bytes_of(&Value::I8(-1)), vec![0xff]);
    assert_eq!(bytes_of(&Value::I8(i8::MIN)), vec![0x80]);
    assert_eq!(bytes_of(&Value::I8(i8::MAX)), vec![0x7f]);
    assert_eq!(bytes_of(&Value::I16(-2)), vec![0xfe, 0xff]);
    assert_eq!(bytes_of(&Value::I32(i32::MIN)), vec![0, 0, 0, 0x80]);
    assert_eq!(bytes_of(&Value::I64(-1)), vec![0xff; 8]);
    assert_eq!(bytes_of(&Value::I64(5)), vec![5, 0, 0, 0, 0, 0, 0, 0]);
    assert_eq!(bytes_of(&Value::I128(-256)), {
        let mut bytes = vec![0xff; 16];
        bytes[0] = 0;
        bytes
    });
    assert_eq!(bytes_of(&Value::I128(i128::MIN)), {
        let mut bytes = vec![0; 16];
        bytes[15] = 0x80;
        bytes
    });
}

#[test]
fn scalars_std_agrees() {
    assert_eq!(bytes_of(&Value::U32(3_000_000_000)), 3_000_000_000u32.to_le_bytes().to_vec());
    assert_eq!(bytes_of(&Value::I32(-123_456)), (-123_456i32).to_le_bytes().to_vec());
    assert_eq!(bytes_of(&Value::I64(i64::MIN + 1)), (i64::MIN + 1).to_le_bytes().to_vec());
    assert_eq!(bytes_of(&Value::I128(-7)), (-7i128).to_le_bytes().to_vec());
    assert_eq!(bytes_of(&Value::I16(i16::MAX)), i16::MAX.to_le_bytes().to_vec());
}

#[test]
fn every_scalar_round_trips() {
    round_trip(&Layout::Primitive(Primitive::Bool), Value::Bool(false));
    round_trip(&Layout::Primitive(Primitive::Bool), Value::Bool(true));
    round_trip(&Layout::Primitive(Primitive::U8), Value::U8(u8::MAX));
    round_trip(&Layout::Primitive(Primitive::U16), Value::U16(u16::MAX));
    round_trip(&Layout::Primitive(Primitive::U32), Value::U32(u32::MAX));
    round_trip(&Layout::Primitive(Primitive::U64), Value::U64(u64::MAX));
    round_trip(&Layout::Primitive(Primitive::U128), Value::U128(u128::MAX));
    round_trip(&Layout::Primitive(Primitive::U128), Value::U128(0));
    for x in [i8::MIN, -1, 0, 1, i8::MAX] {
        round_trip(&Layout::Primitive(Primitive::I8), Value::I8(x));
    }
    for x in [i16::MIN, -1, 0, 1, i16::MAX] {
        round_trip(&Layout::Primitive(Primitive::I16), Value::I16(x));
    }
    for x in [i32::MIN, -1, 0, 1, i32::MAX] {
        round_trip(&Layout::Primitive(Primitive::I32), Value::I32(x));
    }
    for x in [i64::MIN, -1, 0, 1, i64::MAX] {
        round_trip(&Layout::Primitive(Primitive::I64), Value::I64(x));
    }
    for x in [i128::MIN, -1, 0, 1, i128::MAX] {
        round_trip(&Layout::Primitive(Primitive::I128), Value::I128(x));
    }
}

#[test]
fn a_boolean_byte_above_one_is_no_boolean() {
    let layout = Layout::Primitive(Primitive::Bool);
    assert_eq!(read_value(&layout, &[0], 0), Some((Value::Bool(false), 1)));
    assert_eq!(read_value(&layout, &[1], 0), Some((Value::Bool(true), 1)));
    assert_eq!(read_value(&layout, &[2], 0), None);
    assert_eq!(read_value(&layout, &[255], 0), None);
}

#[test]
fn a_scalar_that_is_cut_short_is_not_read() {
    let layout = Layout::Primitive(Primitive::U32);
    assert_eq!(read_value(&layout, &[1, 2, 3], 0), None);
    assert_eq!(read_value(&layout, &[1, 2, 3, 4], 1), None);
    assert_eq!(read_value(&layout, &[], 0), None);
}

#[test]
fn reading_starts_at_the_position_given() {
    let layout = Layout::Primitive(Primitive::U16);
    let bytes = [9, 9, 0x34, 0x12, 9];
    assert_eq!(read_value(&layout, &bytes, 2), Some((Value::U16(0x1234), 4)));
    assert_eq!(read_value(&layout, &bytes, 3), Some((Value::U16(0x0912), 5)));
    assert_eq!(read_value(&layout, &bytes, 4), None);
}

#[test]
fn reading_behind_the_end_gives_nothing() {
    let bytes = [1, 2];
    assert_eq!(read_value(&Layout::Primitive(Primitive::U8), &bytes, 3), None);
    assert_eq!(read_value(&Layout::Record(vec![]), &bytes, 3), None);
    assert_eq!(read_record(&vec![], &bytes, 3), None);
    assert_eq!(read_repeat(&Layout::Primitive(Primitive::U8), 0, &bytes, 3), None);
    assert_eq!(read_fields(&vec![], &bytes, 3), None);
}

#[test]
fn reading_nothing_at_the_end_succeeds() {
    let bytes = [1, 2];
    assert_eq!(read_value(&Layout::Record(vec![]), &bytes, 2), Some((Value::Record(vec![]), 2)));
    assert_eq!(read_record(&vec![], &bytes, 2), Some((vec![], 2)));
    assert_eq!(read_repeat(&Layout::Primitive(Primitive::U8), 0, &bytes, 2), Some((vec![], 2)));
    assert_eq!(read_fields(&vec![], &bytes, 2), Some(vec![]));
}

#[test]
fn a_list_is_its_length_in_four_bytes_and_its_items() {
    let value = Value::List(vec![Value::U16(1), Value::U16(2)]);
    assert_eq!(bytes_of(&value), vec![2, 0, 0, 0, 1, 0, 2, 0]);
    round_trip(&list_of(Primitive::U16), value);
}

#[test]
fn an_empty_list_is_four_zero_bytes() {
    assert_eq!(bytes_of(&Value::List(vec![])), vec![0, 0, 0, 0]);
    round_trip(&list_of(Primitive::U64), Value::List(vec![]));
}

#[test]
fn a_list_of_three_hundred_items_has_a_two_byte_count() {
    let value = Value::List((0..300).map(|i| Value::U8((i % 256) as u8)).collect());
    let bytes = bytes_of(&value);
    assert_eq!(bytes.len(), 304);
    assert_eq!(&bytes[..4], &[0x2c, 0x01, 0, 0]);
    round_trip(&list_of(Primitive::U8), value);
}

#[test]
fn an_array_is_its_items_alone() {
    let value = Value::Array(vec![Value::U16(1), Value::U16(2)]);
    assert_eq!(bytes_of(&value), vec![1, 0, 2, 0]);
    round_trip(&Layout::Array(Box::new(Layout::Primitive(Primitive::U16)), 2), value);
}

#[test]
fn an_array_of_no_items_is_no_bytes() {
    let layout = Layout::Array(Box::new(Layout::Primitive(Primitive::U16)), 0);
    assert_eq!(bytes_of(&Value::Array(vec![])), Vec::<u8>::new());
    assert_eq!(read_value(&layout, &[7], 0), Some((Value::Array(vec![]), 0)));
}

#[test]
fn a_record_is_its_fields_in_order() {
    let layout =
        Layout::Record(vec![Layout::Primitive(Primitive::U8), Layout::Primitive(Primitive::I16)]);
    let value = Value::Record(vec![Value::U8(3), Value::I16(-1)]);
    assert_eq!(bytes_of(&value), vec![3, 0xff, 0xff]);
    round_trip(&layout, value);
}

#[test]
fn nested_values_round_trip() {
    let point =
        Layout::Record(vec![Layout::Primitive(Primitive::I32), Layout::Primitive(Primitive::I32)]);
    let layout = Layout::Record(vec![
        Layout::Primitive(Primitive::Bool),
        Layout::List(Box::new(Layout::Array(Box::new(point), 2))),
        Layout::Primitive(Primitive::U128),
    ]);
    let pair = |a: i32, b: i32| Value::Record(vec![Value::I32(a), Value::I32(b)]);
    let value = Value::Record(vec![
        Value::Bool(true),
        Value::List(vec![
            Value::Array(vec![pair(1, -1), pair(2, -2)]),
            Value::Array(vec![pair(i32::MIN, i32::MAX), pair(0, 0)]),
        ]),
        Value::U128(12345678901234567890123456789),
    ]);
    assert_eq!(bytes_of(&value).len(), 1 + 4 + 2 * 2 * 8 + 16);
    round_trip(&layout, value);
}

#[test]
fn a_list_that_promises_more_than_it_holds_is_not_read() {
    let layout = list_of(Primitive::U8);
    assert_eq!(read_value(&layout, &[3, 0, 0, 0, 1, 2], 0), None);
    assert_eq!(read_value(&layout, &[2, 0, 0], 0), None);
    assert_eq!(read_value(&layout, &[0xff, 0xff, 0xff, 0xff], 0), None);
    assert_eq!(
        read_value(&layout, &[2, 0, 0, 0, 1, 2, 3], 0),
        Some((Value::List(vec![Value::U8(1), Value::U8(2)]), 6))
    );
}

#[test]
fn an_array_that_is_cut_short_is_not_read() {
    let layout = Layout::Array(Box::new(Layout::Primitive(Primitive::U16)), 2);
    assert_eq!(read_value(&layout, &[1, 0, 2], 0), None);
}

#[test]
fn fields_must_fill_the_rest_of_the_buffer() {
    let fields = vec![Layout::Primitive(Primitive::U8), Layout::Primitive(Primitive::U8)];
    assert_eq!(read_fields(&fields, &[9, 1, 2], 1), Some(vec![Value::U8(1), Value::U8(2)]));
    assert_eq!(read_fields(&fields, &[9, 1, 2, 3], 1), None);
    assert_eq!(read_fields(&fields, &[9, 1], 1), None);
    assert_eq!(read_record(&fields, &[9, 1, 2, 3], 1), Some((vec![Value::U8(1), Value::U8(2)], 3)));
}

#[test]
fn read_repeat_reads_as_many_items_as_asked() {
    let item = Layout::Primitive(Primitive::U8);
    assert_eq!(
        read_repeat(&item, 2, &[1, 2, 3], 0),
        Some((vec![Value::U8(1), Value::U8(2)], 2))
    );
    assert_eq!(read_repeat(&item, 4, &[1, 2, 3], 0), None);
}

#[test]
fn write_values_appends_each_in_order() {
    let mut out = vec![0xee];
    let values = vec![Value::U8(1), Value::Bool(true), Value::U16(0x0203)];
    assert!(are_encodable(&values));
    write_values(&values, &mut out);
    assert_eq!(out, vec![0xee, 1, 1, 3, 2]);
}

#[test]
fn a_layout_admits_only_values_of_its_shape() {
    let u8s = list_of(Primitive::U8);
    assert!(u8s.admits(&Value::List(vec![Value::U8(1)])));
    assert!(u8s.admits(&Value::List(vec![])));
    assert!(!u8s.admits(&Value::List(vec![Value::U8(1), Value::I8(1)])));
    assert!(!u8s.admits(&Value::Array(vec![Value::U8(1)])));
    assert!(!u8s.admits(&Value::U8(1)));

    let pair = Layout::Array(Box::new(Layout::Primitive(Primitive::Bool)), 2);
    assert!(pair.admits(&Value::Array(vec![Value::Bool(true), Value::Bool(false)])));
    assert!(!pair.admits(&Value::Array(vec![Value::Bool(true)])));
    assert!(!pair.admits(&Value::List(vec![Value::Bool(true), Value::Bool(false)])));

    let record = Layout::Record(vec![Layout::Primitive(Primitive::U8)]);
    assert!(record.admits(&Value::Record(vec![Value::U8(1)])));
    assert!(!record.admits(&Value::Record(vec![])));
    assert!(!record.admits(&Value::Record(vec![Value::U16(1)])));
    assert!(!record.admits(&Value::List(vec![Value::U8(1)])));

    assert!(Layout::Primitive(Primitive::I64).admits(&Value::I64(-1)));
    assert!(!Layout::Primitive(Primitive::I64).admits(&Value::U64(1)));
    assert!(!Layout::Primitive(Primitive::Bool).admits(&Value::U8(1)));
    assert!(!Layout::Primitive(Primitive::U8).admits(&Value::Record(vec![])));
}

#[test]
fn admit_each_and_admit_all_go_item_by_item() {
    let fields = vec![Layout::Primitive(Primitive::U8), Layout::Primitive(Primitive::Bool)];
    assert!(admit_each(&fields, &vec![Value::U8(1), Value::Bool(true)]));
    assert!(!admit_each(&fields, &vec![Value::Bool(true), Value::U8(1)]));
    assert!(!admit_each(&fields, &vec![Value::U8(1)]));
    assert!(admit_each(&vec![], &vec![]));
    let item = Layout::Primitive(Primitive::U8);
    assert!(admit_all(&item, &vec![Value::U8(1), Value::U8(2)]));
    assert!(!admit_all(&item, &vec![Value::U8(1), Value::Bool(true)]));
    assert!(admit_all(&item, &vec![]));
}

#[test]
fn short_lists_are_encodable() {
    assert!(Value::U8(1).is_encodable());
    assert!(Value::List(vec![Value::List(vec![]), Value::List(vec![Value::I128(-1)])]).is_encodable());
    assert!(Value::Record(vec![Value::Array(vec![Value::Bool(true)])]).is_encodable());
    assert!(are_encodable(&vec![]));
}

#[test]
fn a_copied_value_equals_the_value() {
    let value = Value::Record(vec![
        Value::List(vec![Value::I16(-3), Value::I16(4)]),
        Value::Array(vec![Value::Bool(true)]),
        Value::U128(u128::MAX),
    ]);
    let copy = value.clone();
    assert_eq!(copy, value);
    assert_eq!(bytes_of(&copy), bytes_of(&value));
}

#[test]
fn a_copied_layout_equals_the_layout() {
    let layout = Layout::Record(vec![
        Layout::List(Box::new(Layout::Primitive(Primitive::I16))),
        Layout::Array(Box::new(Layout::Record(vec![Layout::Primitive(Primitive::Bool)])), 3),
    ]);
    assert_eq!(layout.clone(), layout);
}
