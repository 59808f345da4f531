use scheduling_conflicts::Serializer;

fn text(serializer: Serializer) -> String {
    serializer.finish()
}

#[test]
fn serialize_bool() {
    let mut s = Serializer::default();
    s.serialize_bool(true);
    assert_eq!(text(s), "true");
    let mut s = Serializer::default();
    s.serialize_bool(false);
    assert_eq!(text(s), "false");
}

#[test]
fn serialize_i8() {
    let mut s = Serializer::default();
    s.serialize_i8(1);
    assert_eq!(text(s), "1");
}

#[test]
fn serialize_i16() {
    let mut s = Serializer::default();
    s.serialize_i16(1);
    assert_eq!(text(s), "1");
}

#[test]
fn serialize_i32() {
    let mut s = Serializer::default();
    s.serialize_i32(1);
    assert_eq!(text(s), "1");
}

#[test]
fn serialize_i64() {
    let mut s = Serializer::default();
    s.serialize_i64(1);
    assert_eq!(text(s), "1");
}

#[test]
fn serialize_i128() {
    let mut s = Serializer::default();
    s.serialize_i128(1);
    assert_eq!(text(s), "1");
}

#[test]
fn serialize_u8() {
    let mut s = Serializer::default();
    s.serialize_u8(1);
    assert_eq!(text(s), "1");
}

#[test]
fn serialize_u16() {
    let mut s = Serializer::default();
    s.serialize_u16(1);
    assert_eq!(text(s), "1");
}

#[test]
fn serialize_u32() {
    let mut s = Serializer::default();
    s.serialize_u32(1);
    assert_eq!(text(s), "1");
}

#[test]
fn serialize_u64() {
    let mut s = Serializer::default();
    s.serialize_u64(1);
    assert_eq!(text(s), "1");
}

#[test]
fn serialize_u128() {
    let mut s = Serializer::default();
    s.serialize_u128(1);
    assert_eq!(text(s), "1");
}

#[test]
fn serialize_char() {
    let mut s = Serializer::default();
    s.serialize_char('a');
    assert_eq!(text(s), "a");
}

#[test]
fn serialize_str() {
    let mut s = Serializer::default();
    s.serialize_str("abc");
    assert_eq!(text(s), "abc");
}

#[test]
fn serialize_bytes() {
    let mut s = Serializer::default();
    s.serialize_bytes(&[0x01, 0x02, 0xab]);
    assert_eq!(text(s), "0102AB");
}

#[test]
fn serialize_none() {
    let mut s = Serializer::default();
    s.serialize_none();
    assert_eq!(text(s), "-");
}

#[test]
fn serialize_some() {
    let mut s = Serializer::default();
    s.serialize_i32(1);
    assert_eq!(text(s), "1");
}

#[test]
fn serialize_unit() {
    let mut s = Serializer::default();
    s.serialize_unit();
    assert_eq!(text(s), "-");
}

#[test]
fn serialize_unit_struct() {
    let mut s = Serializer::default();
    s.serialize_unit_struct();
    assert_eq!(text(s), "-");
}

#[test]
fn serialize_newtype_struct() {
    let mut s = Serializer::default();
    s.serialize_i32(1);
    assert_eq!(text(s), "1");
}

#[test]
fn serialize_newtype_variant() {
    let mut s = Serializer::default();
    s.serialize_newtype_variant("NewType");
    s.serialize_i32(1);
    assert_eq!(text(s), "NewType 1");
}

#[test]
fn serialize_seq() {
    let mut s = Serializer::default();
    for value in [1, 2, 3] {
        s.serialize_element();
        s.serialize_i32(value);
    }
    s.end();
    assert_eq!(text(s), "1\n2\n3\n\n");
}

#[test]
fn serialize_tuple() {
    let mut s = Serializer::default();
    for value in [1u8, 2, 3] {
        s.serialize_field();
        s.serialize_u8(value);
    }
    assert_eq!(text(s), "1 2 3");
}

#[test]
fn serialize_tuple_struct() {
    let mut s = Serializer::default();
    for value in [1, 2, 3] {
        s.serialize_field();
        s.serialize_i32(value);
    }
    assert_eq!(text(s), "1 2 3");
}

#[test]
fn serialize_unit_variant() {
    let mut s = Serializer::default();
    s.serialize_unit_variant("Unit");
    assert_eq!(text(s), "Unit");
}

#[test]
fn serialize_tuple_variant() {
    let mut s = Serializer::default();
    s.serialize_tuple_variant("Tuple");
    for value in [1, 2, 3] {
        s.serialize_field();
        s.serialize_i32(value);
    }
    assert_eq!(text(s), "Tuple 1 2 3");
}

#[test]
fn serialize_map() {
    let mut s = Serializer::default();
    for (key, value) in [(1, 2), (3, 4)] {
        s.serialize_key();
        s.serialize_i32(key);
        s.serialize_value();
        s.serialize_i32(value);
    }
    s.end();
    assert_eq!(text(s), "1 2\n3 4\n\n");
}

#[test]
fn serialize_struct() {
    let mut s = Serializer::default();
    for value in [1, 2, 3] {
        s.serialize_field();
        s.serialize_i32(value);
    }
    assert_eq!(text(s), "1 2 3");
}

#[test]
fn serialize_struct_variant() {
    let mut s = Serializer::default();
    s.serialize_struct_variant("Struct");
    for value in [1, 2, 3] {
        s.serialize_field();
        s.serialize_i32(value);
    }
    assert_eq!(text(s), "Struct 1 2 3");
}

fn write_struct(s: &mut Serializer, fields: [i32; 3]) {
    for value in fields {
        s.serialize_field();
        s.serialize_i32(value);
    }
}

#[test]
fn serialize_advanced_struct() {
    let mut s = Serializer::default();
    s.serialize_field();
    s.serialize_i32(1);
    s.serialize_field();
    s.serialize_str("2");
    s.serialize_field();
    for fields in [[3, 4, 5], [6, 7, 8]] {
        s.serialize_element();
        write_struct(&mut s, fields);
    }
    s.end();
    s.serialize_field();
    s.serialize_key();
    s.serialize_u64(9);
    s.serialize_value();
    s.serialize_unit_variant("Unit");
    s.serialize_key();
    s.serialize_u64(10);
    s.serialize_value();
    s.serialize_tuple_variant("Tuple");
    write_struct(&mut s, [11, 12, 13]);
    s.end();
    s.serialize_field();
    s.serialize_field();
    s.serialize_u64(14);
    s.serialize_field();
    s.serialize_u8(15);
    s.serialize_field();
    write_struct(&mut s, [16, 17, 18]);
    assert_eq!(text(s), "1 2\n3 4 5\n6 7 8\n\n9 Unit\n10 Tuple 11 12 13\n\n14 15 16 17 18");
}

#[test]
fn serialize_negative_and_extreme_integers() {
    let mut s = Serializer::with_capacity(64);
    s.serialize_i128(i128::MIN);
    s.serialize_field();
    s.serialize_i8(-7);
    s.serialize_field();
    s.serialize_u128(u128::MAX);
    s.serialize_field();
    s.serialize_u64(0);
    assert_eq!(
        s.text(),
        "-170141183460469231731687303715884105728 -7 340282366920938463463374607431768211455 0"
    );
}

#[test]
fn serialize_new_line_replaces_trailing_space() {
    let mut s = Serializer::default();
    s.serialize_i32(1);
    s.serialize_field();
    s.serialize_element();
    s.serialize_i32(2);
    assert_eq!(s.finish(), "1\n2");
}
