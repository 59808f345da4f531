use scheduling_conflicts::{Deserializer, Error, Result, Serializer};
use std::collections::BTreeMap;

#[derive(Debug, Default, PartialEq)]
struct UnitStruct;

#[derive(Debug, Default, PartialEq)]
struct NewType(i32);

#[derive(Debug, Default, PartialEq)]
struct TupleStruct(i32, i32, i32);

#[derive(Debug, Default, PartialEq)]
struct Struct {
    a: i32,
    b: i32,
    c: i32,
}

#[derive(Debug, PartialEq)]
enum Enum {
    Unit,
    NewType(i32),
    Tuple(i32, i32, i32),
    Struct { a: i32, b: i32, c: i32 },
}

impl Default for Enum {
    fn default() -> Self {
        Enum::Unit
    }
}

#[derive(Debug, PartialEq)]
struct Advanced {
    a: i32,
    b: String,
    c: Vec<Struct>,
    d: BTreeMap<u64, Enum>,
    e: (u64, u8, Struct),
}

impl Default for Advanced {
    fn default() -> Self {
        Advanced {
            a: 0,
            b: "default".to_string(),
            c: vec![],
            d: BTreeMap::new(),
            e: (0, 0, Struct::default()),
        }
    }
}

fn new_advanced_struct() -> Advanced {
    Advanced {
        a: 1,
        b: "2".to_string(),
        c: vec![Struct { a: 3, b: 4, c: 5 }, Struct { a: 6, b: 7, c: 8 }],
        d: BTreeMap::from([(9, Enum::Unit), (10, Enum::Tuple(11, 12, 13))]),
        e: (14, 15, Struct { a: 16, b: 17, c: 18 }),
    }
}

fn read_struct(d: &mut Deserializer) -> Result<Struct> {
    Ok(Struct { a: d.deserialize_i32()?, b: d.deserialize_i32()?, c: d.deserialize_i32()? })
}

fn read_tuple_struct(d: &mut Deserializer) -> Result<TupleStruct> {
    Ok(TupleStruct(d.deserialize_i32()?, d.deserialize_i32()?, d.deserialize_i32()?))
}

fn read_enum(d: &mut Deserializer) -> Result<Enum> {
    let variant = d.deserialize_str()?;
    match variant.as_str() {
        "Unit" => Ok(Enum::Unit),
        "NewType" => Ok(Enum::NewType(d.deserialize_i32()?)),
        "Tuple" => Ok(Enum::Tuple(d.deserialize_i32()?, d.deserialize_i32()?, d.deserialize_i32()?)),
        "Struct" => Ok(Enum::Struct {
            a: d.deserialize_i32()?,
            b: d.deserialize_i32()?,
            c: d.deserialize_i32()?,
        }),
        other => Err(Error::Message(format!("unknown variant {other}"))),
    }
}

fn read_seq_i32(d: &mut Deserializer) -> Result<Vec<i32>> {
    let mut values = Vec::new();
    while d.next_element()? {
        values.push(d.deserialize_i32()?);
    }
    Ok(values)
}

fn read_map_i32(d: &mut Deserializer) -> Result<BTreeMap<i32, i32>> {
    let mut map = BTreeMap::new();
    while d.next_element()? {
        let key = d.deserialize_i32()?;
        map.insert(key, d.deserialize_i32()?);
    }
    Ok(map)
}

fn read_option_i32(d: &mut Deserializer) -> Result<Option<i32>> {
    if d.deserialize_none()? {
        Ok(None)
    } else {
        Ok(Some(d.deserialize_i32()?))
    }
}

fn read_advanced(d: &mut Deserializer) -> Result<Advanced> {
    let a = d.deserialize_i32()?;
    let b = d.deserialize_string()?;
    let mut c = Vec::new();
    while d.next_element()? {
        c.push(read_struct(d)?);
    }
    let mut map = BTreeMap::new();
    while d.next_element()? {
        let key = d.deserialize_u64()?;
        map.insert(key, read_enum(d)?);
    }
    let e = (d.deserialize_u64()?, d.deserialize_u8()?, read_struct(d)?);
    Ok(Advanced { a, b, c, d: map, e })
}

fn write_struct(s: &mut Serializer, value: &Struct) {
    for field in [value.a, value.b, value.c] {
        s.serialize_field();
        s.serialize_i32(field);
    }
}

fn write_enum(s: &mut Serializer, value: &Enum) {
    match value {
        Enum::Unit => s.serialize_unit_variant("Unit"),
        Enum::NewType(v) => {
            s.serialize_newtype_variant("NewType");
            s.serialize_i32(*v);
        }
        Enum::Tuple(a, b, c) => {
            s.serialize_tuple_variant("Tuple");
            for field in [*a, *b, *c] {
                s.serialize_field();
                s.serialize_i32(field);
            }
        }
        Enum::Struct { a, b, c } => {
            s.serialize_struct_variant("Struct");
            for field in [*a, *b, *c] {
                s.serialize_field();
                s.serialize_i32(field);
            }
        }
    }
}

fn write_advanced(s: &mut Serializer, value: &Advanced) {
    s.serialize_field();
    s.serialize_i32(value.a);
    s.serialize_field();
    s.serialize_str(&value.b);
    s.serialize_field();
    for item in &value.c {
        s.serialize_element();
        write_struct(s, item);
    }
    s.end();
    s.serialize_field();
    for (key, item) in &value.d {
        s.serialize_key();
        s.serialize_u64(*key);
        s.serialize_value();
        write_enum(s, item);
    }
    s.end();
    s.serialize_field();
    s.serialize_field();
    s.serialize_u64(value.e.0);
    s.serialize_field();
    s.serialize_u8(value.e.1);
    s.serialize_field();
    write_struct(s, &value.e.2);
}

#[test]
fn deserialize_bool() {
    let mut d = Deserializer::new("true false");
    assert_eq!(d.deserialize_bool().unwrap(), true);
    assert_eq!(d.deserialize_bool().unwrap(), false);
}

#[test]
fn deserialize_bool_error() {
    let mut d = Deserializer::new("a");
    assert!(matches!(d.deserialize_bool(), Err(Error::Message(_))));
    assert!(matches!(d.deserialize_bool(), Err(Error::EndOfInput)));
}

#[test]
fn deserialize_i8() {
    let mut d = Deserializer::new("1 -1");
    assert_eq!(d.deserialize_i8().unwrap(), 1);
    assert_eq!(d.deserialize_i8().unwrap(), -1);
}

#[test]
fn deserialize_i8_error() {
    let mut d = Deserializer::new("a 128");
    assert!(matches!(d.deserialize_i8(), Err(Error::Message(_))));
    assert!(matches!(d.deserialize_i8(), Err(Error::Message(_))));
    assert!(matches!(d.deserialize_i8(), Err(Error::EndOfInput)));
}

#[test]
fn deserialize_i16() {
    let mut d = Deserializer::new("1 -1");
    assert_eq!(d.deserialize_i16().unwrap(), 1);
    assert_eq!(d.deserialize_i16().unwrap(), -1);
}

#[test]
fn deserialize_i16_error() {
    let mut d = Deserializer::new("a 32769");
    assert!(matches!(d.deserialize_i16(), Err(Error::Message(_))));
    assert!(matches!(d.deserialize_i16(), Err(Error::Message(_))));
    assert!(matches!(d.deserialize_i16(), Err(Error::EndOfInput)));
}

#[test]
fn deserialize_i32() {
    let mut d = Deserializer::new("1 -1");
    assert_eq!(d.deserialize_i32().unwrap(), 1);
    assert_eq!(d.deserialize_i32().unwrap(), -1);
}

#[test]
fn deserialize_i32_error() {
    let mut d = Deserializer::new("a 2147483649");
    assert!(matches!(d.deserialize_i32(), Err(Error::Message(_))));
    assert!(matches!(d.deserialize_i32(), Err(Error::Message(_))));
    assert!(matches!(d.deserialize_i32(), Err(Error::EndOfInput)));
}

#[test]
fn deserialize_i64() {
    let mut d = Deserializer::new("1 -1");
    assert_eq!(d.deserialize_i64().unwrap(), 1);
    assert_eq!(d.deserialize_i64().unwrap(), -1);
}

#[test]
fn deserialize_i64_error() {
    let mut d = Deserializer::new("a 9223372036854775809");
    assert!(matches!(d.deserialize_i64(), Err(Error::Message(_))));
    assert!(matches!(d.deserialize_i64(), Err(Error::Message(_))));
    assert!(matches!(d.deserialize_i64(), Err(Error::EndOfInput)));
}

#[test]
fn deserialize_i128() {
    let mut d = Deserializer::new("1 -1");
    assert_eq!(d.deserialize_i128().unwrap(), 1);
    assert_eq!(d.deserialize_i128().unwrap(), -1);
}

#[test]
fn deserialize_i128_error() {
    let mut d = Deserializer::new("a 170141183460469231731687303715884105729");
    assert!(matches!(d.deserialize_i128(), Err(Error::Message(_))));
    assert!(matches!(d.deserialize_i128(), Err(Error::Message(_))));
    assert!(matches!(d.deserialize_i128(), Err(Error::EndOfInput)));
}

#[test]
fn deserialize_u8() {
    let mut d = Deserializer::new("1 255");
    assert_eq!(d.deserialize_u8().unwrap(), 1);
    assert_eq!(d.deserialize_u8().unwrap(), 255);
}

#[test]
fn deserialize_u8_error() {
    let mut d = Deserializer::new("a 256");
    assert!(matches!(d.deserialize_u8(), Err(Error::Message(_))));
    assert!(matches!(d.deserialize_u8(), Err(Error::Message(_))));
    assert!(matches!(d.deserialize_u8(), Err(Error::EndOfInput)));
}

#[test]
fn deserialize_u16() {
    let mut d = Deserializer::new("1 65535");
    assert_eq!(d.deserialize_u16().unwrap(), 1);
    assert_eq!(d.deserialize_u16().unwrap(), 65535);
}

#[test]
fn deserialize_u16_error() {
    let mut d = Deserializer::new("a 65536");
    assert!(matches!(d.deserialize_u16(), Err(Error::Message(_))));
    assert!(matches!(d.deserialize_u16(), Err(Error::Message(_))));
    assert!(matches!(d.deserialize_u16(), Err(Error::EndOfInput)));
}

#[test]
fn deserialize_u32() {
    let mut d = Deserializer::new("1 4294967295");
    assert_eq!(d.deserialize_u32().unwrap(), 1);
    assert_eq!(d.deserialize_u32().unwrap(), 4294967295);
}

#[test]
fn deserialize_u32_error() {
    let mut d = Deserializer::new("a 4294967296");
    assert!(matches!(d.deserialize_u32(), Err(Error::Message(_))));
    assert!(matches!(d.deserialize_u32(), Err(Error::Message(_))));
    assert!(matches!(d.deserialize_u32(), Err(Error::EndOfInput)));
}

#[test]
fn deserialize_u64() {
    let mut d = Deserializer::new("1 18446744073709551615");
    assert_eq!(d.deserialize_u64().unwrap(), 1);
    assert_eq!(d.deserialize_u64().unwrap(), 18446744073709551615);
}

#[test]
fn deserialize_u64_error() {
    let mut d = Deserializer::new("a 18446744073709551616");
    assert!(matches!(d.deserialize_u64(), Err(Error::Message(_))));
    assert!(matches!(d.deserialize_u64(), Err(Error::Message(_))));
    assert!(matches!(d.deserialize_u64(), Err(Error::EndOfInput)));
}

#[test]
fn deserialize_u128() {
    let mut d = Deserializer::new("1 340282366920938463463374607431768211455");
    assert_eq!(d.deserialize_u128().unwrap(), 1);
    assert_eq!(d.deserialize_u128().unwrap(), 340282366920938463463374607431768211455);
}

#[test]
fn deserialize_u128_error() {
    let mut d = Deserializer::new("a 340282366920938463463374607431768211456");
    assert!(matches!(d.deserialize_u128(), Err(Error::Message(_))));
    assert!(matches!(d.deserialize_u128(), Err(Error::Message(_))));
    assert!(matches!(d.deserialize_u128(), Err(Error::EndOfInput)));
}

#[test]
fn deserialize_char() {
    let mut d = Deserializer::new("a b");
    assert_eq!(d.deserialize_char().unwrap(), 'a');
    assert_eq!(d.deserialize_char().unwrap(), 'b');
}

#[test]
fn deserialize_char_error() {
    let mut d = Deserializer::new("ab");
    assert!(matches!(d.deserialize_char(), Err(Error::Message(_))));
    assert!(matches!(d.deserialize_char(), Err(Error::EndOfInput)));
}

#[test]
fn deserialize_str() {
    let mut d = Deserializer::new("ab cd");
    assert_eq!(d.deserialize_string().unwrap(), "ab");
    assert_eq!(d.deserialize_string().unwrap(), "cd");
}

#[test]
fn deserialize_str_error() {
    let mut d = Deserializer::new("");
    assert!(matches!(d.deserialize_string(), Err(Error::EndOfInput)));
}

#[test]
fn deserialize_option() {
    let mut d = Deserializer::new("- 1 -");
    assert_eq!(read_option_i32(&mut d).unwrap(), None);
    assert_eq!(read_option_i32(&mut d).unwrap(), Some(1));
    assert_eq!(read_option_i32(&mut d).unwrap(), None);
}

#[test]
fn deserialize_option_error() {
    let mut d = Deserializer::new("a");
    assert!(matches!(read_option_i32(&mut d), Err(Error::Message(_))));
    assert!(matches!(read_option_i32(&mut d), Err(Error::EndOfInput)));
}

#[test]
fn deserialize_unit() {
    let mut d = Deserializer::new("- -");
    assert_eq!(d.deserialize_unit().unwrap(), ());
    assert_eq!(d.deserialize_unit().unwrap(), ());
}

#[test]
fn deserialize_unit_error() {
    let mut d = Deserializer::new("a");
    assert!(matches!(d.deserialize_unit(), Err(Error::ExpectedUnit)));
    assert!(matches!(d.deserialize_unit(), Err(Error::EndOfInput)));
}

#[test]
fn deserialize_newtype_struct() {
    let mut d = Deserializer::new("1 2");
    assert_eq!(NewType(d.deserialize_i32().unwrap()), NewType(1));
    assert_eq!(NewType(d.deserialize_i32().unwrap()), NewType(2));
}

#[test]
fn deserialize_seq() {
    let mut d = Deserializer::new("1\n2\n3\n\n4\n5\n6\n\n");
    assert_eq!(read_seq_i32(&mut d).unwrap(), vec![1, 2, 3]);
    assert_eq!(read_seq_i32(&mut d).unwrap(), vec![4, 5, 6]);
}

#[test]
fn deserialize_tuple_struct() {
    let mut d = Deserializer::new("1 2 3 4 5 6");
    assert_eq!(read_tuple_struct(&mut d).unwrap(), TupleStruct(1, 2, 3));
    assert_eq!(read_tuple_struct(&mut d).unwrap(), TupleStruct(4, 5, 6));
}

#[test]
fn deserialize_map() {
    let mut d = Deserializer::new("1 2\n3 4\n5 6\n\n7 8\n9 10\n11 12\n\n");
    assert_eq!(read_map_i32(&mut d).unwrap(), BTreeMap::from([(1, 2), (3, 4), (5, 6)]));
    assert_eq!(read_map_i32(&mut d).unwrap(), BTreeMap::from([(7, 8), (9, 10), (11, 12)]));
}

#[test]
fn deserialize_struct() {
    let mut d = Deserializer::new("1 2 3 4 5 6");
    assert_eq!(read_struct(&mut d).unwrap(), Struct { a: 1, b: 2, c: 3 });
    assert_eq!(read_struct(&mut d).unwrap(), Struct { a: 4, b: 5, c: 6 });
}

#[test]
fn deserialize_enum() {
    let mut d = Deserializer::new("Unit Tuple 1 2 3 Struct 4 5 6");
    assert_eq!(read_enum(&mut d).unwrap(), Enum::Unit);
    assert_eq!(read_enum(&mut d).unwrap(), Enum::Tuple(1, 2, 3));
    assert_eq!(read_enum(&mut d).unwrap(), Enum::Struct { a: 4, b: 5, c: 6 });
}

#[test]
fn deserialize_advanced_struct() {
    let mut d = Deserializer::new(
        "1 2\n3 4 5\n6 7 8\n\n9 Unit\n10 Tuple 11 12 13\n\n14 15 16 17 18",
    );
    assert_eq!(read_advanced(&mut d).unwrap(), new_advanced_struct());
}

#[test]
fn serialize_and_deserialize() {
    let mut s = Serializer::default();
    s.serialize_unit_struct();
    let text = s.finish();
    let mut d = Deserializer::new(&text);
    d.deserialize_unit_struct().unwrap();
    assert_eq!(UnitStruct, UnitStruct::default());

    let value = NewType::default();
    let mut s = Serializer::default();
    s.serialize_i32(value.0);
    let text = s.finish();
    assert_eq!(value, NewType(Deserializer::new(&text).deserialize_i32().unwrap()));

    let value = TupleStruct::default();
    let mut s = Serializer::default();
    for field in [value.0, value.1, value.2] {
        s.serialize_field();
        s.serialize_i32(field);
    }
    let text = s.finish();
    assert_eq!(value, read_tuple_struct(&mut Deserializer::new(&text)).unwrap());

    let value = Enum::default();
    let mut s = Serializer::default();
    write_enum(&mut s, &value);
    let text = s.finish();
    assert_eq!(value, read_enum(&mut Deserializer::new(&text)).unwrap());

    let value = Struct::default();
    let mut s = Serializer::default();
    write_struct(&mut s, &value);
    let text = s.finish();
    assert_eq!(value, read_struct(&mut Deserializer::new(&text)).unwrap());

    let value = Advanced::default();
    let mut s = Serializer::default();
    write_advanced(&mut s, &value);
    let text = s.finish();
    assert_eq!(value, read_advanced(&mut Deserializer::new(&text)).unwrap());
}

#[test]
fn advanced_struct_round_trip() {
    let value = new_advanced_struct();
    let mut s = Serializer::default();
    write_advanced(&mut s, &value);
    let text = s.finish();
    assert_eq!(text, "1 2\n3 4 5\n6 7 8\n\n9 Unit\n10 Tuple 11 12 13\n\n14 15 16 17 18");
    assert_eq!(read_advanced(&mut Deserializer::new(&text)).unwrap(), value);
}

#[test]
fn deserialize_bytes_hex_pairs() {
    let mut d = Deserializer::new("0102AB 0102a 0G");
    assert_eq!(d.deserialize_bytes().unwrap(), vec![0x01, 0x02, 0xab]);
    assert!(matches!(d.deserialize_bytes(), Err(Error::InvalidHexLength)));
    assert!(matches!(d.deserialize_bytes(), Err(Error::Message(_))));
    assert!(matches!(d.deserialize_bytes(), Err(Error::EndOfInput)));
}

#[test]
fn deserialize_signs_and_white_space() {
    let mut d = Deserializer::new("  +5 -0\t\r\n-128 -129 +\n-5");
    assert_eq!(d.deserialize_u8().unwrap(), 5);
    assert_eq!(d.deserialize_i8().unwrap(), 0);
    assert_eq!(d.deserialize_i8().unwrap(), -128);
    assert!(matches!(d.deserialize_i8(), Err(Error::Message(_))));
    assert!(matches!(d.deserialize_u8(), Err(Error::Message(_))));
    assert!(matches!(d.deserialize_u8(), Err(Error::Message(_))));
    assert!(matches!(d.deserialize_any(), Err(Error::AnyNotSupported)));
}
