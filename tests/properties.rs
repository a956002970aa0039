use endiannezz::endian::{
    choice, determine_endian, find, get_endian, only_one, parse, Attribute, ByteOrder, Endian,
    GenError,
};
use endiannezz::io::{native_order, Config, ReadError, Registry, Value};
use endiannezz::layout::{Data, DeriveInput, Field, FieldType, Fields, Variant};
use endiannezz::primitive::{read_primitive, write_primitive, Primitive, PrimitiveKind};

fn attr(name: &str, args: &[&str]) -> Attribute {
    Attribute {
        name: name.to_string(),
        args: args.iter().map(|a| a.to_string()).collect(),
    }
}

fn prim(ident: &str, kind: PrimitiveKind, attrs: Vec<Attribute>) -> Field {
    Field {
        ident: ident.to_string(),
        attrs,
        ty: FieldType::Primitive(kind),
    }
}

fn record(endian: &str, fields: Vec<Field>) -> DeriveInput {
    DeriveInput {
        ident: "Record".to_string(),
        attrs: vec![attr("endian", &[endian])],
        data: Data::Struct(Fields::Named(fields)),
    }
}

fn tagged(repr: &str, variants: Vec<Variant>) -> DeriveInput {
    DeriveInput {
        ident: "Tagged".to_string(),
        attrs: vec![attr("endian", &["little"]), attr("repr", &[repr])],
        data: Data::Enum(variants),
    }
}

fn unit_variant(ident: &str, discriminant: Option<i128>) -> Variant {
    Variant {
        ident: ident.to_string(),
        discriminant,
        fields: Fields::Unit,
    }
}

fn write_with(reg: &Registry, t: usize, v: &Value, cfg: &Config) -> Vec<u8> {
    let mut out = Vec::new();
    reg.write(t, v, cfg, &mut out);
    out
}

fn host() -> Config {
    Config::host()
}

fn derive_err(input: &DeriveInput) -> GenError {
    let mut reg = Registry::new();
    reg.derive(input).unwrap_err()
}

#[test]
fn round_trip_of_nested_record_and_union() {
    let mut reg = Registry::new();
    let inner = reg
        .derive(&record(
            "little",
            vec![
                prim("a", PrimitiveKind::I8, vec![]),
                prim("b", PrimitiveKind::U128, vec![attr("endian", &["be"])]),
                prim("c", PrimitiveKind::I64, vec![attr("endian", &["native"])]),
            ],
        ))
        .unwrap();
    let outer = reg
        .derive(&tagged(
            "i16",
            vec![
                unit_variant("Empty", Some(-1)),
                Variant {
                    ident: "Full".to_string(),
                    discriminant: Some(300),
                    fields: Fields::Unnamed(vec![
                        Field {
                            ident: String::new(),
                            attrs: vec![],
                            ty: FieldType::Io(inner),
                        },
                        Field {
                            ident: String::new(),
                            attrs: vec![],
                            ty: FieldType::Bool,
                        },
                    ]),
                },
            ],
        ))
        .unwrap();
    let inner_value = Value::Struct(vec![
        Value::Primitive(Primitive::I8(-128)),
        Value::Primitive(Primitive::U128(u128::MAX - 1)),
        Value::Primitive(Primitive::I64(i64::MIN)),
    ]);
    let v = Value::Variant(1, vec![inner_value, Value::Bool(true)]);
    let bytes = write_with(&reg, outer, &v, &host());
    assert_eq!(bytes.len(), 2 + 1 + 16 + 8 + 1);
    assert_eq!(&bytes[0..3], &[0x2c, 0x01, 0x80]);
    let (back, n) = reg.read(outer, &bytes, 0, &host()).unwrap();
    assert_eq!(back, v);
    assert_eq!(n, bytes.len());

    let empty = Value::Variant(0, vec![]);
    let bytes = write_with(&reg, outer, &empty, &host());
    assert_eq!(bytes, vec![0xff, 0xff]);
    assert_eq!(reg.read(outer, &bytes, 0, &host()).unwrap(), (empty, 2));
}

#[test]
fn read_at_offset_leaves_the_rest() {
    let mut reg = Registry::new();
    let t = reg
        .derive(&record("big", vec![prim("x", PrimitiveKind::U16, vec![])]))
        .unwrap();
    let bytes = [9u8, 0x12, 0x34, 7];
    let (v, n) = reg.read(t, &bytes, 1, &host()).unwrap();
    assert_eq!(v, Value::Struct(vec![Value::Primitive(Primitive::U16(0x1234))]));
    assert_eq!(n, 3);
}

#[test]
fn other_order_reverses_bytes() {
    let p = Primitive::U32(0x0102_0304);
    let mut le = Vec::new();
    write_primitive(p, ByteOrder::Little, &mut le);
    let mut be = Vec::new();
    write_primitive(p, ByteOrder::Big, &mut be);
    assert_eq!(le, vec![4, 3, 2, 1]);
    assert_eq!(be, vec![1, 2, 3, 4]);
    assert_eq!(
        read_primitive(PrimitiveKind::U32, ByteOrder::Big, &le, 0),
        Some(Primitive::U32(0x0403_0201))
    );
    assert_eq!(
        read_primitive(PrimitiveKind::U32, ByteOrder::Little, &le, 0),
        Some(p)
    );

    let one = Primitive::I8(-3);
    let mut b = Vec::new();
    write_primitive(one, ByteOrder::Little, &mut b);
    assert_eq!(b, vec![0xfd]);
    assert_eq!(read_primitive(PrimitiveKind::I8, ByteOrder::Big, &b, 0), Some(one));
}

#[test]
fn signed_extremes_round_trip() {
    for p in [
        Primitive::I128(i128::MIN),
        Primitive::I128(-1),
        Primitive::I64(-2),
        Primitive::I32(i32::MIN),
        Primitive::I16(-0x1234),
        Primitive::U64(u64::MAX),
        Primitive::U128(u128::MAX),
    ] {
        for o in [ByteOrder::Little, ByteOrder::Big] {
            let mut out = Vec::new();
            write_primitive(p, o, &mut out);
            assert_eq!(read_primitive(p.kind_of(), o, &out, 0), Some(p));
        }
    }
    let mut out = Vec::new();
    write_primitive(Primitive::I64(-2), ByteOrder::Big, &mut out);
    assert_eq!(out, vec![0xff, 0xff, 0xff, 0xff, 0xff, 0xff, 0xff, 0xfe]);
}

#[test]
fn short_input_is_unexpected_eof() {
    assert_eq!(read_primitive(PrimitiveKind::U64, ByteOrder::Little, &[1, 2, 3], 0), None);
    assert_eq!(read_primitive(PrimitiveKind::U8, ByteOrder::Little, &[1], 1), None);
    let mut reg = Registry::new();
    let t = reg
        .derive(&record("big", vec![prim("x", PrimitiveKind::U32, vec![])]))
        .unwrap();
    assert_eq!(reg.read(t, &[0, 0, 1], 0, &host()), Err(ReadError::UnexpectedEof));
}

#[test]
fn field_order_is_wire_order() {
    let mut reg = Registry::new();
    let ab = reg
        .derive(&record(
            "big",
            vec![prim("a", PrimitiveKind::U8, vec![]), prim("b", PrimitiveKind::U16, vec![])],
        ))
        .unwrap();
    let ba = reg
        .derive(&record(
            "big",
            vec![prim("b", PrimitiveKind::U16, vec![]), prim("a", PrimitiveKind::U8, vec![])],
        ))
        .unwrap();
    let v_ab = Value::Struct(vec![
        Value::Primitive(Primitive::U8(1)),
        Value::Primitive(Primitive::U16(0x0203)),
    ]);
    let v_ba = Value::Struct(vec![
        Value::Primitive(Primitive::U16(0x0203)),
        Value::Primitive(Primitive::U8(1)),
    ]);
    assert_eq!(write_with(&reg, ab, &v_ab, &host()), vec![1, 2, 3]);
    assert_eq!(write_with(&reg, ba, &v_ba, &host()), vec![2, 3, 1]);
}

#[test]
fn redundant_override_is_rejected() {
    let input = record(
        "big",
        vec![
            prim("a", PrimitiveKind::U8, vec![]),
            prim("b", PrimitiveKind::U16, vec![attr("endian", &["be"])]),
        ],
    );
    assert_eq!(derive_err(&input), GenError::RedundantOverride);
    let native = record(
        "_",
        vec![prim("a", PrimitiveKind::U16, vec![attr("endian", &["ne"])])],
    );
    assert_eq!(derive_err(&native), GenError::RedundantOverride);
}

#[test]
fn generation_errors() {
    let no_endian = DeriveInput {
        ident: "R".to_string(),
        attrs: vec![],
        data: Data::Struct(Fields::Unit),
    };
    assert_eq!(derive_err(&no_endian), GenError::MissingDefaultEndian);

    let twice = DeriveInput {
        ident: "R".to_string(),
        attrs: vec![attr("endian", &["le"]), attr("endian", &["be"])],
        data: Data::Struct(Fields::Unit),
    };
    assert_eq!(derive_err(&twice), GenError::MissingDefaultEndian);

    assert_eq!(derive_err(&record("middle", vec![])), GenError::UnknownEndianSpelling);

    let two_args = DeriveInput {
        ident: "R".to_string(),
        attrs: vec![attr("endian", &["le", "be"])],
        data: Data::Struct(Fields::Unit),
    };
    assert_eq!(derive_err(&two_args), GenError::MalformedAttribute);

    let no_repr = DeriveInput {
        ident: "E".to_string(),
        attrs: vec![attr("endian", &["le"])],
        data: Data::Enum(vec![unit_variant("A", Some(1))]),
    };
    assert_eq!(derive_err(&no_repr), GenError::MissingRepr);

    assert_eq!(
        derive_err(&tagged("f32", vec![unit_variant("A", Some(1))])),
        GenError::NonIntegerRepr
    );
    assert_eq!(
        derive_err(&tagged("u8", vec![unit_variant("A", Some(1)), unit_variant("B", None)])),
        GenError::MissingDiscriminant
    );
    assert_eq!(
        derive_err(&tagged("u8", vec![unit_variant("A", Some(256))])),
        GenError::DiscriminantOutOfRange
    );
    assert_eq!(
        derive_err(&tagged("i8", vec![unit_variant("A", Some(-129))])),
        GenError::DiscriminantOutOfRange
    );
    assert_eq!(
        derive_err(&tagged("u8", vec![unit_variant("A", Some(3)), unit_variant("B", Some(3))])),
        GenError::DuplicateDiscriminant
    );

    let unknown = record(
        "le",
        vec![Field {
            ident: "inner".to_string(),
            attrs: vec![],
            ty: FieldType::Io(0),
        }],
    );
    assert_eq!(derive_err(&unknown), GenError::UnknownType);

    let union_shape = DeriveInput {
        ident: "U".to_string(),
        attrs: vec![attr("endian", &["le"])],
        data: Data::Union,
    };
    assert_eq!(derive_err(&union_shape), GenError::UnsupportedShape);
}

#[test]
fn failed_generation_leaves_registry_unchanged() {
    let mut reg = Registry::new();
    assert!(reg.derive(&record("big", vec![])).is_ok());
    assert!(reg.derive(&record("nowhere", vec![])).is_err());
    assert_eq!(reg.types.len(), 1);
}

#[test]
fn unknown_discriminant_fails_at_read() {
    let mut reg = Registry::new();
    let t = reg
        .derive(&tagged("u32", vec![unit_variant("A", Some(0xc0ffee)), unit_variant("B", Some(7))]))
        .unwrap();
    assert_eq!(reg.read(t, &[0, 0, 0, 0], 0, &host()), Err(ReadError::InvalidData));
    assert_eq!(reg.read(t, &[7, 0, 0], 0, &host()), Err(ReadError::UnexpectedEof));
    assert_eq!(
        reg.read(t, &[7, 0, 0, 0], 0, &host()),
        Ok((Value::Variant(1, vec![]), 4))
    );
}

#[test]
fn boolean_strictness() {
    let mut reg = Registry::new();
    let t = reg
        .derive(&DeriveInput {
            ident: "Flag".to_string(),
            attrs: vec![attr("endian", &["big"])],
            data: Data::Struct(Fields::Unnamed(vec![Field {
                ident: String::new(),
                attrs: vec![],
                ty: FieldType::Bool,
            }])),
        })
        .unwrap();
    let checked = host();
    let unchecked = Config {
        native: checked.native,
        unchecked_bool: true,
    };
    let flag = |b: bool| Value::Struct(vec![Value::Bool(b)]);
    assert_eq!(reg.read(t, &[0], 0, &checked), Ok((flag(false), 1)));
    assert_eq!(reg.read(t, &[1], 0, &checked), Ok((flag(true), 1)));
    assert_eq!(reg.read(t, &[2], 0, &checked), Err(ReadError::InvalidData));
    assert_eq!(reg.read(t, &[0xff], 0, &checked), Err(ReadError::InvalidData));
    assert_eq!(reg.read(t, &[2], 0, &unchecked), Ok((flag(true), 1)));
    assert_eq!(reg.read(t, &[0], 0, &unchecked), Ok((flag(false), 1)));
    assert_eq!(write_with(&reg, t, &flag(true), &unchecked), vec![1]);
    assert_eq!(write_with(&reg, t, &flag(false), &checked), vec![0]);
}

#[test]
fn marker_payload_is_exact() {
    let payload = vec![0x89, 0x50, 0x4e, 0x47];
    let mut reg = Registry::new();
    let t = reg.register_payload(payload.clone());
    assert_eq!(reg.read(t, &payload, 0, &host()), Ok((Value::Unit, 4)));
    for i in 0..payload.len() {
        let mut changed = payload.clone();
        changed[i] ^= 0x01;
        assert_eq!(reg.read(t, &changed, 0, &host()), Err(ReadError::InvalidData));
    }
    assert_eq!(reg.read(t, &payload[..3], 0, &host()), Err(ReadError::UnexpectedEof));
}

#[test]
fn native_order_is_the_machine_order() {
    let expected = if 1u16.to_ne_bytes()[0] == 1 {
        ByteOrder::Little
    } else {
        ByteOrder::Big
    };
    assert_eq!(native_order(), expected);
    let mut reg = Registry::new();
    let t = reg
        .derive(&record(
            "little",
            vec![prim("m", PrimitiveKind::U32, vec![attr("endian", &["native"])])],
        ))
        .unwrap();
    let v = Value::Struct(vec![Value::Primitive(Primitive::U32(0x0102_0304))]);
    assert_eq!(write_with(&reg, t, &v, &host()), 0x0102_0304u32.to_ne_bytes().to_vec());
    let big_machine = Config {
        native: ByteOrder::Big,
        unchecked_bool: false,
    };
    assert_eq!(write_with(&reg, t, &v, &big_machine), vec![1, 2, 3, 4]);
}

#[test]
fn attribute_helpers() {
    assert_eq!(only_one(vec![5]), Some(5));
    assert_eq!(only_one::<u8>(vec![]), None);
    assert_eq!(only_one(vec![1, 2]), None);

    let attrs = vec![attr("repr", &["u8"]), attr("endian", &["big"]), attr("doc", &[])];
    assert_eq!(find(&attrs, "endian"), Some(1));
    assert_eq!(find(&attrs, "missing"), None);
    let doubled = vec![attr("endian", &["big"]), attr("endian", &["big"])];
    assert_eq!(find(&doubled, "endian"), None);

    for (text, e) in [
        ("_", Endian::Native),
        ("ne", Endian::Native),
        ("native", Endian::Native),
        ("le", Endian::Little),
        ("little", Endian::Little),
        ("be", Endian::Big),
        ("big", Endian::Big),
    ] {
        assert_eq!(determine_endian(&text.to_string()), Ok(e));
    }
    assert_eq!(
        determine_endian(&"Big".to_string()),
        Err(GenError::UnknownEndianSpelling)
    );

    assert_eq!(parse(&attrs), Ok(Some(Endian::Big)));
    assert_eq!(parse(&vec![]), Ok(None));
    assert_eq!(choice(None, Endian::Big), Ok(Endian::Big));
    assert_eq!(choice(Some(Endian::Little), Endian::Big), Ok(Endian::Little));
    assert_eq!(choice(Some(Endian::Big), Endian::Big), Err(GenError::RedundantOverride));
    assert_eq!(get_endian(&attrs, Endian::Little), Ok(Endian::Big));
    assert_eq!(get_endian(&attrs, Endian::Big), Err(GenError::RedundantOverride));
}

#[test]
fn arrays_round_trip_and_fail_short() {
    let mut reg = Registry::new();
    let t = reg
        .derive(&record(
            "le",
            vec![
                Field {
                    ident: "empty".to_string(),
                    attrs: vec![],
                    ty: FieldType::Array(PrimitiveKind::U64, 0),
                },
                Field {
                    ident: "three".to_string(),
                    attrs: vec![attr("endian", &["big"])],
                    ty: FieldType::Array(PrimitiveKind::I32, 3),
                },
            ],
        ))
        .unwrap();
    let v = Value::Struct(vec![
        Value::Array(vec![]),
        Value::Array(vec![Primitive::I32(-1), Primitive::I32(2), Primitive::I32(i32::MAX)]),
    ]);
    let bytes = write_with(&reg, t, &v, &host());
    assert_eq!(
        bytes,
        vec![0xff, 0xff, 0xff, 0xff, 0, 0, 0, 2, 0x7f, 0xff, 0xff, 0xff]
    );
    assert_eq!(reg.read(t, &bytes, 0, &host()), Ok((v, 12)));
    assert_eq!(reg.read(t, &bytes[..11], 0, &host()), Err(ReadError::UnexpectedEof));
}

#[test]
fn conforms_tells_values_of_the_type() {
    let mut reg = Registry::new();
    let t = reg
        .derive(&record(
            "big",
            vec![
                prim("a", PrimitiveKind::U8, vec![]),
                Field {
                    ident: "b".to_string(),
                    attrs: vec![],
                    ty: FieldType::Array(PrimitiveKind::U16, 2),
                },
            ],
        ))
        .unwrap();
    let good = Value::Struct(vec![
        Value::Primitive(Primitive::U8(1)),
        Value::Array(vec![Primitive::U16(2), Primitive::U16(3)]),
    ]);
    assert!(reg.conforms(t, &good));
    let wrong_kind = Value::Struct(vec![
        Value::Primitive(Primitive::I8(1)),
        Value::Array(vec![Primitive::U16(2), Primitive::U16(3)]),
    ]);
    assert!(!reg.conforms(t, &wrong_kind));
    let short_array = Value::Struct(vec![
        Value::Primitive(Primitive::U8(1)),
        Value::Array(vec![Primitive::U16(2)]),
    ]);
    assert!(!reg.conforms(t, &short_array));
    assert!(!reg.conforms(t, &Value::Struct(vec![Value::Primitive(Primitive::U8(1))])));
    assert!(!reg.conforms(t, &Value::Variant(0, vec![])));
}
