use endiannezz::endian::{Attribute, Endian, GenError};
use endiannezz::io::{Config, ReadError, Registry, Value};
use endiannezz::layout::{Data, DeriveInput, Field, FieldType, Fields, Variant};
use endiannezz::primitive::{Primitive, PrimitiveKind};

fn attr(name: &str, args: &[&str]) -> Attribute {
    Attribute {
        name: name.to_string(),
        args: args.iter().map(|a| a.to_string()).collect(),
    }
}

fn field(ident: &str, ty: FieldType, attrs: Vec<Attribute>) -> Field {
    Field {
        ident: ident.to_string(),
        attrs,
        ty,
    }
}

fn record(attrs: Vec<Attribute>, fields: Fields) -> DeriveInput {
    DeriveInput {
        ident: "ParseMe".to_string(),
        attrs,
        data: Data::Struct(fields),
    }
}

fn union(attrs: Vec<Attribute>, variants: Vec<Variant>) -> DeriveInput {
    DeriveInput {
        ident: "Foo".to_string(),
        attrs,
        data: Data::Enum(variants),
    }
}

fn variant(ident: &str, discriminant: i128, fields: Fields) -> Variant {
    Variant {
        ident: ident.to_string(),
        discriminant: Some(discriminant),
        fields,
    }
}

fn encode(reg: &Registry, t: usize, v: &Value) -> Vec<u8> {
    let mut out = Vec::new();
    reg.write(t, v, &Config::host(), &mut out);
    out
}

fn decode(reg: &Registry, t: usize, bytes: &[u8]) -> Result<(Value, usize), ReadError> {
    reg.read(t, bytes, 0, &Config::host())
}

fn parse_me_fields(named: bool) -> Fields {
    let fs = vec![
        field(if named { "works" } else { "" }, FieldType::Bool, vec![]),
        field(if named { "data" } else { "" }, FieldType::Primitive(PrimitiveKind::U32), vec![]),
        field(
            if named { "extra" } else { "" },
            FieldType::Primitive(PrimitiveKind::I16),
            vec![attr("endian", &["little"])],
        ),
    ];
    if named {
        Fields::Named(fs)
    } else {
        Fields::Unnamed(fs)
    }
}

fn parse_me_value() -> Value {
    Value::Struct(vec![
        Value::Bool(true),
        Value::Primitive(Primitive::U32(10)),
        Value::Primitive(Primitive::I16(20)),
    ])
}

fn foo_named() -> DeriveInput {
    union(
        vec![attr("endian", &["little"]), attr("repr", &["u32"])],
        vec![
            variant(
                "Bar",
                0xc0ffee,
                Fields::Named(vec![field("x", FieldType::Bool, vec![])]),
            ),
            variant(
                "Baz",
                0xdead,
                Fields::Named(vec![
                    field("x", FieldType::Primitive(PrimitiveKind::U32), vec![]),
                    field(
                        "y",
                        FieldType::Primitive(PrimitiveKind::I16),
                        vec![attr("endian", &["big"])],
                    ),
                ]),
            ),
        ],
    )
}

#[test]
fn regular_struct() {
    let mut reg = Registry::new();
    let t = reg.derive(&record(vec![attr("endian", &["big"])], parse_me_fields(true))).unwrap();
    let s1 = parse_me_value();

    let vec = encode(&reg, t, &s1);
    assert_eq!(vec.as_slice(), &[1, 0, 0, 0, 10, 20, 0]);

    let (s2, n) = decode(&reg, t, &vec).unwrap();
    assert_eq!(s1, s2);
    assert_eq!(n, 7);
}

#[test]
fn tuple_struct() {
    let mut reg = Registry::new();
    let t = reg.derive(&record(vec![attr("endian", &["big"])], parse_me_fields(false))).unwrap();
    let s1 = parse_me_value();

    let vec = encode(&reg, t, &s1);
    assert_eq!(vec.as_slice(), &[1, 0, 0, 0, 10, 20, 0]);

    let (s2, _) = decode(&reg, t, &vec).unwrap();
    assert_eq!(s1, s2);
}

#[test]
fn unit_struct() {
    let mut reg = Registry::new();
    let t = reg.derive(&record(vec![attr("endian", &["big"])], Fields::Unit)).unwrap();
    let s1 = Value::Struct(vec![]);

    let vec = encode(&reg, t, &s1);
    assert_eq!(vec.as_slice(), &[] as &[u8]);

    let (s2, n) = decode(&reg, t, &vec).unwrap();
    assert_eq!(s1, s2);
    assert_eq!(n, 0);
}

#[test]
fn regular_enum() {
    let mut reg = Registry::new();
    let t = reg.derive(&foo_named()).unwrap();
    let e1 = Value::Variant(0, vec![Value::Bool(false)]);

    let vec = encode(&reg, t, &e1);
    assert_eq!(vec.as_slice(), &[0xee, 0xff, 0xc0, 0x00, 0x00]);

    let (e2, _) = decode(&reg, t, &vec).unwrap();
    assert_eq!(e1, e2);

    let e3 = Value::Variant(
        1,
        vec![
            Value::Primitive(Primitive::U32(0x20)),
            Value::Primitive(Primitive::I16(0x10)),
        ],
    );

    let vec = encode(&reg, t, &e3);
    assert_eq!(
        vec.as_slice(),
        &[0xad, 0xde, 0x00, 0x00, 0x20, 0x00, 0x00, 0x00, 0x00, 0x10]
    );

    let (e4, _) = decode(&reg, t, &vec).unwrap();
    assert_eq!(e3, e4);

    let garbage: &[u8] = &[0x00, 0x00, 0x00, 0x00];
    assert!(decode(&reg, t, garbage).is_err());
}

#[test]
fn tuple_enum() {
    let mut reg = Registry::new();
    let input = union(
        vec![attr("endian", &["little"]), attr("repr", &["u32"])],
        vec![
            variant(
                "Bar",
                0xc0ffee,
                Fields::Unnamed(vec![field("", FieldType::Bool, vec![])]),
            ),
            variant(
                "Baz",
                0xdead,
                Fields::Unnamed(vec![
                    field("", FieldType::Primitive(PrimitiveKind::U32), vec![]),
                    field(
                        "",
                        FieldType::Primitive(PrimitiveKind::I16),
                        vec![attr("endian", &["big"])],
                    ),
                ]),
            ),
        ],
    );
    let t = reg.derive(&input).unwrap();
    let e1 = Value::Variant(0, vec![Value::Bool(true)]);

    let vec = encode(&reg, t, &e1);
    assert_eq!(vec.as_slice(), &[0xee, 0xff, 0xc0, 0x00, 0x01]);

    let (e2, _) = decode(&reg, t, &vec).unwrap();
    assert_eq!(e1, e2);

    let e3 = Value::Variant(
        1,
        vec![
            Value::Primitive(Primitive::U32(0x10)),
            Value::Primitive(Primitive::I16(0x20)),
        ],
    );

    let vec = encode(&reg, t, &e3);
    assert_eq!(
        vec.as_slice(),
        &[0xad, 0xde, 0x00, 0x00, 0x10, 0x00, 0x00, 0x00, 0x00, 0x20]
    );

    let (e4, _) = decode(&reg, t, &vec).unwrap();
    assert_eq!(e3, e4);

    let garbage: &[u8] = &[0x00, 0x00, 0x00, 0x00];
    assert!(decode(&reg, t, garbage).is_err());
}

#[test]
fn unit_enum() {
    let mut reg = Registry::new();
    let input = union(
        vec![attr("endian", &["little"]), attr("repr", &["u32"])],
        vec![
            variant("Bar", 0xc0ffee, Fields::Unit),
            variant("Baz", 0xdead, Fields::Unit),
            variant("Qux", 0xfeed, Fields::Unit),
        ],
    );
    let t = reg.derive(&input).unwrap();
    let e1 = Value::Variant(0, vec![]);

    let vec = encode(&reg, t, &e1);
    assert_eq!(vec.as_slice(), &[0xee, 0xff, 0xc0, 0x00]);

    let (e2, _) = decode(&reg, t, &vec).unwrap();
    assert_eq!(e1, e2);

    let garbage: &[u8] = &[0x00, 0x00, 0x00, 0x00];
    assert!(decode(&reg, t, garbage).is_err());
}

#[test]
fn header_struct() {
    let mut reg = Registry::new();
    let t = reg.register_payload(vec![0x89, 0x50, 0x4e, 0x47, 0x0d, 0x0a, 0x1a, 0x0a]);
    let s1 = Value::Unit;

    let vec = encode(&reg, t, &s1);
    assert_eq!(vec.as_slice(), &[0x89, 0x50, 0x4e, 0x47, 0x0d, 0x0a, 0x1a, 0x0a]);

    let (s2, _) = decode(&reg, t, &vec).unwrap();
    assert_eq!(s1, s2);

    let garbage: &[u8] = &[0x89, 0x50, 0x4e, 0x47, 0x0d, 0x0a, 0x1a, 0x00];
    assert!(decode(&reg, t, garbage).is_err());
}

#[test]
fn regular_struct_regular_struct() {
    let mut reg = Registry::new();
    let input = record(
        vec![attr("endian", &["big"])],
        Fields::Named(vec![
            field("works", FieldType::Bool, vec![]),
            field("data", FieldType::Primitive(PrimitiveKind::U32), vec![]),
            field(
                "extra",
                FieldType::Primitive(PrimitiveKind::I16),
                vec![attr("endian", &["little"])],
            ),
            field("u16_be", FieldType::Array(PrimitiveKind::U16, 2), vec![]),
            field(
                "u16_le",
                FieldType::Array(PrimitiveKind::U16, 2),
                vec![attr("endian", &["little"])],
            ),
        ]),
    );
    let t = reg.derive(&input).unwrap();
    let s1 = Value::Struct(vec![
        Value::Bool(true),
        Value::Primitive(Primitive::U32(10)),
        Value::Primitive(Primitive::I16(20)),
        Value::Array(vec![Primitive::U16(0xff); 2]),
        Value::Array(vec![Primitive::U16(0xff); 2]),
    ]);

    let vec = encode(&reg, t, &s1);
    assert_eq!(
        vec.as_slice(),
        &[1, 0, 0, 0, 10, 20, 0, 0x00, 0xff, 0x00, 0xff, 0xff, 0x00, 0xff, 0x00]
    );

    let (s2, _) = decode(&reg, t, &vec).unwrap();
    assert_eq!(s1, s2);
}
