//! Declarations of user types and the layouts generated from them.
use vstd::prelude::*;
use crate::endian::{
    endian_attr, field_endian, find, get_endian, has_unique, only_one, parse,
    unique_named, Attribute, Endian, GenError,
};
use crate::primitive::{lemma_pow256_values, Primitive, PrimitiveKind};

verus! {

/// The declared type of a field.
#[derive(Clone, Copy, Debug, PartialEq, Eq, Structural)]
pub enum FieldType {
    /// A fixed-width integer, laid out in the field's order.
    Primitive(PrimitiveKind),
    /// A boolean: one byte, whatever the order.
    Bool,
    /// A type generated earlier, by its index in the registry: laid out as that type says.
    Io(usize),
    /// A fixed number of integers of one kind, each laid out in the field's order.
    Array(PrimitiveKind, usize),
}

/// A field of a record or a variant. `ident` is empty for a positional field.
#[derive(Clone, Debug)]
pub struct Field {
    pub ident: String,
    pub attrs: Vec<Attribute>,
    pub ty: FieldType,
}

#[derive(Clone, Debug)]
pub enum Fields {
    Named(Vec<Field>),
    Unnamed(Vec<Field>),
    Unit,
}

#[derive(Clone, Debug)]
pub struct Variant {
    pub ident: String,
    pub discriminant: Option<i128>,
    pub fields: Fields,
}

#[derive(Clone, Debug)]
pub enum Data {
    Struct(Fields),
    Enum(Vec<Variant>),
    Union,
}

/// A type declaration with its attributes.
#[derive(Clone, Debug)]
pub struct DeriveInput {
    pub ident: String,
    pub attrs: Vec<Attribute>,
    pub data: Data,
}

/// How a field is laid out.
#[derive(Clone, Copy, Debug, PartialEq, Eq, Structural)]
pub enum Codec {
    Primitive(PrimitiveKind, Endian),
    Bool,
    Io(usize),
    Array(PrimitiveKind, usize, Endian),
}

/// How the generated code reaches a field: by name or by position.
#[derive(Clone, Debug)]
pub enum Access {
    Named(String),
    Index(usize),
}

#[derive(Clone, Debug)]
pub struct FieldPlan {
    pub access: Access,
    pub codec: Codec,
}

#[derive(Clone, Copy, Debug, PartialEq, Eq, Structural)]
pub enum Shape {
    Named,
    Unnamed,
    Unit,
}

/// The fields of a record or a variant, in declaration order, which is wire order.
#[derive(Clone, Debug)]
pub struct FieldsPlan {
    pub shape: Shape,
    pub fields: Vec<FieldPlan>,
}

#[derive(Clone, Debug)]
pub struct VariantPlan {
    pub ident: String,
    pub discriminant: Primitive,
    pub fields: FieldsPlan,
}

/// The generated layout of a type.
#[derive(Clone, Debug)]
pub enum Layout {
    /// A record: its fields one after the other.
    Struct(FieldsPlan),
    /// A tagged union: the discriminant as `repr` in order `endian`, then the variant's fields.
    Enum { repr: PrimitiveKind, endian: Endian, variants: Vec<VariantPlan> },
    /// A marker type with no stored data, laid out as a constant.
    Payload(Vec<u8>),
}

pub open spec fn shape_of(f: Fields) -> Shape {
    match f {
        Fields::Named(_) => Shape::Named,
        Fields::Unnamed(_) => Shape::Unnamed,
        Fields::Unit => Shape::Unit,
    }
}

pub open spec fn fields_of(f: Fields) -> Seq<Field> {
    match f {
        Fields::Named(fs) => fs@,
        Fields::Unnamed(fs) => fs@,
        Fields::Unit => Seq::empty(),
    }
}

/// How field `f` is laid out in a type of order `default` after `known` types.
pub open spec fn field_codec(f: Field, default: Endian, known: nat) -> Result<Codec, GenError> {
    match field_endian(f.attrs@, default) {
        Err(e) => Err(e),
        Ok(e) => match f.ty {
            FieldType::Primitive(k) => Ok(Codec::Primitive(k, e)),
            FieldType::Bool => Ok(Codec::Bool),
            FieldType::Io(t) => if t < known {
                Ok(Codec::Io(t))
            } else {
                Err(GenError::UnknownType)
            },
            FieldType::Array(k, n) => Ok(Codec::Array(k, n, e)),
        },
    }
}

/// The first error among the fields from `i` on.
pub open spec fn fields_error_from(fs: Seq<Field>, default: Endian, known: nat, i: int) -> Option<
    GenError,
>
    decreases fs.len() - i,
{
    if i < 0 || i >= fs.len() {
        None
    } else {
        match field_codec(fs[i], default, known) {
            Err(e) => Some(e),
            Ok(_) => fields_error_from(fs, default, known, i + 1),
        }
    }
}

pub open spec fn fields_error(f: Fields, default: Endian, known: nat) -> Option<GenError> {
    fields_error_from(fields_of(f), default, known, 0)
}

pub open spec fn access_of(shape: Shape, f: Field, i: int) -> Access {
    match shape {
        Shape::Named => Access::Named(f.ident),
        _ => Access::Index(i as usize),
    }
}

/// `p` lays out the fields `f` of a type of order `default`.
pub open spec fn planned(f: Fields, default: Endian, known: nat, p: FieldsPlan) -> bool {
    let fs = fields_of(f);
    &&& p.shape == shape_of(f)
    &&& p.fields@.len() == fs.len()
    &&& forall|i: int|
        0 <= i < fs.len() ==> {
            &&& field_codec(#[trigger] fs[i], default, known) == Ok::<Codec, GenError>(
                p.fields@[i].codec,
            )
            &&& p.fields@[i].access == access_of(p.shape, fs[i], i)
        }
}

/// Lays out the fields of a record or a variant: each field gets its order, in
/// declaration order, and the first field that cannot be laid out fails the whole.
pub fn plan_fields(fields: &Fields, default: Endian, known: usize) -> (r: Result<
    FieldsPlan,
    GenError,
>)
    ensures
        match fields_error(*fields, default, known as nat) {
            Some(e) => r == Err::<FieldsPlan, GenError>(e),
            None => r is Ok && planned(*fields, default, known as nat, r->Ok_0),
        },
{
    let (shape, fs) = match fields {
        Fields::Named(fs) => (Shape::Named, fs),
        Fields::Unnamed(fs) => (Shape::Unnamed, fs),
        Fields::Unit => {
            return Ok(FieldsPlan { shape: Shape::Unit, fields: Vec::new() });
        },
    };
    let ghost all = fields_of(*fields);
    assert(fs@ == all);
    let mut out: Vec<FieldPlan> = Vec::new();
    let mut i: usize = 0;
    while i < fs.len()
        invariant
            fs@ == all,
            all == fields_of(*fields),
            shape == shape_of(*fields),
            shape != Shape::Unit,
            i <= all.len(),
            out@.len() == i,
            fields_error_from(all, default, known as nat, 0) == fields_error_from(
                all,
                default,
                known as nat,
                i as int,
            ),
            forall|j: int|
                0 <= j < i ==> {
                    &&& field_codec(#[trigger] all[j], default, known as nat) == Ok::<
                        Codec,
                        GenError,
                    >(out@[j].codec)
                    &&& out@[j].access == access_of(shape, all[j], j)
                },
        decreases all.len() - i,
    {
        let f = &fs[i];
        let e = match get_endian(&f.attrs, default) {
            Ok(e) => e,
            Err(err) => {
                assert(field_codec(all[i as int], default, known as nat) == Err::<Codec, GenError>(
                    err,
                ));
                assert(fields_error_from(all, default, known as nat, i as int) == Some(err));
                return Err(err);
            },
        };
        let codec = match f.ty {
            FieldType::Primitive(k) => Codec::Primitive(k, e),
            FieldType::Bool => Codec::Bool,
            FieldType::Io(t) => if t < known {
                Codec::Io(t)
            } else {
                assert(fields_error_from(all, default, known as nat, i as int) == Some(
                    GenError::UnknownType,
                ));
                return Err(GenError::UnknownType);
            },
            FieldType::Array(k, n) => Codec::Array(k, n, e),
        };
        let access = match shape {
            Shape::Named => Access::Named(f.ident.clone()),
            _ => Access::Index(i),
        };
        out.push(FieldPlan { access, codec });
        i = i + 1;
    }
    Ok(FieldsPlan { shape, fields: out })
}

/// The integer type that a `repr` argument names.
pub open spec fn repr_named(text: Seq<char>) -> Option<PrimitiveKind> {
    if text == "u8"@ {
        Some(PrimitiveKind::U8)
    } else if text == "u16"@ {
        Some(PrimitiveKind::U16)
    } else if text == "u32"@ {
        Some(PrimitiveKind::U32)
    } else if text == "u64"@ {
        Some(PrimitiveKind::U64)
    } else if text == "u128"@ {
        Some(PrimitiveKind::U128)
    } else if text == "i8"@ {
        Some(PrimitiveKind::I8)
    } else if text == "i16"@ {
        Some(PrimitiveKind::I16)
    } else if text == "i32"@ {
        Some(PrimitiveKind::I32)
    } else if text == "i64"@ {
        Some(PrimitiveKind::I64)
    } else if text == "i128"@ {
        Some(PrimitiveKind::I128)
    } else {
        None
    }
}

pub fn repr_kind(text: &String) -> (r: Option<PrimitiveKind>)
    ensures
        r == repr_named(text@),
{
    if *text == "u8".to_owned() {
        Some(PrimitiveKind::U8)
    } else if *text == "u16".to_owned() {
        Some(PrimitiveKind::U16)
    } else if *text == "u32".to_owned() {
        Some(PrimitiveKind::U32)
    } else if *text == "u64".to_owned() {
        Some(PrimitiveKind::U64)
    } else if *text == "u128".to_owned() {
        Some(PrimitiveKind::U128)
    } else if *text == "i8".to_owned() {
        Some(PrimitiveKind::I8)
    } else if *text == "i16".to_owned() {
        Some(PrimitiveKind::I16)
    } else if *text == "i32".to_owned() {
        Some(PrimitiveKind::I32)
    } else if *text == "i64".to_owned() {
        Some(PrimitiveKind::I64)
    } else if *text == "i128".to_owned() {
        Some(PrimitiveKind::I128)
    } else {
        None
    }
}

/// The representation that the `repr` attribute among `attrs` declares.
pub open spec fn repr_attr(attrs: Seq<Attribute>) -> Result<PrimitiveKind, GenError> {
    if has_unique(attrs, "repr"@) {
        let i = choose|i: int| unique_named(attrs, "repr"@, i);
        let args = attrs[i].args@;
        if args.len() != 1 {
            Err(GenError::MalformedAttribute)
        } else {
            match repr_named(args[0]@) {
                Some(k) => Ok(k),
                None => Err(GenError::NonIntegerRepr),
            }
        }
    } else {
        Err(GenError::MissingRepr)
    }
}

pub fn repr(attrs: &Vec<Attribute>) -> (r: Result<PrimitiveKind, GenError>)
    ensures
        r == repr_attr(attrs@),
{
    match find(attrs, "repr") {
        None => Err(GenError::MissingRepr),
        Some(i) => {
            let args = attrs[i].args.clone();
            match only_one(args) {
                None => Err(GenError::MalformedAttribute),
                Some(arg) => match repr_kind(&arg) {
                    Some(k) => Ok(k),
                    None => Err(GenError::NonIntegerRepr),
                },
            }
        },
    }
}

pub open spec fn in_range(k: PrimitiveKind, d: int) -> bool {
    k.min() <= d <= k.max()
}

/// The value `d` as an integer of kind `k`.
pub open spec fn prim_of_int(k: PrimitiveKind, d: int) -> Primitive {
    match k {
        PrimitiveKind::U8 => Primitive::U8(d as u8),
        PrimitiveKind::U16 => Primitive::U16(d as u16),
        PrimitiveKind::U32 => Primitive::U32(d as u32),
        PrimitiveKind::U64 => Primitive::U64(d as u64),
        PrimitiveKind::U128 => Primitive::U128(d as u128),
        PrimitiveKind::I8 => Primitive::I8(d as i8),
        PrimitiveKind::I16 => Primitive::I16(d as i16),
        PrimitiveKind::I32 => Primitive::I32(d as i32),
        PrimitiveKind::I64 => Primitive::I64(d as i64),
        PrimitiveKind::I128 => Primitive::I128(d as i128),
    }
}

pub proof fn lemma_prim_of_int(k: PrimitiveKind, a: int, b: int)
    requires
        in_range(k, a),
        in_range(k, b),
    ensures
        prim_of_int(k, a).kind() == k,
        prim_of_int(k, a).value() == a,
        a != b ==> prim_of_int(k, a) != prim_of_int(k, b),
{
    lemma_pow256_values();
}

/// A discriminant literal as a value of the representation type, where it fits.
pub fn discriminant_of(k: PrimitiveKind, d: i128) -> (r: Option<Primitive>)
    ensures
        in_range(k, d as int) ==> r == Some(prim_of_int(k, d as int)),
        !in_range(k, d as int) ==> r is None,
{
    proof {
        lemma_pow256_values();
    }
    match k {
        PrimitiveKind::U8 => if 0 <= d && d <= 0xff {
            Some(Primitive::U8(d as u8))
        } else {
            None
        },
        PrimitiveKind::U16 => if 0 <= d && d <= 0xffff {
            Some(Primitive::U16(d as u16))
        } else {
            None
        },
        PrimitiveKind::U32 => if 0 <= d && d <= 0xffff_ffff {
            Some(Primitive::U32(d as u32))
        } else {
            None
        },
        PrimitiveKind::U64 => if 0 <= d && d <= 0xffff_ffff_ffff_ffff {
            Some(Primitive::U64(d as u64))
        } else {
            None
        },
        PrimitiveKind::U128 => if 0 <= d {
            Some(Primitive::U128(d as u128))
        } else {
            None
        },
        PrimitiveKind::I8 => if -0x80 <= d && d <= 0x7f {
            Some(Primitive::I8(d as i8))
        } else {
            None
        },
        PrimitiveKind::I16 => if -0x8000 <= d && d <= 0x7fff {
            Some(Primitive::I16(d as i16))
        } else {
            None
        },
        PrimitiveKind::I32 => if -0x8000_0000 <= d && d <= 0x7fff_ffff {
            Some(Primitive::I32(d as i32))
        } else {
            None
        },
        PrimitiveKind::I64 => if -0x8000_0000_0000_0000 <= d && d <= 0x7fff_ffff_ffff_ffff {
            Some(Primitive::I64(d as i64))
        } else {
            None
        },
        PrimitiveKind::I128 => Some(Primitive::I128(d)),
    }
}

/// What is wrong with variant `j`, given the variants before it.
pub open spec fn variant_error(
    vs: Seq<Variant>,
    k: PrimitiveKind,
    default: Endian,
    known: nat,
    j: int,
) -> Option<GenError> {
    match vs[j].discriminant {
        None => Some(GenError::MissingDiscriminant),
        Some(d) => if !in_range(k, d as int) {
            Some(GenError::DiscriminantOutOfRange)
        } else if exists|i: int| 0 <= i < j && vs[i].discriminant == Some(d) {
            Some(GenError::DuplicateDiscriminant)
        } else {
            fields_error(vs[j].fields, default, known)
        },
    }
}

/// The first error among the variants from `j` on.
pub open spec fn variants_error_from(
    vs: Seq<Variant>,
    k: PrimitiveKind,
    default: Endian,
    known: nat,
    j: int,
) -> Option<GenError>
    decreases vs.len() - j,
{
    if j < 0 || j >= vs.len() {
        None
    } else {
        match variant_error(vs, k, default, known, j) {
            Some(e) => Some(e),
            None => variants_error_from(vs, k, default, known, j + 1),
        }
    }
}

pub open spec fn variant_planned(
    v: Variant,
    k: PrimitiveKind,
    default: Endian,
    known: nat,
    p: VariantPlan,
) -> bool {
    &&& p.ident == v.ident
    &&& v.discriminant is Some
    &&& p.discriminant == prim_of_int(k, v.discriminant->0 as int)
    &&& planned(v.fields, default, known, p.fields)
}

pub open spec fn codec_wf(c: Codec, t: nat) -> bool {
    match c {
        Codec::Io(u) => u < t,
        _ => true,
    }
}

pub open spec fn fields_wf(p: FieldsPlan, t: nat) -> bool {
    forall|i: int| 0 <= i < p.fields@.len() ==> codec_wf(#[trigger] p.fields@[i].codec, t)
}

impl Layout {
    /// A layout that can stand at index `t` of a registry: it names only types
    /// before it, and a tagged union's discriminants are distinct values of its
    /// representation type.
    pub open spec fn wf(self, t: nat) -> bool {
        match self {
            Layout::Struct(p) => fields_wf(p, t),
            Layout::Enum { repr, endian, variants } => {
                &&& forall|j: int|
                    0 <= j < variants@.len() ==> {
                        &&& (#[trigger] variants@[j]).discriminant.kind() == repr
                        &&& fields_wf(variants@[j].fields, t)
                    }
                &&& forall|i: int, j: int|
                    0 <= i < j < variants@.len() ==> variants@[i].discriminant
                        != variants@[j].discriminant
            },
            Layout::Payload(_) => true,
        }
    }
}

proof fn lemma_planned_wf(f: Fields, default: Endian, known: nat, p: FieldsPlan)
    requires
        planned(f, default, known, p),
    ensures
        fields_wf(p, known),
{
    let fs = fields_of(f);
    assert forall|i: int| 0 <= i < p.fields@.len() implies codec_wf(
        #[trigger] p.fields@[i].codec,
        known,
    ) by {
        assert(field_codec(fs[i], default, known) == Ok::<Codec, GenError>(p.fields@[i].codec));
    }
}

/// Lays out the variants of a tagged union with representation `k`.
fn plan_variants(vs: &Vec<Variant>, k: PrimitiveKind, default: Endian, known: usize) -> (r: Result<
    Vec<VariantPlan>,
    GenError,
>)
    ensures
        match variants_error_from(vs@, k, default, known as nat, 0) {
            Some(e) => r == Err::<Vec<VariantPlan>, GenError>(e),
            None => r is Ok && r->Ok_0@.len() == vs@.len() && (forall|j: int|
                0 <= j < vs@.len() ==> variant_planned(
                    #[trigger] vs@[j],
                    k,
                    default,
                    known as nat,
                    r->Ok_0@[j],
                )) && (Layout::Enum { repr: k, endian: default, variants: r->Ok_0 }).wf(
                known as nat,
            ),
        },
{
    let mut out: Vec<VariantPlan> = Vec::new();
    let mut j: usize = 0;
    while j < vs.len()
        invariant
            j <= vs@.len(),
            out@.len() == j,
            variants_error_from(vs@, k, default, known as nat, 0) == variants_error_from(
                vs@,
                k,
                default,
                known as nat,
                j as int,
            ),
            forall|a: int|
                0 <= a < j ==> variant_planned(
                    #[trigger] vs@[a],
                    k,
                    default,
                    known as nat,
                    out@[a],
                ),
            forall|a: int|
                0 <= a < j ==> in_range(k, (#[trigger] vs@[a]).discriminant->0 as int),
            (Layout::Enum { repr: k, endian: default, variants: out }).wf(known as nat),
        decreases vs@.len() - j,
    {
        let v = &vs[j];
        let d = match v.discriminant {
            None => {
                assert(variants_error_from(vs@, k, default, known as nat, j as int) == Some(
                    GenError::MissingDiscriminant,
                ));
                return Err(GenError::MissingDiscriminant);
            },
            Some(d) => d,
        };
        let disc = match discriminant_of(k, d) {
            None => {
                assert(variants_error_from(vs@, k, default, known as nat, j as int) == Some(
                    GenError::DiscriminantOutOfRange,
                ));
                return Err(GenError::DiscriminantOutOfRange);
            },
            Some(p) => p,
        };
        let mut i: usize = 0;
        while i < j
            invariant
                i <= j < vs@.len(),
                out@.len() == j,
                vs@[j as int].discriminant == Some(d),
                in_range(k, d as int),
                disc == prim_of_int(k, d as int),
                forall|a: int| 0 <= a < i ==> vs@[a].discriminant != Some(d),
                variants_error_from(vs@, k, default, known as nat, 0) == variants_error_from(
                    vs@,
                    k,
                    default,
                    known as nat,
                    j as int,
                ),
                forall|a: int|
                    0 <= a < j ==> variant_planned(
                        #[trigger] vs@[a],
                        k,
                        default,
                        known as nat,
                        out@[a],
                    ),
                forall|a: int|
                    0 <= a < j ==> in_range(k, (#[trigger] vs@[a]).discriminant->0 as int),
                (Layout::Enum { repr: k, endian: default, variants: out }).wf(known as nat),
            decreases j - i,
        {
            if vs[i].discriminant == Some(d) {
                assert(vs@[i as int].discriminant == Some(d));
                assert(variants_error_from(vs@, k, default, known as nat, j as int) == Some(
                    GenError::DuplicateDiscriminant,
                ));
                return Err(GenError::DuplicateDiscriminant);
            }
            i = i + 1;
        }
        assert(!exists|a: int| 0 <= a < j && vs@[a].discriminant == Some(d));
        let fields = match plan_fields(&v.fields, default, known) {
            Ok(p) => p,
            Err(e) => {
                assert(variants_error_from(vs@, k, default, known as nat, j as int) == Some(e));
                return Err(e);
            },
        };
        proof {
            lemma_planned_wf(v.fields, default, known as nat, fields);
            lemma_prim_of_int(k, d as int, d as int);
            assert forall|a: int| 0 <= a < j implies out@[a].discriminant != disc by {
                let da = vs@[a].discriminant->0;
                lemma_prim_of_int(k, da as int, d as int);
            }
        }
        out.push(VariantPlan { ident: v.ident.clone(), discriminant: disc, fields });
        j = j + 1;
    }
    Ok(out)
}

/// The order that the type declares for its fields.
pub open spec fn type_endian(attrs: Seq<Attribute>) -> Result<Endian, GenError> {
    match endian_attr(attrs) {
        Err(e) => Err(e),
        Ok(None) => Err(GenError::MissingDefaultEndian),
        Ok(Some(e)) => Ok(e),
    }
}

/// Why no layout can be generated from `input` after `known` types, if it cannot.
pub open spec fn derive_error(input: DeriveInput, known: nat) -> Option<GenError> {
    match type_endian(input.attrs@) {
        Err(e) => Some(e),
        Ok(default) => match input.data {
            Data::Struct(f) => fields_error(f, default, known),
            Data::Enum(vs) => match repr_attr(input.attrs@) {
                Err(e) => Some(e),
                Ok(k) => variants_error_from(vs@, k, default, known, 0),
            },
            Data::Union => Some(GenError::UnsupportedShape),
        },
    }
}

/// `l` is the layout generated from `input`.
pub open spec fn derived(input: DeriveInput, known: nat, l: Layout) -> bool {
    match type_endian(input.attrs@) {
        Err(_) => false,
        Ok(default) => match (input.data, l) {
            (Data::Struct(f), Layout::Struct(p)) => planned(f, default, known, p),
            (Data::Enum(vs), Layout::Enum { repr, endian, variants }) => {
                &&& repr_attr(input.attrs@) == Ok::<PrimitiveKind, GenError>(repr)
                &&& endian == default
                &&& variants@.len() == vs@.len()
                &&& forall|j: int|
                    0 <= j < vs@.len() ==> variant_planned(
                        #[trigger] vs@[j],
                        repr,
                        default,
                        known,
                        variants@[j],
                    )
            },
            _ => false,
        },
    }
}

/// Generates the layout of a record or a tagged union declared after `known`
/// other types: each field gets the type's order or its own override, and a
/// tagged union gets its representation and its discriminants.
pub fn derive(input: &DeriveInput, known: usize) -> (r: Result<Layout, GenError>)
    ensures
        match derive_error(*input, known as nat) {
            Some(e) => r == Err::<Layout, GenError>(e),
            None => r is Ok && derived(*input, known as nat, r->Ok_0) && r->Ok_0.wf(known as nat),
        },
{
    let default = match parse(&input.attrs) {
        Err(e) => {
            return Err(e);
        },
        Ok(None) => {
            return Err(GenError::MissingDefaultEndian);
        },
        Ok(Some(e)) => e,
    };
    match &input.data {
        Data::Struct(f) => match plan_fields(f, default, known) {
            Ok(p) => {
                proof {
                    lemma_planned_wf(*f, default, known as nat, p);
                }
                Ok(Layout::Struct(p))
            },
            Err(e) => Err(e),
        },
        Data::Enum(vs) => {
            let k = match repr(&input.attrs) {
                Ok(k) => k,
                Err(e) => {
                    return Err(e);
                },
            };
            match plan_variants(vs, k, default, known) {
                Ok(variants) => Ok(Layout::Enum { repr: k, endian: default, variants }),
                Err(e) => Err(e),
            }
        },
        Data::Union => Err(GenError::UnsupportedShape),
    }
}

} // verus!
