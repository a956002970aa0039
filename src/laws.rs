//! What holds of every generated layout and every value of it.
use vstd::prelude::*;
use crate::endian::{endian_attr, Endian, GenError};
use crate::io::{
    conforms_codec, conforms_fields, conforms_type, encode_codec, encode_fields,
    encode_type, layouts_wf, parse_codec, parse_fields, parse_type, Config, ReadError, Registry,
    ValueV,
};
use crate::layout::{
    codec_wf, derive_error, field_codec, fields_error, fields_error_from, fields_of, in_range,
    repr_attr, type_endian, variant_error, variants_error_from, Codec, DeriveInput, FieldPlan, Layout,
};
use crate::primitive::{decoded, lemma_primitive_round_trip, lemma_prims_round_trip};

verus! {

proof fn lemma_codec_round_trip(
    reg: Seq<Layout>,
    t: int,
    c: Codec,
    v: ValueV,
    rest: Seq<u8>,
    cfg: Config,
)
    requires
        layouts_wf(reg),
        0 <= t < reg.len(),
        codec_wf(c, t as nat),
        conforms_codec(reg, t, c, v),
    ensures
        parse_codec(reg, t, c, encode_codec(reg, t, c, v, cfg) + rest, cfg) == Ok::<
            (ValueV, nat),
            ReadError,
        >((v, encode_codec(reg, t, c, v, cfg).len())),
    decreases t, 0int, 0int,
{
    let e = encode_codec(reg, t, c, v, cfg);
    let s = e + rest;
    match c {
        Codec::Primitive(k, o) => {
            let p = v->Primitive_0;
            lemma_primitive_round_trip(p, o.on(cfg.native));
            assert(s.take(k.width() as int) =~= e);
        },
        Codec::Bool => {
            assert(s[0] == e[0]);
        },
        Codec::Io(u) => {
            lemma_type_round_trip(reg, u as int, v, rest, cfg);
        },
        Codec::Array(k, _, o) => {
            lemma_prims_round_trip(k, v->Array_0, o.on(cfg.native), rest);
        },
    }
}

proof fn lemma_fields_round_trip(
    reg: Seq<Layout>,
    t: int,
    ps: Seq<FieldPlan>,
    vs: Seq<ValueV>,
    i: int,
    rest: Seq<u8>,
    cfg: Config,
)
    requires
        layouts_wf(reg),
        0 <= t < reg.len(),
        forall|k: int| 0 <= k < ps.len() ==> codec_wf(#[trigger] ps[k].codec, t as nat),
        0 <= i <= ps.len(),
        vs.len() == ps.len(),
        conforms_fields(reg, t, ps, vs, i),
    ensures
        parse_fields(reg, t, ps, i, encode_fields(reg, t, ps, vs, i, cfg) + rest, cfg) == Ok::<
            (Seq<ValueV>, nat),
            ReadError,
        >((vs.subrange(i, ps.len() as int), encode_fields(reg, t, ps, vs, i, cfg).len())),
    decreases t, 1int, ps.len() - i,
{
    if i < ps.len() {
        let head = encode_codec(reg, t, ps[i].codec, vs[i], cfg);
        let tail = encode_fields(reg, t, ps, vs, i + 1, cfg);
        let s = encode_fields(reg, t, ps, vs, i, cfg) + rest;
        assert(s =~= head + (tail + rest));
        lemma_codec_round_trip(reg, t, ps[i].codec, vs[i], tail + rest, cfg);
        assert(s.skip(head.len() as int) =~= tail + rest);
        lemma_fields_round_trip(reg, t, ps, vs, i + 1, rest, cfg);
        assert(seq![vs[i]] + vs.subrange(i + 1, ps.len() as int) =~= vs.subrange(
            i,
            ps.len() as int,
        ));
    } else {
        assert(vs.subrange(i, ps.len() as int) =~= Seq::<ValueV>::empty());
    }
}

proof fn lemma_type_round_trip(reg: Seq<Layout>, t: int, v: ValueV, rest: Seq<u8>, cfg: Config)
    requires
        layouts_wf(reg),
        0 <= t < reg.len(),
        conforms_type(reg, t, v),
    ensures
        parse_type(reg, t, encode_type(reg, t, v, cfg) + rest, cfg) == Ok::<
            (ValueV, nat),
            ReadError,
        >((v, encode_type(reg, t, v, cfg).len())),
    decreases t, 2int, 0int,
{
    let e = encode_type(reg, t, v, cfg);
    let s = e + rest;
    assert(reg[t].wf(t as nat));
    match reg[t] {
        Layout::Struct(p) => {
            let vs = v->Struct_0;
            lemma_fields_round_trip(reg, t, p.fields@, vs, 0, rest, cfg);
            assert(vs.subrange(0, vs.len() as int) =~= vs);
        },
        Layout::Enum { repr, endian, variants } => {
            let j = v->Variant_0 as int;
            let vs = v->Variant_1;
            let d = variants@[j].discriminant;
            let o = endian.on(cfg.native);
            let head = d.image(o);
            let ps = variants@[j].fields.fields@;
            let tail = encode_fields(reg, t, ps, vs, 0, cfg);
            lemma_primitive_round_trip(d, o);
            assert(s =~= head + (tail + rest));
            assert(s.take(repr.width() as int) =~= head);
            let jj = choose|a: int| 0 <= a < variants@.len() && variants@[a].discriminant == d;
            assert(jj == j) by {
                if jj != j {
                    if jj < j {
                        assert(variants@[jj].discriminant != variants@[j].discriminant);
                    } else {
                        assert(variants@[j].discriminant != variants@[jj].discriminant);
                    }
                }
            }
            assert(s.skip(repr.width() as int) =~= tail + rest);
            lemma_fields_round_trip(reg, t, ps, vs, 0, rest, cfg);
            assert(vs.subrange(0, vs.len() as int) =~= vs);
        },
        Layout::Payload(bytes) => {
            assert(s.take(bytes@.len() as int) =~= bytes@);
        },
    }
}

/// Round trip: a value of a registered type, written and read back on the
/// same machine, reads as itself and takes exactly the bytes written, whatever
/// follows them.
pub proof fn lemma_round_trip(r: Registry, t: int, v: ValueV, rest: Seq<u8>, cfg: Config)
    requires
        r.wf(),
        0 <= t < r.types@.len(),
        conforms_type(r.types@, t, v),
    ensures
        parse_type(r.types@, t, encode_type(r.types@, t, v, cfg) + rest, cfg) == Ok::<
            (ValueV, nat),
            ReadError,
        >((v, encode_type(r.types@, t, v, cfg).len())),
{
    lemma_type_round_trip(r.types@, t, v, rest, cfg);
}

proof fn lemma_fields_concat(
    reg: Seq<Layout>,
    t: int,
    ps: Seq<FieldPlan>,
    vs: Seq<ValueV>,
    i: int,
    cfg: Config,
)
    requires
        0 <= i <= ps.len(),
    ensures
        encode_fields(reg, t, ps, vs, i, cfg) == Seq::new(
            (ps.len() - i) as nat,
            |k: int| encode_codec(reg, t, ps[i + k].codec, vs[i + k], cfg),
        ).flatten(),
    decreases ps.len() - i,
{
    let pieces = Seq::new(
        (ps.len() - i) as nat,
        |k: int| encode_codec(reg, t, ps[i + k].codec, vs[i + k], cfg),
    );
    if i < ps.len() {
        lemma_fields_concat(reg, t, ps, vs, i + 1, cfg);
        assert(pieces.drop_first() =~= Seq::new(
            (ps.len() - (i + 1)) as nat,
            |k: int| encode_codec(reg, t, ps[i + 1 + k].codec, vs[i + 1 + k], cfg),
        ));
    }
}

/// Field order: the bytes of a record are the bytes of its fields, each as
/// its own layout says, one after the other in declaration order.
pub proof fn lemma_field_order(r: Registry, t: int, v: ValueV, cfg: Config)
    requires
        r.wf(),
        0 <= t < r.types@.len(),
        r.types@[t] is Struct,
        v is Struct,
    ensures
        encode_type(r.types@, t, v, cfg) == Seq::new(
            r.types@[t]->Struct_0.fields@.len(),
            |k: int|
                encode_codec(
                    r.types@,
                    t,
                    r.types@[t]->Struct_0.fields@[k].codec,
                    v->Struct_0[k],
                    cfg,
                ),
        ).flatten(),
{
    let ps = r.types@[t]->Struct_0.fields@;
    lemma_fields_concat(r.types@, t, ps, v->Struct_0, 0, cfg);
    assert(Seq::new(
        (ps.len() - 0) as nat,
        |k: int| encode_codec(r.types@, t, ps[0 + k].codec, v->Struct_0[0 + k], cfg),
    ) =~= Seq::new(
        ps.len(),
        |k: int| encode_codec(r.types@, t, ps[k].codec, v->Struct_0[k], cfg),
    ));
}

proof fn lemma_field_error_found(
    fs: Seq<crate::layout::Field>,
    default: Endian,
    known: nat,
    i: int,
    j: int,
)
    requires
        0 <= j <= i < fs.len(),
        field_codec(fs[i], default, known) is Err,
    ensures
        fields_error_from(fs, default, known, j) is Some,
    decreases i - j,
{
    if j < i {
        lemma_field_error_found(fs, default, known, i, j + 1);
    }
}

proof fn lemma_variant_error_found(
    vs: Seq<crate::layout::Variant>,
    k: crate::primitive::PrimitiveKind,
    default: Endian,
    known: nat,
    i: int,
    j: int,
)
    requires
        0 <= j <= i < vs.len(),
        variant_error(vs, k, default, known, i) is Some,
    ensures
        variants_error_from(vs, k, default, known, j) is Some,
    decreases i - j,
{
    if j < i {
        lemma_variant_error_found(vs, k, default, known, i, j + 1);
    }
}

/// A field of a record whose `endian` attribute repeats the record's own
/// order makes generation fail.
pub proof fn lemma_redundant_field_override(input: DeriveInput, known: nat, i: int)
    requires
        input.data is Struct,
        type_endian(input.attrs@) is Ok,
        0 <= i < fields_of(input.data->Struct_0).len(),
        endian_attr(fields_of(input.data->Struct_0)[i].attrs@) == Ok::<Option<Endian>, GenError>(
            Some(type_endian(input.attrs@)->Ok_0),
        ),
    ensures
        derive_error(input, known) is Some,
{
    let fs = fields_of(input.data->Struct_0);
    lemma_field_error_found(fs, type_endian(input.attrs@)->Ok_0, known, i, 0);
}

/// A field of a variant whose `endian` attribute repeats the union's own
/// order makes generation fail.
pub proof fn lemma_redundant_variant_override(input: DeriveInput, known: nat, j: int, i: int)
    requires
        input.data is Enum,
        type_endian(input.attrs@) is Ok,
        0 <= j < input.data->Enum_0@.len(),
        0 <= i < fields_of(input.data->Enum_0@[j].fields).len(),
        endian_attr(fields_of(input.data->Enum_0@[j].fields)[i].attrs@) == Ok::<
            Option<Endian>,
            GenError,
        >(Some(type_endian(input.attrs@)->Ok_0)),
    ensures
        derive_error(input, known) is Some,
{
    let d = type_endian(input.attrs@)->Ok_0;
    let vs = input.data->Enum_0@;
    let fs = fields_of(vs[j].fields);
    lemma_field_error_found(fs, d, known, i, 0);
    if repr_attr(input.attrs@) is Ok {
        let k = repr_attr(input.attrs@)->Ok_0;
        lemma_variant_error_found(vs, k, d, known, j, 0);
    }
}

proof fn lemma_variants_fine_from(
    vs: Seq<crate::layout::Variant>,
    k: crate::primitive::PrimitiveKind,
    default: Endian,
    known: nat,
    j: int,
)
    requires
        0 <= j <= vs.len(),
        forall|a: int| 0 <= a < vs.len() ==> (#[trigger] vs[a]).discriminant is Some,
        forall|a: int|
            0 <= a < vs.len() ==> in_range(k, (#[trigger] vs[a]).discriminant->Some_0 as int),
        forall|a: int|
            0 <= a < vs.len() ==> fields_error((#[trigger] vs[a]).fields, default, known) is None,
        forall|a: int, b: int| 0 <= a < b < vs.len() ==> vs[a].discriminant != vs[b].discriminant,
    ensures
        variants_error_from(vs, k, default, known, j) is None,
    decreases vs.len() - j,
{
    if j < vs.len() {
        lemma_variants_fine_from(vs, k, default, known, j + 1);
        assert(variant_error(vs, k, default, known, j) is None);
    }
}

/// A tagged union whose variants all carry explicit, distinct discriminants
/// that fit its representation, and whose fields are all well declared, is
/// generated: which discriminant values occur is left to reading.
pub proof fn lemma_explicit_discriminants_generate(input: DeriveInput, known: nat)
    requires
        input.data is Enum,
        type_endian(input.attrs@) is Ok,
        repr_attr(input.attrs@) is Ok,
        forall|a: int|
            0 <= a < input.data->Enum_0@.len() ==> (#[trigger] input.data->Enum_0@[a]).discriminant is Some,
        forall|a: int|
            0 <= a < input.data->Enum_0@.len() ==> in_range(
                repr_attr(input.attrs@)->Ok_0,
                (#[trigger] input.data->Enum_0@[a]).discriminant->Some_0 as int,
            ),
        forall|a: int|
            0 <= a < input.data->Enum_0@.len() ==> fields_error(
                (#[trigger] input.data->Enum_0@[a]).fields,
                type_endian(input.attrs@)->Ok_0,
                known,
            ) is None,
        forall|a: int, b: int|
            0 <= a < b < input.data->Enum_0@.len() ==> input.data->Enum_0@[a].discriminant
                != input.data->Enum_0@[b].discriminant,
    ensures
        derive_error(input, known) is None,
{
    lemma_variants_fine_from(
        input.data->Enum_0@,
        repr_attr(input.attrs@)->Ok_0,
        type_endian(input.attrs@)->Ok_0,
        known,
        0,
    );
}

/// A discriminant that no variant has fails the read as invalid data, once
/// its bytes are there.
pub proof fn lemma_unknown_discriminant(r: Registry, t: int, s: Seq<u8>, cfg: Config)
    requires
        0 <= t < r.types@.len(),
        r.types@[t] is Enum,
        s.len() >= r.types@[t]->repr.width(),
        forall|j: int|
            0 <= j < r.types@[t]->variants@.len() ==> (#[trigger] r.types@[t]->variants@[j]).discriminant
                != decoded(
                r.types@[t]->repr,
                s.take(r.types@[t]->repr.width() as int),
                r.types@[t]->endian.on(cfg.native),
            ),
    ensures
        parse_type(r.types@, t, s, cfg) == Err::<(ValueV, nat), ReadError>(ReadError::InvalidData),
{
}

/// Booleans: the byte 0 reads as `false` and 1 as `true`; any other byte
/// fails as invalid data, or reads as `true` where booleans are unchecked.
pub proof fn lemma_bool_strictness(reg: Seq<Layout>, t: int, b: u8, rest: Seq<u8>, cfg: Config)
    ensures
        parse_codec(reg, t, Codec::Bool, seq![b] + rest, cfg) == (if b == 0 {
            Ok::<(ValueV, nat), ReadError>((ValueV::Bool(false), 1))
        } else if b == 1 || cfg.unchecked_bool {
            Ok((ValueV::Bool(true), 1))
        } else {
            Err(ReadError::InvalidData)
        }),
{
    assert((seq![b] + rest)[0] == b);
}

/// Markers: the constant reads back as the marker, and a change to any one
/// of its bytes fails the read as invalid data.
pub proof fn lemma_marker_exact(r: Registry, t: int, i: int, x: u8, rest: Seq<u8>, cfg: Config)
    requires
        0 <= t < r.types@.len(),
        r.types@[t] is Payload,
        0 <= i < r.types@[t]->Payload_0@.len(),
        x != r.types@[t]->Payload_0@[i],
    ensures
        parse_type(r.types@, t, r.types@[t]->Payload_0@ + rest, cfg) == Ok::<
            (ValueV, nat),
            ReadError,
        >((ValueV::Unit, r.types@[t]->Payload_0@.len())),
        parse_type(r.types@, t, r.types@[t]->Payload_0@.update(i, x) + rest, cfg) == Err::<
            (ValueV, nat),
            ReadError,
        >(ReadError::InvalidData),
{
    let p = r.types@[t]->Payload_0@;
    assert((p + rest).take(p.len() as int) =~= p);
    let q = p.update(i, x) + rest;
    assert(q.take(p.len() as int)[i] != p[i]);
}

} // verus!
