//! Values of generated types and their encoding.
use vstd::prelude::*;
use crate::endian::{ByteOrder, GenError};
use crate::layout::{derived, derive_error, Codec, DeriveInput, FieldPlan, Layout};
use crate::primitive::{
    decoded, parse_prims, prims_image, read_prims, write_prims, Primitive,
};

verus! {

broadcast use vstd::std_specs::vec::group_vec_axioms;

/// A value of a generated type, shaped as its layout.
#[derive(Debug, PartialEq, Eq)]
pub enum Value {
    Primitive(Primitive),
    Bool(bool),
    /// The value of a marker type.
    Unit,
    /// A fixed number of integers of one kind.
    Array(Vec<Primitive>),
    /// A record: its fields in declaration order.
    Struct(Vec<Value>),
    /// A tagged union: the index of the variant, and its fields.
    Variant(usize, Vec<Value>),
}

/// What a value holds, as mathematics.
pub enum ValueV {
    Primitive(Primitive),
    Bool(bool),
    Unit,
    Array(Seq<Primitive>),
    Struct(Seq<ValueV>),
    Variant(nat, Seq<ValueV>),
}

pub open spec fn view_of(v: Value) -> ValueV
    decreases v, 1int, 0int,
{
    match v {
        Value::Primitive(p) => ValueV::Primitive(p),
        Value::Bool(b) => ValueV::Bool(b),
        Value::Unit => ValueV::Unit,
        Value::Array(ps) => ValueV::Array(ps@),
        Value::Struct(vs) => ValueV::Struct(views_from(vs, 0)),
        Value::Variant(j, vs) => ValueV::Variant(j as nat, views_from(vs, 0)),
    }
}

pub open spec fn views_from(vs: Vec<Value>, i: int) -> Seq<ValueV>
    decreases vs, 0int, vs@.len() - i,
{
    if 0 <= i < vs@.len() {
        seq![view_of(vs@[i])] + views_from(vs, i + 1)
    } else {
        Seq::empty()
    }
}

impl View for Value {
    type V = ValueV;

    open spec fn view(&self) -> ValueV {
        view_of(*self)
    }
}

pub open spec fn views(vs: Seq<Value>) -> Seq<ValueV> {
    vs.map_values(|x: Value| view_of(x))
}

proof fn lemma_views_from(vs: Vec<Value>, i: int)
    requires
        0 <= i <= vs@.len(),
    ensures
        views_from(vs, i) == views(vs@.subrange(i, vs@.len() as int)),
    decreases vs@.len() - i,
{
    if i < vs@.len() {
        lemma_views_from(vs, i + 1);
    }
    assert(views_from(vs, i) =~= views(vs@.subrange(i, vs@.len() as int)));
}

pub proof fn lemma_views(vs: Vec<Value>)
    ensures
        views_from(vs, 0) == views(vs@),
        views_from(vs, 0).len() == vs@.len(),
{
    lemma_views_from(vs, 0);
    assert(vs@.subrange(0, vs@.len() as int) =~= vs@);
}

/// How values are read and written on a machine: the machine's own byte
/// order, and whether any nonzero byte reads as `true`.
#[derive(Clone, Copy, Debug, PartialEq, Eq, Structural)]
pub struct Config {
    pub native: ByteOrder,
    pub unchecked_bool: bool,
}

/// Relies on u16::from_ne_bytes: the bytes [1, 0] in the machine's own order
/// are 1 where it is little-endian and 256 where it is big-endian.
#[verifier::external_body]
fn one_in_native_order() -> (r: u16)
    ensures
        r == 1 || r == 256,
{
    u16::from_ne_bytes([1, 0])
}

/// The byte order of the machine this runs on.
pub fn native_order() -> ByteOrder {
    if one_in_native_order() == 1 {
        ByteOrder::Little
    } else {
        ByteOrder::Big
    }
}

impl Config {
    /// The configuration of this machine, with booleans checked.
    pub fn host() -> (r: Config)
        ensures
            !r.unchecked_bool,
    {
        Config { native: native_order(), unchecked_bool: false }
    }
}

/// Why bytes cannot be read as a value.
#[derive(Clone, Copy, Debug, PartialEq, Eq, Structural)]
pub enum ReadError {
    /// The input ends before the value does.
    UnexpectedEof,
    /// The bytes hold no value of the type.
    InvalidData,
}

pub open spec fn bool_byte(b: bool) -> u8 {
    if b {
        1
    } else {
        0
    }
}

/// The bytes of value `v` of a field laid out by `c`, in type `t`.
pub open spec fn encode_codec(reg: Seq<Layout>, t: int, c: Codec, v: ValueV, cfg: Config) -> Seq<
    u8,
>
    decreases t, 0int, 0int,
{
    match c {
        Codec::Primitive(k, e) => match v {
            ValueV::Primitive(p) => p.image(e.on(cfg.native)),
            _ => Seq::empty(),
        },
        Codec::Bool => match v {
            ValueV::Bool(b) => seq![bool_byte(b)],
            _ => Seq::empty(),
        },
        Codec::Io(u) => if 0 <= u < t {
            encode_type(reg, u as int, v, cfg)
        } else {
            Seq::empty()
        },
        Codec::Array(_, _, e) => match v {
            ValueV::Array(ps) => prims_image(ps, e.on(cfg.native)),
            _ => Seq::empty(),
        },
    }
}

/// The bytes of the fields from `i` on, one after the other.
pub open spec fn encode_fields(
    reg: Seq<Layout>,
    t: int,
    ps: Seq<FieldPlan>,
    vs: Seq<ValueV>,
    i: int,
    cfg: Config,
) -> Seq<u8>
    decreases t, 1int, ps.len() - i,
{
    if 0 <= i < ps.len() {
        encode_codec(reg, t, ps[i].codec, vs[i], cfg) + encode_fields(reg, t, ps, vs, i + 1, cfg)
    } else {
        Seq::empty()
    }
}

/// The bytes of value `v` of type `t`.
pub open spec fn encode_type(reg: Seq<Layout>, t: int, v: ValueV, cfg: Config) -> Seq<u8>
    decreases t, 2int, 0int,
{
    if 0 <= t < reg.len() {
        match reg[t] {
            Layout::Struct(p) => match v {
                ValueV::Struct(vs) => encode_fields(reg, t, p.fields@, vs, 0, cfg),
                _ => Seq::empty(),
            },
            Layout::Enum { repr, endian, variants } => match v {
                ValueV::Variant(j, vs) => if j < variants@.len() {
                    variants@[j as int].discriminant.image(endian.on(cfg.native)) + encode_fields(
                        reg,
                        t,
                        variants@[j as int].fields.fields@,
                        vs,
                        0,
                        cfg,
                    )
                } else {
                    Seq::empty()
                },
                _ => Seq::empty(),
            },
            Layout::Payload(bytes) => bytes@,
        }
    } else {
        Seq::empty()
    }
}

/// `v` is a value of a field laid out by `c`.
pub open spec fn conforms_codec(reg: Seq<Layout>, t: int, c: Codec, v: ValueV) -> bool
    decreases t, 0int, 0int,
{
    match c {
        Codec::Primitive(k, _) => match v {
            ValueV::Primitive(p) => p.kind() == k,
            _ => false,
        },
        Codec::Bool => v is Bool,
        Codec::Io(u) => 0 <= u < t && conforms_type(reg, u as int, v),
        Codec::Array(k, n, _) => match v {
            ValueV::Array(ps) => ps.len() == n && forall|i: int|
                0 <= i < ps.len() ==> (#[trigger] ps[i]).kind() == k,
            _ => false,
        },
    }
}

pub open spec fn conforms_fields(
    reg: Seq<Layout>,
    t: int,
    ps: Seq<FieldPlan>,
    vs: Seq<ValueV>,
    i: int,
) -> bool
    decreases t, 1int, ps.len() - i,
{
    if 0 <= i < ps.len() {
        conforms_codec(reg, t, ps[i].codec, vs[i]) && conforms_fields(reg, t, ps, vs, i + 1)
    } else {
        true
    }
}

/// `v` is a value of type `t`.
pub open spec fn conforms_type(reg: Seq<Layout>, t: int, v: ValueV) -> bool
    decreases t, 2int, 0int,
{
    &&& 0 <= t < reg.len()
    &&& match reg[t] {
        Layout::Struct(p) => match v {
            ValueV::Struct(vs) => vs.len() == p.fields@.len() && conforms_fields(
                reg,
                t,
                p.fields@,
                vs,
                0,
            ),
            _ => false,
        },
        Layout::Enum { repr, endian, variants } => match v {
            ValueV::Variant(j, vs) => {
                &&& j < variants@.len()
                &&& vs.len() == variants@[j as int].fields.fields@.len()
                &&& conforms_fields(reg, t, variants@[j as int].fields.fields@, vs, 0)
            },
            _ => false,
        },
        Layout::Payload(_) => v is Unit,
    }
}

/// What one byte reads as, as a boolean: 0 and 1, or any nonzero byte as
/// `true` where booleans are unchecked.
pub open spec fn bool_read(b: u8, unchecked: bool) -> Option<bool> {
    if b == 0 {
        Some(false)
    } else if b == 1 {
        Some(true)
    } else if unchecked {
        Some(true)
    } else {
        None
    }
}

/// The value of a field laid out by `c` at the start of `s`, and the number of
/// bytes it takes.
pub open spec fn parse_codec(reg: Seq<Layout>, t: int, c: Codec, s: Seq<u8>, cfg: Config) -> Result<
    (ValueV, nat),
    ReadError,
>
    decreases t, 0int, 0int,
{
    match c {
        Codec::Primitive(k, e) => if s.len() < k.width() {
            Err(ReadError::UnexpectedEof)
        } else {
            Ok(
                (
                    ValueV::Primitive(decoded(k, s.take(k.width() as int), e.on(cfg.native))),
                    k.width(),
                ),
            )
        },
        Codec::Bool => if s.len() < 1 {
            Err(ReadError::UnexpectedEof)
        } else {
            match bool_read(s[0], cfg.unchecked_bool) {
                Some(b) => Ok((ValueV::Bool(b), 1)),
                None => Err(ReadError::InvalidData),
            }
        },
        Codec::Io(u) => if 0 <= u < t {
            parse_type(reg, u as int, s, cfg)
        } else {
            Err(ReadError::InvalidData)
        },
        Codec::Array(k, n, e) => match parse_prims(k, e.on(cfg.native), n as nat, s) {
            Some((ps, m)) => Ok((ValueV::Array(ps), m)),
            None => Err(ReadError::UnexpectedEof),
        },
    }
}

/// The values of the fields from `i` on, read one after the other from `s`.
pub open spec fn parse_fields(
    reg: Seq<Layout>,
    t: int,
    ps: Seq<FieldPlan>,
    i: int,
    s: Seq<u8>,
    cfg: Config,
) -> Result<(Seq<ValueV>, nat), ReadError>
    decreases t, 1int, ps.len() - i,
{
    if 0 <= i < ps.len() {
        match parse_codec(reg, t, ps[i].codec, s, cfg) {
            Err(e) => Err(e),
            Ok((v, n)) => match parse_fields(reg, t, ps, i + 1, s.skip(n as int), cfg) {
                Err(e) => Err(e),
                Ok((vs, m)) => Ok((seq![v] + vs, n + m)),
            },
        }
    } else {
        Ok((Seq::empty(), 0))
    }
}

/// The value of type `t` at the start of `s`, and the number of bytes it takes.
pub open spec fn parse_type(reg: Seq<Layout>, t: int, s: Seq<u8>, cfg: Config) -> Result<
    (ValueV, nat),
    ReadError,
>
    decreases t, 2int, 0int,
{
    if 0 <= t < reg.len() {
        match reg[t] {
            Layout::Struct(p) => match parse_fields(reg, t, p.fields@, 0, s, cfg) {
                Err(e) => Err(e),
                Ok((vs, n)) => Ok((ValueV::Struct(vs), n)),
            },
            Layout::Enum { repr, endian, variants } => {
                let w = repr.width();
                if s.len() < w {
                    Err(ReadError::UnexpectedEof)
                } else {
                    let d = decoded(repr, s.take(w as int), endian.on(cfg.native));
                    if exists|j: int| 0 <= j < variants@.len() && variants@[j].discriminant == d {
                        let j = choose|j: int|
                            0 <= j < variants@.len() && variants@[j].discriminant == d;
                        match parse_fields(
                            reg,
                            t,
                            variants@[j].fields.fields@,
                            0,
                            s.skip(w as int),
                            cfg,
                        ) {
                            Err(e) => Err(e),
                            Ok((vs, n)) => Ok((ValueV::Variant(j as nat, vs), w + n)),
                        }
                    } else {
                        Err(ReadError::InvalidData)
                    }
                }
            },
            Layout::Payload(bytes) => if s.len() < bytes@.len() {
                Err(ReadError::UnexpectedEof)
            } else if s.take(bytes@.len() as int) == bytes@ {
                Ok((ValueV::Unit, bytes@.len()))
            } else {
                Err(ReadError::InvalidData)
            },
        }
    } else {
        Err(ReadError::InvalidData)
    }
}

/// `r`, a result of reading at `pos`, is what `p` says of the bytes from `pos` on.
pub open spec fn answers(p: Result<(ValueV, nat), ReadError>, r: Result<(Value, usize), ReadError>, pos: int) -> bool {
    match p {
        Err(e) => r == Err::<(Value, usize), ReadError>(e),
        Ok((v, n)) => r is Ok && r->Ok_0.0@ == v && r->Ok_0.1 == pos + n,
    }
}

pub open spec fn prepend(done: Seq<ValueV>, k: nat, r: Result<(Seq<ValueV>, nat), ReadError>) -> Result<
    (Seq<ValueV>, nat),
    ReadError,
> {
    match r {
        Err(e) => Err(e),
        Ok((vs, m)) => Ok((done + vs, k + m)),
    }
}

/// Each layout names only the types before it.
pub open spec fn layouts_wf(reg: Seq<Layout>) -> bool {
    forall|t: int| 0 <= t < reg.len() ==> (#[trigger] reg[t]).wf(t as nat)
}

/// Whether every one of `ps` is of kind `k`.
fn all_of_kind(ps: &Vec<Primitive>, k: crate::primitive::PrimitiveKind) -> (r: bool)
    ensures
        r == forall|a: int| 0 <= a < ps@.len() ==> (#[trigger] ps@[a]).kind() == k,
{
    let mut i: usize = 0;
    while i < ps.len()
        invariant
            i <= ps@.len(),
            forall|a: int| 0 <= a < i ==> (#[trigger] ps@[a]).kind() == k,
        decreases ps@.len() - i,
    {
        if ps[i].kind_of() != k {
            assert(ps@[i as int].kind() != k);
            return false;
        }
        i = i + 1;
    }
    true
}

/// Generated layouts, each able to name the ones before it.
pub struct Registry {
    pub types: Vec<Layout>,
}

impl Registry {
    pub open spec fn wf(self) -> bool {
        layouts_wf(self.types@)
    }

    pub fn new() -> (r: Registry)
        ensures
            r.wf(),
            r.types@.len() == 0,
    {
        Registry { types: Vec::new() }
    }

    /// Generates the layout of `input` and adds it; its index names the type.
    pub fn derive(&mut self, input: &DeriveInput) -> (r: Result<usize, GenError>)
        requires
            old(self).wf(),
        ensures
            final(self).wf(),
            match derive_error(*input, old(self).types@.len()) {
                Some(e) => r == Err::<usize, GenError>(e) && *final(self) == *old(self),
                None => {
                    &&& r == Ok::<usize, GenError>(old(self).types@.len() as usize)
                    &&& final(self).types@.len() == old(self).types@.len() + 1
                    &&& final(self).types@.subrange(0, old(self).types@.len() as int)
                        == old(self).types@
                    &&& derived(*input, old(self).types@.len(), final(self).types@.last())
                },
            },
    {
        let known = self.types.len();
        match crate::layout::derive(input, known) {
            Ok(layout) => {
                self.types.push(layout);
                proof {
                    assert(self.types@.subrange(0, known as int) =~= old(self).types@);
                    assert forall|t: int| 0 <= t < self.types@.len() implies (
                    #[trigger] self.types@[t]).wf(t as nat) by {
                        if t < known {
                            assert(self.types@[t] == old(self).types@[t]);
                        }
                    }
                }
                Ok(known)
            },
            Err(e) => Err(e),
        }
    }

    /// Adds a marker type, laid out as the constant `payload`.
    pub fn register_payload(&mut self, payload: Vec<u8>) -> (r: usize)
        requires
            old(self).wf(),
        ensures
            final(self).wf(),
            r == old(self).types@.len(),
            final(self).types@ == old(self).types@.push(Layout::Payload(payload)),
    {
        let t = self.types.len();
        self.types.push(Layout::Payload(payload));
        proof {
            assert forall|u: int| 0 <= u < self.types@.len() implies (
            #[trigger] self.types@[u]).wf(u as nat) by {
                if u < t {
                    assert(self.types@[u] == old(self).types@[u]);
                }
            }
        }
        t
    }

    fn write_codec(&self, t: usize, c: Codec, v: &Value, cfg: &Config, out: &mut Vec<u8>)
        requires
            self.wf(),
            t < self.types@.len(),
            crate::layout::codec_wf(c, t as nat),
            conforms_codec(self.types@, t as int, c, v@),
        ensures
            final(out)@ == old(out)@ + encode_codec(self.types@, t as int, c, v@, *cfg),
        decreases t, 0int, 0int,
    {
        match c {
            Codec::Primitive(_, e) => match v {
                Value::Primitive(p) => e.write(*p, cfg.native, out),
                _ => {},
            },
            Codec::Bool => match v {
                Value::Bool(b) => out.push(if *b { 1u8 } else { 0u8 }),
                _ => {},
            },
            Codec::Io(u) => self.write_type(u, v, cfg, out),
            Codec::Array(_, _, e) => match v {
                Value::Array(ps) => write_prims(ps, e.resolve(cfg.native), out),
                _ => {},
            },
        }
    }

    fn write_fields(
        &self,
        t: usize,
        ps: &Vec<FieldPlan>,
        vs: &Vec<Value>,
        cfg: &Config,
        out: &mut Vec<u8>,
    )
        requires
            self.wf(),
            t < self.types@.len(),
            forall|i: int|
                0 <= i < ps@.len() ==> crate::layout::codec_wf(#[trigger] ps@[i].codec, t as nat),
            vs@.len() == ps@.len(),
            conforms_fields(self.types@, t as int, ps@, views(vs@), 0),
        ensures
            final(out)@ == old(out)@ + encode_fields(
                self.types@,
                t as int,
                ps@,
                views(vs@),
                0,
                *cfg,
            ),
        decreases t, 1int, 0int,
    {
        let ghost reg = self.types@;
        let ghost vv = views(vs@);
        let mut i: usize = 0;
        while i < ps.len()
            invariant
                reg == self.types@,
                vv == views(vs@),
                self.wf(),
                t < reg.len(),
                forall|i: int|
                    0 <= i < ps@.len() ==> crate::layout::codec_wf(
                        #[trigger] ps@[i].codec,
                        t as nat,
                    ),
                vs@.len() == ps@.len(),
                i <= ps@.len(),
                conforms_fields(reg, t as int, ps@, vv, i as int),
                old(out)@ + encode_fields(reg, t as int, ps@, vv, 0, *cfg) == out@ + encode_fields(
                    reg,
                    t as int,
                    ps@,
                    vv,
                    i as int,
                    *cfg,
                ),
            decreases ps@.len() - i,
        {
            let ghost before = out@;
            let ghost piece = encode_codec(reg, t as int, ps@[i as int].codec, vv[i as int], *cfg);
            let ghost rest = encode_fields(reg, t as int, ps@, vv, i + 1, *cfg);
            assert(vv[i as int] == vs@[i as int]@);
            self.write_codec(t, ps[i].codec, &vs[i], cfg, out);
            assert(before + (piece + rest) =~= out@ + rest);
            i = i + 1;
        }
        assert(out@ + encode_fields(reg, t as int, ps@, vv, i as int, *cfg) =~= out@);
    }

    fn write_type(&self, t: usize, v: &Value, cfg: &Config, out: &mut Vec<u8>)
        requires
            self.wf(),
            t < self.types@.len(),
            conforms_type(self.types@, t as int, v@),
        ensures
            final(out)@ == old(out)@ + encode_type(self.types@, t as int, v@, *cfg),
        decreases t, 2int, 0int,
    {
        assert(self.types@[t as int].wf(t as nat));
        match &self.types[t] {
            Layout::Struct(p) => match v {
                Value::Struct(vs) => {
                    proof {
                        lemma_views(*vs);
                    }
                    self.write_fields(t, &p.fields, vs, cfg, out);
                },
                _ => {},
            },
            Layout::Enum { repr, endian, variants } => match v {
                Value::Variant(j, vs) => {
                    proof {
                        lemma_views(*vs);
                    }
                    let variant = &variants[*j];
                    endian.write(variant.discriminant, cfg.native, out);
                    self.write_fields(t, &variant.fields.fields, vs, cfg, out);
                    assert(out@ =~= old(out)@ + encode_type(self.types@, t as int, v@, *cfg));
                },
                _ => {},
            },
            Layout::Payload(bytes) => {
                let mut i: usize = 0;
                while i < bytes.len()
                    invariant
                        i <= bytes@.len(),
                        out@ == old(out)@ + bytes@.subrange(0, i as int),
                    decreases bytes@.len() - i,
                {
                    out.push(bytes[i]);
                    assert(out@ =~= old(out)@ + bytes@.subrange(0, i + 1));
                    i = i + 1;
                }
                assert(bytes@.subrange(0, i as int) =~= bytes@);
            },
        }
    }

    fn conforms_codec_exec(&self, t: usize, c: Codec, v: &Value) -> (r: bool)
        requires
            self.wf(),
            t < self.types@.len(),
            crate::layout::codec_wf(c, t as nat),
        ensures
            r == conforms_codec(self.types@, t as int, c, v@),
        decreases t, 0int, 0int,
    {
        match c {
            Codec::Primitive(k, _) => match v {
                Value::Primitive(p) => p.kind_of() == k,
                _ => false,
            },
            Codec::Bool => match v {
                Value::Bool(_) => true,
                _ => false,
            },
            Codec::Io(u) => self.conforms_type(u, v),
            Codec::Array(k, n, _) => match v {
                Value::Array(ps) => ps.len() == n && all_of_kind(ps, k),
                _ => false,
            },
        }
    }

    fn conforms_fields_exec(&self, t: usize, ps: &Vec<FieldPlan>, vs: &Vec<Value>) -> (r: bool)
        requires
            self.wf(),
            t < self.types@.len(),
            forall|i: int|
                0 <= i < ps@.len() ==> crate::layout::codec_wf(#[trigger] ps@[i].codec, t as nat),
            vs@.len() == ps@.len(),
        ensures
            r == conforms_fields(self.types@, t as int, ps@, views(vs@), 0),
        decreases t, 1int, 0int,
    {
        let ghost reg = self.types@;
        let ghost vv = views(vs@);
        let mut i: usize = 0;
        while i < ps.len()
            invariant
                reg == self.types@,
                vv == views(vs@),
                self.wf(),
                t < reg.len(),
                forall|i: int|
                    0 <= i < ps@.len() ==> crate::layout::codec_wf(
                        #[trigger] ps@[i].codec,
                        t as nat,
                    ),
                vs@.len() == ps@.len(),
                i <= ps@.len(),
                conforms_fields(reg, t as int, ps@, vv, 0) == conforms_fields(
                    reg,
                    t as int,
                    ps@,
                    vv,
                    i as int,
                ),
            decreases ps@.len() - i,
        {
            assert(vv[i as int] == vs@[i as int]@);
            if !self.conforms_codec_exec(t, ps[i].codec, &vs[i]) {
                return false;
            }
            i = i + 1;
        }
        true
    }

    fn conforms_type(&self, t: usize, v: &Value) -> (r: bool)
        requires
            self.wf(),
            t < self.types@.len(),
        ensures
            r == conforms_type(self.types@, t as int, v@),
        decreases t, 2int, 0int,
    {
        assert(self.types@[t as int].wf(t as nat));
        match &self.types[t] {
            Layout::Struct(p) => match v {
                Value::Struct(vs) => {
                    proof {
                        lemma_views(*vs);
                    }
                    vs.len() == p.fields.len() && self.conforms_fields_exec(t, &p.fields, vs)
                },
                _ => false,
            },
            Layout::Enum { repr, endian, variants } => match v {
                Value::Variant(j, vs) => {
                    proof {
                        lemma_views(*vs);
                    }
                    *j < variants.len() && vs.len() == variants[*j].fields.fields.len()
                        && self.conforms_fields_exec(t, &variants[*j].fields.fields, vs)
                },
                _ => false,
            },
            Layout::Payload(_) => match v {
                Value::Unit => true,
                _ => false,
            },
        }
    }

    /// Whether `v` is a value of type `t`, as `write` requires.
    pub fn conforms(&self, t: usize, v: &Value) -> (r: bool)
        requires
            self.wf(),
            t < self.types@.len(),
        ensures
            r == conforms_type(self.types@, t as int, v@),
    {
        self.conforms_type(t, v)
    }

    /// Appends the bytes of `v`, a value of type `t`.
    pub fn write(&self, t: usize, v: &Value, cfg: &Config, out: &mut Vec<u8>)
        requires
            self.wf(),
            t < self.types@.len(),
            conforms_type(self.types@, t as int, v@),
        ensures
            final(out)@ == old(out)@ + encode_type(self.types@, t as int, v@, *cfg),
    {
        self.write_type(t, v, cfg, out)
    }
    fn find_variant(variants: &Vec<crate::layout::VariantPlan>, d: Primitive) -> (r: Option<usize>)
        ensures
            match r {
                Some(j) => j < variants@.len() && variants@[j as int].discriminant == d,
                None => forall|a: int| 0 <= a < variants@.len() ==> variants@[a].discriminant != d,
            },
    {
        let mut j: usize = 0;
        while j < variants.len()
            invariant
                j <= variants@.len(),
                forall|a: int| 0 <= a < j ==> variants@[a].discriminant != d,
            decreases variants@.len() - j,
        {
            if variants[j].discriminant == d {
                return Some(j);
            }
            j = j + 1;
        }
        None
    }

    fn read_codec(&self, t: usize, c: Codec, input: &[u8], pos: usize, cfg: &Config) -> (r: Result<
        (Value, usize),
        ReadError,
    >)
        requires
            self.wf(),
            t < self.types@.len(),
            crate::layout::codec_wf(c, t as nat),
            pos <= input@.len(),
        ensures
            answers(parse_codec(self.types@, t as int, c, input@.skip(pos as int), *cfg), r, pos as int),
            r is Ok ==> r->Ok_0.1 <= input@.len(),
        decreases t, 0int, 0int,
    {
        let ghost s = input@.skip(pos as int);
        let len = input.len();
        match c {
            Codec::Primitive(k, e) => match e.read(k, cfg.native, input, pos) {
                None => Err(ReadError::UnexpectedEof),
                Some(p) => {
                    assert(s.take(k.width() as int) =~= input@.subrange(
                        pos as int,
                        pos + k.width(),
                    ));
                    Ok((Value::Primitive(p), pos + k.size()))
                },
            },
            Codec::Bool => {
                if pos >= input.len() {
                    return Err(ReadError::UnexpectedEof);
                }
                let b = input[pos];
                assert(s[0] == b);
                if b == 0 {
                    Ok((Value::Bool(false), pos + 1))
                } else if b == 1 || cfg.unchecked_bool {
                    Ok((Value::Bool(true), pos + 1))
                } else {
                    Err(ReadError::InvalidData)
                }
            },
            Codec::Io(u) => self.read_type(u, input, pos, cfg),
            Codec::Array(k, n, e) => match read_prims(k, e.resolve(cfg.native), n, input, pos) {
                None => Err(ReadError::UnexpectedEof),
                Some((ps, q)) => Ok((Value::Array(ps), q)),
            },
        }
    }

    fn read_fields(
        &self,
        t: usize,
        ps: &Vec<FieldPlan>,
        input: &[u8],
        pos: usize,
        cfg: &Config,
    ) -> (r: Result<(Vec<Value>, usize), ReadError>)
        requires
            self.wf(),
            t < self.types@.len(),
            forall|i: int|
                0 <= i < ps@.len() ==> crate::layout::codec_wf(#[trigger] ps@[i].codec, t as nat),
            pos <= input@.len(),
        ensures
            match parse_fields(self.types@, t as int, ps@, 0, input@.skip(pos as int), *cfg) {
                Err(e) => r == Err::<(Vec<Value>, usize), ReadError>(e),
                Ok((vs, n)) => r is Ok && views(r->Ok_0.0@) == vs && r->Ok_0.1 == pos + n,
            },
            r is Ok ==> r->Ok_0.1 <= input@.len(),
        decreases t, 1int, 0int,
    {
        let ghost reg = self.types@;
        let mut vals: Vec<Value> = Vec::new();
        let mut p: usize = pos;
        let mut i: usize = 0;
        assert(views(vals@) =~= Seq::<ValueV>::empty());
        assert(parse_fields(reg, t as int, ps@, 0, input@.skip(pos as int), *cfg) =~= prepend(
            views(vals@),
            0,
            parse_fields(reg, t as int, ps@, 0, input@.skip(pos as int), *cfg),
        ));
        while i < ps.len()
            invariant
                reg == self.types@,
                self.wf(),
                t < reg.len(),
                forall|i: int|
                    0 <= i < ps@.len() ==> crate::layout::codec_wf(
                        #[trigger] ps@[i].codec,
                        t as nat,
                    ),
                i <= ps@.len(),
                pos <= p <= input@.len(),
                parse_fields(reg, t as int, ps@, 0, input@.skip(pos as int), *cfg) == prepend(
                    views(vals@),
                    (p - pos) as nat,
                    parse_fields(reg, t as int, ps@, i as int, input@.skip(p as int), *cfg),
                ),
            decreases ps@.len() - i,
        {
            match self.read_codec(t, ps[i].codec, input, p, cfg) {
                Err(e) => {
                    return Err(e);
                },
                Ok((v, q)) => {
                    let ghost n = (q - p) as nat;
                    let ghost rest = parse_fields(
                        reg,
                        t as int,
                        ps@,
                        i + 1,
                        input@.skip(q as int),
                        *cfg,
                    );
                    assert(input@.skip(p as int).skip(n as int) =~= input@.skip(q as int));
                    let ghost before = views(vals@);
                    vals.push(v);
                    assert(views(vals@) =~= before.push(v@));
                    proof {
                        if rest is Ok {
                            let vs = rest->Ok_0.0;
                            assert(before + (seq![v@] + vs) =~= views(vals@) + vs);
                        }
                    }
                    p = q;
                },
            }
            i = i + 1;
        }
        assert(views(vals@) + Seq::<ValueV>::empty() =~= views(vals@));
        Ok((vals, p))
    }

    fn read_type(&self, t: usize, input: &[u8], pos: usize, cfg: &Config) -> (r: Result<
        (Value, usize),
        ReadError,
    >)
        requires
            self.wf(),
            t < self.types@.len(),
            pos <= input@.len(),
        ensures
            answers(parse_type(self.types@, t as int, input@.skip(pos as int), *cfg), r, pos as int),
            r is Ok ==> r->Ok_0.1 <= input@.len(),
        decreases t, 2int, 0int,
    {
        let ghost s = input@.skip(pos as int);
        let len = input.len();
        assert(self.types@[t as int].wf(t as nat));
        match &self.types[t] {
            Layout::Struct(p) => match self.read_fields(t, &p.fields, input, pos, cfg) {
                Err(e) => Err(e),
                Ok((vals, q)) => {
                    proof {
                        lemma_views(vals);
                    }
                    Ok((Value::Struct(vals), q))
                },
            },
            Layout::Enum { repr, endian, variants } => {
                let w = repr.size();
                let d = match endian.read(*repr, cfg.native, input, pos) {
                    None => {
                        return Err(ReadError::UnexpectedEof);
                    },
                    Some(d) => d,
                };
                assert(s.take(w as int) =~= input@.subrange(pos as int, pos + w));
                let j = match Self::find_variant(variants, d) {
                    None => {
                        return Err(ReadError::InvalidData);
                    },
                    Some(j) => j,
                };
                let ghost jj = choose|a: int|
                    0 <= a < variants@.len() && variants@[a].discriminant == d;
                assert(jj == j as int) by {
                    if jj < j as int {
                    } else if jj > j as int {
                        assert(variants@[j as int].discriminant != variants@[jj].discriminant);
                    }
                }
                assert(s.skip(w as int) =~= input@.skip(pos + w));
                match self.read_fields(t, &variants[j].fields.fields, input, pos + w, cfg) {
                    Err(e) => Err(e),
                    Ok((vals, q)) => {
                        proof {
                            lemma_views(vals);
                        }
                        Ok((Value::Variant(j, vals), q))
                    },
                }
            },
            Layout::Payload(bytes) => {
                if pos > input.len() || input.len() - pos < bytes.len() {
                    return Err(ReadError::UnexpectedEof);
                }
                let mut i: usize = 0;
                while i < bytes.len()
                    invariant
                        i <= bytes@.len(),
                        s == input@.skip(pos as int),
                        len == input@.len(),
                        t < self.types@.len(),
                        self.types@[t as int] == Layout::Payload(*bytes),
                        pos + bytes@.len() <= input@.len(),
                        forall|a: int| 0 <= a < i ==> input@[pos + a] == bytes@[a],
                    decreases bytes@.len() - i,
                {
                    if input[pos + i] != bytes[i] {
                        assert(s.take(bytes@.len() as int)[i as int] != bytes@[i as int]);
                        return Err(ReadError::InvalidData);
                    }
                    i = i + 1;
                }
                assert(s.take(bytes@.len() as int) =~= bytes@);
                Ok((Value::Unit, pos + bytes.len()))
            },
        }
    }

    /// Reads a value of type `t` from `input` at `pos`; gives it with the
    /// position after it.
    pub fn read(&self, t: usize, input: &[u8], pos: usize, cfg: &Config) -> (r: Result<
        (Value, usize),
        ReadError,
    >)
        requires
            self.wf(),
            t < self.types@.len(),
            pos <= input@.len(),
        ensures
            answers(parse_type(self.types@, t as int, input@.skip(pos as int), *cfg), r, pos as int),
    {
        self.read_type(t, input, pos, cfg)
    }
}

} // verus!