//! Fixed-width integers and their byte images in either order.
use vstd::prelude::*;
use crate::endian::{ByteOrder, Endian};

verus! {

/// The fixed-width integer types that a field or a discriminant can have.
#[derive(Clone, Copy, Debug, PartialEq, Eq, Structural)]
pub enum PrimitiveKind {
    U8,
    U16,
    U32,
    U64,
    U128,
    I8,
    I16,
    I32,
    I64,
    I128,
}

/// A value of one of the fixed-width integer types.
#[derive(Clone, Copy, Debug, PartialEq, Eq, Structural)]
pub enum Primitive {
    U8(u8),
    U16(u16),
    U32(u32),
    U64(u64),
    U128(u128),
    I8(i8),
    I16(i16),
    I32(i32),
    I64(i64),
    I128(i128),
}

pub open spec fn pow256(n: nat) -> nat
    decreases n,
{
    if n == 0 {
        1
    } else {
        256 * pow256((n - 1) as nat)
    }
}

/// The `n` low bytes of `x`, least significant first.
pub open spec fn le_digits(x: nat, n: nat) -> Seq<u8>
    decreases n,
{
    if n == 0 {
        Seq::empty()
    } else {
        seq![(x % 256) as u8] + le_digits(x / 256, (n - 1) as nat)
    }
}

/// The `n` low bytes of `x`, most significant first.
pub open spec fn be_digits(x: nat, n: nat) -> Seq<u8>
    decreases n,
{
    if n == 0 {
        Seq::empty()
    } else {
        be_digits(x / 256, (n - 1) as nat).push((x % 256) as u8)
    }
}

/// The number whose bytes, least significant first, are `s`.
pub open spec fn le_value(s: Seq<u8>) -> nat
    decreases s.len(),
{
    if s.len() == 0 {
        0
    } else {
        s[0] as nat + 256 * le_value(s.drop_first())
    }
}

/// The number whose bytes, most significant first, are `s`.
pub open spec fn be_value(s: Seq<u8>) -> nat
    decreases s.len(),
{
    if s.len() == 0 {
        0
    } else {
        be_value(s.drop_last()) * 256 + s.last() as nat
    }
}

pub open spec fn digits(x: nat, n: nat, o: ByteOrder) -> Seq<u8> {
    match o {
        ByteOrder::Little => le_digits(x, n),
        ByteOrder::Big => be_digits(x, n),
    }
}

pub open spec fn digits_value(s: Seq<u8>, o: ByteOrder) -> nat {
    match o {
        ByteOrder::Little => le_value(s),
        ByteOrder::Big => be_value(s),
    }
}

/// Two's complement: the pattern of `w` bytes that holds `v`.
pub open spec fn bits_of(v: int, w: nat) -> nat {
    if v < 0 {
        (v + pow256(w)) as nat
    } else {
        v as nat
    }
}

/// The signed number that a pattern of `w` bytes holds.
pub open spec fn signed_of(b: nat, w: nat) -> int {
    if b >= pow256(w) / 2 {
        b - pow256(w)
    } else {
        b as int
    }
}

impl PrimitiveKind {
    pub open spec fn width(self) -> nat {
        match self {
            PrimitiveKind::U8 | PrimitiveKind::I8 => 1,
            PrimitiveKind::U16 | PrimitiveKind::I16 => 2,
            PrimitiveKind::U32 | PrimitiveKind::I32 => 4,
            PrimitiveKind::U64 | PrimitiveKind::I64 => 8,
            PrimitiveKind::U128 | PrimitiveKind::I128 => 16,
        }
    }

    pub open spec fn signed(self) -> bool {
        match self {
            PrimitiveKind::I8 | PrimitiveKind::I16 | PrimitiveKind::I32 | PrimitiveKind::I64
            | PrimitiveKind::I128 => true,
            _ => false,
        }
    }

    /// The smallest and largest values of the type.
    pub open spec fn min(self) -> int {
        if self.signed() {
            -(pow256(self.width()) / 2)
        } else {
            0
        }
    }

    pub open spec fn max(self) -> int {
        if self.signed() {
            pow256(self.width()) / 2 - 1
        } else {
            pow256(self.width()) - 1
        }
    }

    /// The number of bytes that a value of the type takes.
    pub fn size(self) -> (r: usize)
        ensures
            r == self.width(),
    {
        match self {
            PrimitiveKind::U8 | PrimitiveKind::I8 => 1,
            PrimitiveKind::U16 | PrimitiveKind::I16 => 2,
            PrimitiveKind::U32 | PrimitiveKind::I32 => 4,
            PrimitiveKind::U64 | PrimitiveKind::I64 => 8,
            PrimitiveKind::U128 | PrimitiveKind::I128 => 16,
        }
    }
}

/// The value of kind `k` that the byte pattern `b` holds.
pub open spec fn from_bits(k: PrimitiveKind, b: nat) -> Primitive {
    match k {
        PrimitiveKind::U8 => Primitive::U8(b as u8),
        PrimitiveKind::U16 => Primitive::U16(b as u16),
        PrimitiveKind::U32 => Primitive::U32(b as u32),
        PrimitiveKind::U64 => Primitive::U64(b as u64),
        PrimitiveKind::U128 => Primitive::U128(b as u128),
        PrimitiveKind::I8 => Primitive::I8(signed_of(b, 1) as i8),
        PrimitiveKind::I16 => Primitive::I16(signed_of(b, 2) as i16),
        PrimitiveKind::I32 => Primitive::I32(signed_of(b, 4) as i32),
        PrimitiveKind::I64 => Primitive::I64(signed_of(b, 8) as i64),
        PrimitiveKind::I128 => Primitive::I128(signed_of(b, 16) as i128),
    }
}

/// The value of kind `k` read from `s` in order `o`.
pub open spec fn decoded(k: PrimitiveKind, s: Seq<u8>, o: ByteOrder) -> Primitive {
    from_bits(k, digits_value(s, o))
}

impl Primitive {
    pub open spec fn kind(self) -> PrimitiveKind {
        match self {
            Primitive::U8(_) => PrimitiveKind::U8,
            Primitive::U16(_) => PrimitiveKind::U16,
            Primitive::U32(_) => PrimitiveKind::U32,
            Primitive::U64(_) => PrimitiveKind::U64,
            Primitive::U128(_) => PrimitiveKind::U128,
            Primitive::I8(_) => PrimitiveKind::I8,
            Primitive::I16(_) => PrimitiveKind::I16,
            Primitive::I32(_) => PrimitiveKind::I32,
            Primitive::I64(_) => PrimitiveKind::I64,
            Primitive::I128(_) => PrimitiveKind::I128,
        }
    }

    pub open spec fn value(self) -> int {
        match self {
            Primitive::U8(v) => v as int,
            Primitive::U16(v) => v as int,
            Primitive::U32(v) => v as int,
            Primitive::U64(v) => v as int,
            Primitive::U128(v) => v as int,
            Primitive::I8(v) => v as int,
            Primitive::I16(v) => v as int,
            Primitive::I32(v) => v as int,
            Primitive::I64(v) => v as int,
            Primitive::I128(v) => v as int,
        }
    }

    /// The byte pattern of the value.
    pub open spec fn bits(self) -> nat {
        bits_of(self.value(), self.kind().width())
    }

    /// The bytes of the value in order `o`.
    pub open spec fn image(self, o: ByteOrder) -> Seq<u8> {
        digits(self.bits(), self.kind().width(), o)
    }

    pub fn kind_of(&self) -> (r: PrimitiveKind)
        ensures
            r == self.kind(),
    {
        match self {
            Primitive::U8(_) => PrimitiveKind::U8,
            Primitive::U16(_) => PrimitiveKind::U16,
            Primitive::U32(_) => PrimitiveKind::U32,
            Primitive::U64(_) => PrimitiveKind::U64,
            Primitive::U128(_) => PrimitiveKind::U128,
            Primitive::I8(_) => PrimitiveKind::I8,
            Primitive::I16(_) => PrimitiveKind::I16,
            Primitive::I32(_) => PrimitiveKind::I32,
            Primitive::I64(_) => PrimitiveKind::I64,
            Primitive::I128(_) => PrimitiveKind::I128,
        }
    }

    fn to_bits(&self) -> (r: u128)
        ensures
            r == self.bits(),
    {
        proof {
            lemma_pow256_values();
        }
        match *self {
            Primitive::U8(v) => v as u128,
            Primitive::U16(v) => v as u128,
            Primitive::U32(v) => v as u128,
            Primitive::U64(v) => v as u128,
            Primitive::U128(v) => v,
            Primitive::I8(v) => if v < 0 {
                (v as i16 + 0x100) as u128
            } else {
                v as u128
            },
            Primitive::I16(v) => if v < 0 {
                (v as i32 + 0x1_0000) as u128
            } else {
                v as u128
            },
            Primitive::I32(v) => if v < 0 {
                (v as i64 + 0x1_0000_0000) as u128
            } else {
                v as u128
            },
            Primitive::I64(v) => if v < 0 {
                (v as i128 + 0x1_0000_0000_0000_0000) as u128
            } else {
                v as u128
            },
            Primitive::I128(v) => if v < 0 {
                ((v + i128::MAX) + 1) as u128 + (i128::MAX as u128 + 1)
            } else {
                v as u128
            },
        }
    }

    fn from_bits_exec(k: PrimitiveKind, b: u128) -> (r: Primitive)
        requires
            b < pow256(k.width()),
        ensures
            r == from_bits(k, b as nat),
    {
        proof {
            lemma_pow256_values();
        }
        match k {
            PrimitiveKind::U8 => Primitive::U8(b as u8),
            PrimitiveKind::U16 => Primitive::U16(b as u16),
            PrimitiveKind::U32 => Primitive::U32(b as u32),
            PrimitiveKind::U64 => Primitive::U64(b as u64),
            PrimitiveKind::U128 => Primitive::U128(b),
            PrimitiveKind::I8 => Primitive::I8(
                if b >= 0x80 {
                    (b as i16 - 0x100) as i8
                } else {
                    b as i8
                },
            ),
            PrimitiveKind::I16 => Primitive::I16(
                if b >= 0x8000 {
                    (b as i32 - 0x1_0000) as i16
                } else {
                    b as i16
                },
            ),
            PrimitiveKind::I32 => Primitive::I32(
                if b >= 0x8000_0000 {
                    (b as i64 - 0x1_0000_0000) as i32
                } else {
                    b as i32
                },
            ),
            PrimitiveKind::I64 => Primitive::I64(
                if b >= 0x8000_0000_0000_0000 {
                    (b as i128 - 0x1_0000_0000_0000_0000) as i64
                } else {
                    b as i64
                },
            ),
            PrimitiveKind::I128 => Primitive::I128(
                if b > i128::MAX as u128 {
                    ((b - (i128::MAX as u128 + 1)) as i128 - i128::MAX) - 1
                } else {
                    b as i128
                },
            ),
        }
    }
}

pub proof fn lemma_pow256_values()
    ensures
        pow256(0) == 1,
        pow256(1) == 0x100,
        pow256(2) == 0x1_0000,
        pow256(4) == 0x1_0000_0000,
        pow256(8) == 0x1_0000_0000_0000_0000,
        pow256(16) == u128::MAX as nat + 1,
{
    reveal_with_fuel(pow256, 17);
}

pub proof fn lemma_pow256_step(n: nat)
    ensures
        pow256(n + 1) == 256 * pow256(n),
        pow256(n) >= 1,
    decreases n,
{
    reveal_with_fuel(pow256, 2);
    if n > 0 {
        lemma_pow256_step((n - 1) as nat);
    }
}

pub proof fn lemma_pow256_mono(a: nat, b: nat)
    requires
        a <= b,
    ensures
        pow256(a) <= pow256(b),
    decreases b - a,
{
    if a < b {
        lemma_pow256_mono(a, (b - 1) as nat);
        lemma_pow256_step((b - 1) as nat);
    }
}

proof fn lemma_div_below(x: nat, p: nat)
    requires
        x < 256 * p,
    ensures
        x / 256 < p,
        x == (x % 256) + 256 * (x / 256),
{
    assert(x / 256 < p) by (nonlinear_arith)
        requires
            x < 256 * p,
    ;
}

proof fn lemma_shift_below(acc: nat, b: nat, p: nat)
    requires
        acc < p,
        b < 256,
    ensures
        acc * 256 + b < 256 * p,
        b + 256 * acc < 256 * p,
{
    assert(acc * 256 + b < 256 * p) by (nonlinear_arith)
        requires
            acc < p,
            b < 256,
    ;
}

pub proof fn lemma_le_len(x: nat, n: nat)
    ensures
        le_digits(x, n).len() == n,
    decreases n,
{
    if n > 0 {
        lemma_le_len(x / 256, (n - 1) as nat);
    }
}

pub proof fn lemma_be_len(x: nat, n: nat)
    ensures
        be_digits(x, n).len() == n,
    decreases n,
{
    if n > 0 {
        lemma_be_len(x / 256, (n - 1) as nat);
    }
}

/// Reading back the `n` low bytes of a number below `256^n` gives the number.
pub proof fn lemma_le_round_trip(x: nat, n: nat)
    requires
        x < pow256(n),
    ensures
        le_value(le_digits(x, n)) == x,
    decreases n,
{
    if n > 0 {
        let m = (n - 1) as nat;
        lemma_pow256_step(m);
        lemma_div_below(x, pow256(m));
        lemma_le_round_trip(x / 256, m);
        let d = le_digits(x, n);
        assert(d.drop_first() =~= le_digits(x / 256, m));
    }
}

pub proof fn lemma_be_round_trip(x: nat, n: nat)
    requires
        x < pow256(n),
    ensures
        be_value(be_digits(x, n)) == x,
    decreases n,
{
    if n > 0 {
        let m = (n - 1) as nat;
        lemma_pow256_step(m);
        lemma_div_below(x, pow256(m));
        lemma_be_round_trip(x / 256, m);
        let d = be_digits(x, n);
        assert(d.drop_last() =~= be_digits(x / 256, m));
    }
}

pub proof fn lemma_le_value_below(s: Seq<u8>)
    ensures
        le_value(s) < pow256(s.len()),
    decreases s.len(),
{
    if s.len() > 0 {
        lemma_le_value_below(s.drop_first());
        lemma_pow256_step((s.len() - 1) as nat);
        lemma_shift_below(le_value(s.drop_first()), s[0] as nat, pow256((s.len() - 1) as nat));
    }
}

pub proof fn lemma_be_value_below(s: Seq<u8>)
    ensures
        be_value(s) < pow256(s.len()),
    decreases s.len(),
{
    if s.len() > 0 {
        lemma_be_value_below(s.drop_last());
        lemma_pow256_step((s.len() - 1) as nat);
        lemma_shift_below(be_value(s.drop_last()), s.last() as nat, pow256((s.len() - 1) as nat));
    }
}

/// The big-endian bytes of a number are its little-endian bytes reversed.
pub proof fn lemma_be_is_reversed_le(x: nat, n: nat)
    ensures
        be_digits(x, n) == le_digits(x, n).reverse(),
    decreases n,
{
    if n > 0 {
        let m = (n - 1) as nat;
        lemma_be_is_reversed_le(x / 256, m);
        lemma_le_len(x, n);
        lemma_le_len(x / 256, m);
        let l = le_digits(x, n);
        assert(l.drop_first() =~= le_digits(x / 256, m));
        assert(be_digits(x, n) =~= l.reverse());
    }
}

/// Reading bytes most significant first is reading them reversed least significant first.
pub proof fn lemma_be_value_reversed(s: Seq<u8>)
    ensures
        be_value(s) == le_value(s.reverse()),
    decreases s.len(),
{
    if s.len() > 0 {
        lemma_be_value_reversed(s.drop_last());
        let r = s.reverse();
        assert(r.drop_first() =~= s.drop_last().reverse());
        assert(r[0] == s.last());
    }
}

pub proof fn lemma_digits_round_trip(x: nat, n: nat, o: ByteOrder)
    requires
        x < pow256(n),
    ensures
        digits(x, n, o).len() == n,
        digits_value(digits(x, n, o), o) == x,
{
    lemma_le_len(x, n);
    lemma_be_len(x, n);
    lemma_le_round_trip(x, n);
    lemma_be_round_trip(x, n);
}

pub proof fn lemma_digits_value_below(s: Seq<u8>, o: ByteOrder)
    ensures
        digits_value(s, o) < pow256(s.len()),
{
    lemma_le_value_below(s);
    lemma_be_value_below(s);
}

/// Appends the `n` low bytes of `x`, least significant first.
fn put_le(x: u128, n: usize, out: &mut Vec<u8>)
    ensures
        final(out)@ == old(out)@ + le_digits(x as nat, n as nat),
{
    let mut y: u128 = x;
    let mut i: usize = 0;
    while i < n
        invariant
            i <= n,
            out@ + le_digits(y as nat, (n - i) as nat) == old(out)@ + le_digits(x as nat, n as nat),
        decreases n - i,
    {
        let ghost before = out@;
        let ghost rest = le_digits((y / 256) as nat, (n - i - 1) as nat);
        assert(le_digits(y as nat, (n - i) as nat) == seq![(y % 256) as u8] + rest);
        out.push((y % 256) as u8);
        assert(out@ + rest =~= before + (seq![(y % 256) as u8] + rest));
        y = y / 256;
        i = i + 1;
    }
    assert(out@ + le_digits(y as nat, 0) =~= out@);
}

/// Appends the `n` low bytes of `x`, most significant first.
fn put_be(x: u128, n: usize, out: &mut Vec<u8>)
    ensures
        final(out)@ == old(out)@ + be_digits(x as nat, n as nat),
    decreases n,
{
    if n == 0 {
        assert(old(out)@ + be_digits(x as nat, 0) =~= old(out)@);
        return ;
    }
    put_be(x / 256, n - 1, out);
    out.push((x % 256) as u8);
    assert(out@ =~= old(out)@ + be_digits(x as nat, n as nat));
}

/// The number held by `s[pos..pos + n]`, least significant byte first.
fn get_le(s: &[u8], pos: usize, n: usize) -> (r: u128)
    requires
        pos + n <= s@.len(),
        n <= 16,
    ensures
        r == le_value(s@.subrange(pos as int, pos + n)),
{
    let len = s.len();
    let mut acc: u128 = 0;
    let mut i: usize = n;
    proof {
        lemma_pow256_values();
        assert(s@.subrange(pos + n, pos + n).len() == 0);
    }
    while i > 0
        invariant
            i <= n <= 16,
            pos + n <= s@.len(),
            len == s@.len(),
            acc == le_value(s@.subrange(pos + i, pos + n)),
            acc < pow256((n - i) as nat),
        decreases i,
    {
        let b = s[pos + i - 1];
        proof {
            let m = (n - i) as nat;
            lemma_pow256_step(m);
            lemma_pow256_mono(m + 1, 16);
            lemma_pow256_values();
            lemma_shift_below(acc as nat, b as nat, pow256(m));
            let t = s@.subrange(pos + i - 1, pos + n);
            assert(t.drop_first() =~= s@.subrange(pos + i, pos + n));
        }
        acc = acc * 256 + b as u128;
        i = i - 1;
    }
    acc
}

/// The number held by `s[pos..pos + n]`, most significant byte first.
fn get_be(s: &[u8], pos: usize, n: usize) -> (r: u128)
    requires
        pos + n <= s@.len(),
        n <= 16,
    ensures
        r == be_value(s@.subrange(pos as int, pos + n)),
{
    let len = s.len();
    let mut acc: u128 = 0;
    let mut i: usize = 0;
    proof {
        lemma_pow256_values();
        assert(s@.subrange(pos as int, pos as int).len() == 0);
    }
    while i < n
        invariant
            i <= n <= 16,
            pos + n <= s@.len(),
            len == s@.len(),
            acc == be_value(s@.subrange(pos as int, pos + i)),
            acc < pow256(i as nat),
        decreases n - i,
    {
        let b = s[pos + i];
        proof {
            lemma_pow256_step(i as nat);
            lemma_pow256_mono((i + 1) as nat, 16);
            lemma_pow256_values();
            lemma_shift_below(acc as nat, b as nat, pow256(i as nat));
            let t = s@.subrange(pos as int, pos + i + 1);
            assert(t.drop_last() =~= s@.subrange(pos as int, pos + i));
        }
        acc = acc * 256 + b as u128;
        i = i + 1;
    }
    acc
}

proof fn lemma_split_byte(a: nat, b: nat)
    requires
        a < 256,
    ensures
        (a + 256 * b) % 256 == a,
        (a + 256 * b) / 256 == b,
        (b * 256 + a) % 256 == a,
        (b * 256 + a) / 256 == b,
{
    assert((a + 256 * b) % 256 == a && (a + 256 * b) / 256 == b) by (nonlinear_arith)
        requires
            a < 256,
    ;
}

/// Writing back the number that bytes hold gives the bytes.
pub proof fn lemma_le_digits_of_value(s: Seq<u8>)
    ensures
        le_digits(le_value(s), s.len()) == s,
    decreases s.len(),
{
    if s.len() > 0 {
        let t = s.drop_first();
        lemma_le_digits_of_value(t);
        lemma_split_byte(s[0] as nat, le_value(t));
        assert(le_digits(le_value(s), s.len()) =~= s);
    }
}

pub proof fn lemma_be_digits_of_value(s: Seq<u8>)
    ensures
        be_digits(be_value(s), s.len()) == s,
    decreases s.len(),
{
    if s.len() > 0 {
        let t = s.drop_last();
        lemma_be_digits_of_value(t);
        lemma_split_byte(s.last() as nat, be_value(t));
        assert(be_digits(be_value(s), s.len()) =~= s);
    }
}

/// The pattern of a value is below `256^width` and names the value back.
pub proof fn lemma_bits_round_trip(p: Primitive)
    ensures
        p.bits() < pow256(p.kind().width()),
        from_bits(p.kind(), p.bits()) == p,
{
    lemma_pow256_values();
}

/// A pattern below `256^width` names a value whose pattern it is.
pub proof fn lemma_from_bits_round_trip(k: PrimitiveKind, b: nat)
    requires
        b < pow256(k.width()),
    ensures
        from_bits(k, b).kind() == k,
        from_bits(k, b).bits() == b,
{
    lemma_pow256_values();
}

/// What is written in an order reads back, in that order, as the value written.
pub proof fn lemma_primitive_round_trip(p: Primitive, o: ByteOrder)
    ensures
        p.image(o).len() == p.kind().width(),
        decoded(p.kind(), p.image(o), o) == p,
{
    lemma_bits_round_trip(p);
    lemma_digits_round_trip(p.bits(), p.kind().width(), o);
}

/// The order opposite to `o`.
pub open spec fn other(o: ByteOrder) -> ByteOrder {
    match o {
        ByteOrder::Little => ByteOrder::Big,
        ByteOrder::Big => ByteOrder::Little,
    }
}

/// A value's bytes in one order are its bytes in the other reversed. Reading
/// them in the other order never fails: it gives back the value where it has
/// one byte, and another value where its bytes are no palindrome.
pub proof fn lemma_other_order(p: Primitive, o: ByteOrder)
    ensures
        p.image(other(o)) == p.image(o).reverse(),
        p.kind().width() == 1 ==> decoded(p.kind(), p.image(o), other(o)) == p,
        p.image(o) != p.image(o).reverse() ==> decoded(p.kind(), p.image(o), other(o)) != p,
{
    let k = p.kind();
    let w = k.width();
    let x = p.bits();
    lemma_bits_round_trip(p);
    lemma_be_is_reversed_le(x, w);
    lemma_le_len(x, w);
    let l = le_digits(x, w);
    assert(l.reverse().reverse() =~= l);
    if w == 1 {
        assert(l.reverse() =~= l);
        lemma_primitive_round_trip(p, other(o));
    }
    let s = p.image(o);
    if s != s.reverse() && decoded(k, s, other(o)) == p {
        let v = digits_value(s, other(o));
        lemma_digits_value_below(s, other(o));
        lemma_from_bits_round_trip(k, v);
        lemma_le_digits_of_value(s);
        lemma_be_digits_of_value(s);
        assert(s.len() == w);
        assert(p.image(other(o)) == s);
    }
}

/// Appends the bytes of `p` in order `o`.
pub fn write_primitive(p: Primitive, o: ByteOrder, out: &mut Vec<u8>)
    ensures
        final(out)@ == old(out)@ + p.image(o),
{
    let x = p.to_bits();
    let n = p.kind_of().size();
    match o {
        ByteOrder::Little => put_le(x, n, out),
        ByteOrder::Big => put_be(x, n, out),
    }
}

/// Reads a value of kind `k` in order `o` from `s` at `pos`: nothing where
/// fewer than its width of bytes are left.
pub fn read_primitive(k: PrimitiveKind, o: ByteOrder, s: &[u8], pos: usize) -> (r: Option<
    Primitive,
>)
    ensures
        r is Some <==> pos + k.width() <= s@.len(),
        r is Some ==> r == Some(decoded(k, s@.subrange(pos as int, pos + k.width()), o)),
{
    let n = k.size();
    if pos > s.len() || s.len() - pos < n {
        return None;
    }
    let x = match o {
        ByteOrder::Little => get_le(s, pos, n),
        ByteOrder::Big => get_be(s, pos, n),
    };
    proof {
        lemma_digits_value_below(s@.subrange(pos as int, pos + n), o);
    }
    Some(Primitive::from_bits_exec(k, x))
}

impl Endian {
    /// Appends the bytes of `p` in this order, on a machine whose own order is `native`.
    pub fn write(self, p: Primitive, native: ByteOrder, out: &mut Vec<u8>)
        ensures
            final(out)@ == old(out)@ + p.image(self.on(native)),
    {
        write_primitive(p, self.resolve(native), out)
    }

    /// Reads a value of kind `k` in this order from `s` at `pos`, on a machine
    /// whose own order is `native`: nothing where fewer than its width of bytes are left.
    pub fn read(self, k: PrimitiveKind, native: ByteOrder, s: &[u8], pos: usize) -> (r: Option<
        Primitive,
    >)
        ensures
            r is Some <==> pos + k.width() <= s@.len(),
            r is Some ==> r == Some(
                decoded(k, s@.subrange(pos as int, pos + k.width()), self.on(native)),
            ),
    {
        read_primitive(k, self.resolve(native), s, pos)
    }
}

/// The bytes of `ps`, each in order `o`, one after the other.
pub open spec fn prims_image(ps: Seq<Primitive>, o: ByteOrder) -> Seq<u8>
    decreases ps.len(),
{
    if ps.len() == 0 {
        Seq::empty()
    } else {
        ps[0].image(o) + prims_image(ps.drop_first(), o)
    }
}

/// `n` values of kind `k` read one after the other from the start of `s` in
/// order `o`, and the number of bytes they take; nothing where `s` ends first.
pub open spec fn parse_prims(k: PrimitiveKind, o: ByteOrder, n: nat, s: Seq<u8>) -> Option<
    (Seq<Primitive>, nat),
>
    decreases n,
{
    if n == 0 {
        Some((Seq::empty(), 0))
    } else if s.len() < k.width() {
        None
    } else {
        match parse_prims(k, o, (n - 1) as nat, s.skip(k.width() as int)) {
            Some((ps, m)) => Some((seq![decoded(k, s.take(k.width() as int), o)] + ps, k.width() + m)),
            None => None,
        }
    }
}

/// Values of one kind written one after the other read back as themselves.
pub proof fn lemma_prims_round_trip(k: PrimitiveKind, ps: Seq<Primitive>, o: ByteOrder, rest: Seq<u8>)
    requires
        forall|i: int| 0 <= i < ps.len() ==> (#[trigger] ps[i]).kind() == k,
    ensures
        parse_prims(k, o, ps.len(), prims_image(ps, o) + rest) == Some(
            (ps, prims_image(ps, o).len()),
        ),
    decreases ps.len(),
{
    if ps.len() > 0 {
        let head = ps[0].image(o);
        let tail = prims_image(ps.drop_first(), o);
        let s = prims_image(ps, o) + rest;
        lemma_primitive_round_trip(ps[0], o);
        assert(s =~= head + (tail + rest));
        assert(s.take(k.width() as int) =~= head);
        assert(s.skip(k.width() as int) =~= tail + rest);
        assert forall|i: int| 0 <= i < ps.drop_first().len() implies (
        #[trigger] ps.drop_first()[i]).kind() == k by {
            assert(ps.drop_first()[i] == ps[i + 1]);
        }
        lemma_prims_round_trip(k, ps.drop_first(), o, rest);
        assert(seq![ps[0]] + ps.drop_first() =~= ps);
    } else {
        assert(prims_image(ps, o) + rest =~= rest);
        assert(ps =~= Seq::<Primitive>::empty());
    }
}

/// Appends the bytes of each of `ps` in order `o`.
pub fn write_prims(ps: &Vec<Primitive>, o: ByteOrder, out: &mut Vec<u8>)
    ensures
        final(out)@ == old(out)@ + prims_image(ps@, o),
{
    let mut i: usize = 0;
    assert(ps@.skip(0) =~= ps@);
    while i < ps.len()
        invariant
            i <= ps@.len(),
            old(out)@ + prims_image(ps@, o) == out@ + prims_image(ps@.skip(i as int), o),
        decreases ps@.len() - i,
    {
        let ghost before = out@;
        let ghost rest = prims_image(ps@.skip(i + 1), o);
        assert(ps@.skip(i as int).drop_first() =~= ps@.skip(i + 1));
        assert(ps@.skip(i as int)[0] == ps@[i as int]);
        write_primitive(ps[i], o, out);
        assert(before + (ps@[i as int].image(o) + rest) =~= out@ + rest);
        i = i + 1;
    }
    assert(out@ + prims_image(ps@.skip(i as int), o) =~= out@);
}

pub open spec fn then_prims(done: Seq<Primitive>, k: nat, r: Option<(Seq<Primitive>, nat)>) -> Option<
    (Seq<Primitive>, nat),
> {
    match r {
        Some((ps, m)) => Some((done + ps, k + m)),
        None => None,
    }
}

/// Reads `n` values of kind `k` in order `o` from `s` at `pos`; gives them
/// with the position after them.
pub fn read_prims(k: PrimitiveKind, o: ByteOrder, n: usize, s: &[u8], pos: usize) -> (r: Option<
    (Vec<Primitive>, usize),
>)
    requires
        pos <= s@.len(),
    ensures
        match parse_prims(k, o, n as nat, s@.skip(pos as int)) {
            Some((ps, m)) => r is Some && r->Some_0.0@ == ps && r->Some_0.1 == pos + m,
            None => r is None,
        },
        r is Some ==> r->Some_0.1 <= s@.len(),
{
    let len = s.len();
    let mut out: Vec<Primitive> = Vec::new();
    let mut p: usize = pos;
    let mut i: usize = 0;
    assert(out@ + Seq::<Primitive>::empty() =~= out@);
    assert(parse_prims(k, o, n as nat, s@.skip(pos as int)) == then_prims(
        out@,
        0,
        parse_prims(k, o, n as nat, s@.skip(pos as int)),
    )) by {
        match parse_prims(k, o, n as nat, s@.skip(pos as int)) {
            Some((ps, m)) => {
                assert(out@ + ps =~= ps);
            },
            None => {},
        }
    }
    while i < n
        invariant
            len == s@.len(),
            i <= n,
            pos <= p <= s@.len(),
            parse_prims(k, o, n as nat, s@.skip(pos as int)) == then_prims(
                out@,
                (p - pos) as nat,
                parse_prims(k, o, (n - i) as nat, s@.skip(p as int)),
            ),
        decreases n - i,
    {
        let w = k.size();
        match read_primitive(k, o, s, p) {
            None => {
                return None;
            },
            Some(v) => {
                let ghost t = s@.skip(p as int);
                assert(t.take(w as int) =~= s@.subrange(p as int, p + w));
                assert(t.skip(w as int) =~= s@.skip(p + w));
                let ghost before = out@;
                out.push(v);
                proof {
                    let rest = parse_prims(k, o, (n - i - 1) as nat, s@.skip(p + w));
                    if rest is Some {
                        let ps = rest->Some_0.0;
                        assert(before + (seq![v] + ps) =~= out@ + ps);
                    }
                }
                p = p + w;
            },
        }
        i = i + 1;
    }
    Some((out, p))
}

} // verus!
