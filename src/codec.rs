//! Wire codec: one value of a known type to bytes and back.
//!
//! Fixed-width integers are written as their little-endian bytes, `bool` as
//! one byte (0 or 1), strings and byte sequences as an eight-byte length
//! followed by the raw bytes. No type tags are written: both ends agree on
//! the types by construction order.

use vstd::prelude::*;
use vstd::utf8::*;

verus! {

/// Number of distinct values of `k` bytes: 256 to the power `k`.
pub open spec fn pow256(k: nat) -> nat
    decreases k,
{
    if k == 0 {
        1
    } else {
        256 * pow256((k - 1) as nat)
    }
}

/// The `k` least significant bytes of `n`, least significant first.
pub open spec fn le_bytes(n: nat, k: nat) -> Seq<u8>
    decreases k,
{
    if k == 0 {
        Seq::empty()
    } else {
        seq![(n % 256) as u8] + le_bytes(n / 256, (k - 1) as nat)
    }
}

/// The number whose little-endian bytes are `s`.
pub open spec fn le_value(s: Seq<u8>) -> nat
    decreases s.len(),
{
    if s.len() == 0 {
        0
    } else {
        s[0] as nat + 256 * le_value(s.drop_first())
    }
}

pub proof fn lemma_pow256_monotonic(j: nat, k: nat)
    requires
        j <= k,
    ensures
        pow256(j) <= pow256(k),
    decreases k,
{
    if j < k {
        lemma_pow256_monotonic(j, (k - 1) as nat);
    }
}

pub proof fn lemma_pow256_values()
    ensures
        pow256(1) == 0x100,
        pow256(2) == 0x1_0000,
        pow256(4) == 0x1_0000_0000,
        pow256(8) == 0x1_0000_0000_0000_0000,
{
    reveal_with_fuel(pow256, 9);
}

pub proof fn lemma_le_bytes_len(n: nat, k: nat)
    ensures
        le_bytes(n, k).len() == k,
    decreases k,
{
    if k > 0 {
        lemma_le_bytes_len(n / 256, (k - 1) as nat);
    }
}

pub proof fn lemma_le_value_bound(s: Seq<u8>)
    ensures
        le_value(s) < pow256(s.len()),
    decreases s.len(),
{
    if s.len() > 0 {
        lemma_le_value_bound(s.drop_first());
        let r = le_value(s.drop_first());
        let p = pow256((s.len() - 1) as nat);
        assert(s[0] as nat + 256 * r < 256 * p) by (nonlinear_arith)
            requires
                r < p,
                s[0] < 256,
        ;
    }
}

/// Reading back the `k` bytes written for `n` gives `n`, when `n` fits.
pub proof fn lemma_le_round_trip(n: nat, k: nat)
    requires
        n < pow256(k),
    ensures
        le_value(le_bytes(n, k)) == n,
    decreases k,
{
    if k > 0 {
        let p = pow256((k - 1) as nat);
        assert(n / 256 < p) by (nonlinear_arith)
            requires
                n < 256 * p,
        ;
        lemma_le_round_trip(n / 256, (k - 1) as nat);
        let s = le_bytes(n, k);
        assert(s.drop_first() =~= le_bytes(n / 256, (k - 1) as nat));
        assert(n == n % 256 + 256 * (n / 256)) by (nonlinear_arith);
    } else {
        assert(n == 0);
    }
}

/// Appends the `k` least significant bytes of `n` to `out`, least
/// significant first.
fn write_le(out: &mut Vec<u8>, n: u64, k: usize)
    ensures
        final(out)@ == old(out)@ + le_bytes(n as nat, k as nat),
{
    let mut m: u64 = n;
    let mut i: usize = 0;
    while i < k
        invariant
            i <= k,
            old(out)@ + le_bytes(n as nat, k as nat) == out@ + le_bytes(m as nat, (k - i) as nat),
        decreases k - i,
    {
        let ghost before = out@;
        out.push((m % 256) as u8);
        assert(le_bytes(m as nat, (k - i) as nat) == seq![(m % 256) as u8] + le_bytes(
            (m / 256) as nat,
            (k - i - 1) as nat,
        ));
        assert(before + le_bytes(m as nat, (k - i) as nat) =~= out@ + le_bytes(
            (m / 256) as nat,
            (k - i - 1) as nat,
        ));
        m = m / 256;
        i = i + 1;
    }
    assert(out@ + le_bytes(m as nat, 0) =~= out@);
}

/// Reads the number whose little-endian bytes are `buf[pos .. pos + k]`.
fn read_le(buf: &[u8], pos: usize, k: usize) -> (r: u64)
    requires
        k <= 8,
        pos + k <= buf@.len(),
    ensures
        r as nat == le_value(buf@.subrange(pos as int, pos + k)),
{
    proof {
        lemma_pow256_values();
        lemma_pow256_monotonic(k as nat, 8);
    }
    let len = buf.len();
    let mut acc: u64 = 0;
    let mut i: usize = k;
    while i > 0
        invariant
            i <= k <= 8,
            pos + k <= buf@.len() == len,
            pow256(k as nat) <= pow256(8),
            pow256(8) == 0x1_0000_0000_0000_0000,
            acc as nat == le_value(buf@.subrange(pos + i, pos + k)),
        decreases i,
    {
        let ghost tail = buf@.subrange(pos + i, pos + k);
        proof {
            lemma_le_value_bound(tail);
            lemma_pow256_monotonic((k - i + 1) as nat, k as nat);
            let p = pow256((k - i) as nat);
            assert(acc * 256 + 255 < 256 * p) by (nonlinear_arith)
                requires
                    acc < p,
            ;
        }
        let b = buf[pos + (i - 1)];
        acc = acc * 256 + b as u64;
        i = i - 1;
        let ghost s = buf@.subrange(pos + i, pos + k);
        assert(s.drop_first() =~= tail);
    }
    acc
}


/// Appends the bytes of `src` to `out`.
fn push_all(out: &mut Vec<u8>, src: &[u8])
    ensures
        final(out)@ == old(out)@ + src@,
{
    let n = src.len();
    let mut i: usize = 0;
    while i < n
        invariant
            i <= n == src@.len(),
            out@ == old(out)@ + src@.subrange(0, i as int),
        decreases n - i,
    {
        out.push(src[i]);
        i = i + 1;
        assert(out@ =~= old(out)@ + src@.subrange(0, i as int));
    }
    assert(src@.subrange(0, n as int) =~= src@);
}

/// Copies `buf[from .. to]` into a new vector.
fn copy_range(buf: &[u8], from: usize, to: usize) -> (r: Vec<u8>)
    requires
        from <= to <= buf@.len(),
    ensures
        r@ == buf@.subrange(from as int, to as int),
{
    let mut r: Vec<u8> = Vec::new();
    let mut i: usize = from;
    while i < to
        invariant
            from <= i <= to <= buf@.len(),
            r@ == buf@.subrange(from as int, i as int),
        decreases to - i,
    {
        r.push(buf[i]);
        i = i + 1;
        assert(r@ =~= buf@.subrange(from as int, i as int));
    }
    r
}

/// Relies on `String::from_utf8`: it accepts exactly the byte sequences that
/// are valid UTF-8, and the string it returns is the one those bytes encode.
#[verifier::external_body]
fn string_from_utf8(bytes: Vec<u8>) -> (r: Option<String>)
    ensures
        r is Some <==> valid_utf8(bytes@),
        r matches Some(s) ==> s@ == decode_utf8(bytes@),
{
    String::from_utf8(bytes).ok()
}

/// The types a value on the wire can have.
#[derive(Clone, Copy, Debug, PartialEq, Eq, Structural)]
pub enum WireType {
    Unit,
    Bool,
    U8,
    U16,
    U32,
    U64,
    I8,
    I16,
    I32,
    I64,
    Str,
    Bytes,
}

/// A value that can be written to the wire.
#[derive(Clone, Debug, PartialEq)]
pub enum Value {
    Unit,
    Bool(bool),
    U8(u8),
    U16(u16),
    U32(u32),
    U64(u64),
    I8(i8),
    I16(i16),
    I32(i32),
    I64(i64),
    Str(String),
    Bytes(Vec<u8>),
}

/// The mathematical content of a [`Value`].
pub enum ValueView {
    Unit,
    Bool(bool),
    U8(u8),
    U16(u16),
    U32(u32),
    U64(u64),
    I8(i8),
    I16(i16),
    I32(i32),
    I64(i64),
    Str(Seq<char>),
    Bytes(Seq<u8>),
}

impl View for Value {
    type V = ValueView;

    open spec fn view(&self) -> ValueView {
        match self {
            Value::Unit => ValueView::Unit,
            Value::Bool(b) => ValueView::Bool(*b),
            Value::U8(x) => ValueView::U8(*x),
            Value::U16(x) => ValueView::U16(*x),
            Value::U32(x) => ValueView::U32(*x),
            Value::U64(x) => ValueView::U64(*x),
            Value::I8(x) => ValueView::I8(*x),
            Value::I16(x) => ValueView::I16(*x),
            Value::I32(x) => ValueView::I32(*x),
            Value::I64(x) => ValueView::I64(*x),
            Value::Str(s) => ValueView::Str(s@),
            Value::Bytes(b) => ValueView::Bytes(b@),
        }
    }
}

/// The wire type of a value.
pub open spec fn type_of(v: ValueView) -> WireType {
    match v {
        ValueView::Unit => WireType::Unit,
        ValueView::Bool(_) => WireType::Bool,
        ValueView::U8(_) => WireType::U8,
        ValueView::U16(_) => WireType::U16,
        ValueView::U32(_) => WireType::U32,
        ValueView::U64(_) => WireType::U64,
        ValueView::I8(_) => WireType::I8,
        ValueView::I16(_) => WireType::I16,
        ValueView::I32(_) => WireType::I32,
        ValueView::I64(_) => WireType::I64,
        ValueView::Str(_) => WireType::Str,
        ValueView::Bytes(_) => WireType::Bytes,
    }
}

/// Two's complement of `x` in `k` bytes.
pub open spec fn twos(x: int, k: nat) -> nat {
    if x < 0 {
        (x + pow256(k)) as nat
    } else {
        x as nat
    }
}

/// The signed number whose two's complement in `k` bytes is `u`.
pub open spec fn from_twos(u: nat, k: nat) -> int {
    if 2 * u >= pow256(k) {
        u - pow256(k)
    } else {
        u as int
    }
}

/// An eight-byte length followed by the bytes themselves.
pub open spec fn len_prefixed(b: Seq<u8>) -> Seq<u8> {
    le_bytes(b.len(), 8) + b
}

/// The bytes written for a value.
pub open spec fn encode_view(v: ValueView) -> Seq<u8> {
    match v {
        ValueView::Unit => Seq::empty(),
        ValueView::Bool(b) => seq![if b { 1u8 } else { 0u8 }],
        ValueView::U8(x) => le_bytes(x as nat, 1),
        ValueView::U16(x) => le_bytes(x as nat, 2),
        ValueView::U32(x) => le_bytes(x as nat, 4),
        ValueView::U64(x) => le_bytes(x as nat, 8),
        ValueView::I8(x) => le_bytes(twos(x as int, 1), 1),
        ValueView::I16(x) => le_bytes(twos(x as int, 2), 2),
        ValueView::I32(x) => le_bytes(twos(x as int, 4), 4),
        ValueView::I64(x) => le_bytes(twos(x as int, 8), 8),
        ValueView::Str(s) => len_prefixed(encode_utf8(s)),
        ValueView::Bytes(b) => len_prefixed(b),
    }
}

/// The bytes written for a sequence of values, one after the other.
pub open spec fn encode_all(vs: Seq<ValueView>) -> Seq<u8>
    decreases vs.len(),
{
    if vs.len() == 0 {
        Seq::empty()
    } else {
        encode_view(vs[0]) + encode_all(vs.drop_first())
    }
}

pub proof fn lemma_encode_all_push(vs: Seq<ValueView>, v: ValueView)
    ensures
        encode_all(vs.push(v)) == encode_all(vs) + encode_view(v),
    decreases vs.len(),
{
    if vs.len() == 0 {
        assert(vs.push(v).drop_first() =~= Seq::<ValueView>::empty());
        assert(vs.push(v)[0] == v);
        assert(encode_all(Seq::<ValueView>::empty()) == Seq::<u8>::empty());
        assert(encode_all(vs.push(v)) =~= encode_view(v));
    } else {
        lemma_encode_all_push(vs.drop_first(), v);
        assert(vs.push(v).drop_first() =~= vs.drop_first().push(v));
        assert(encode_all(vs.push(v)) =~= encode_all(vs) + encode_view(v));
    }
}

/// Whether a value's encoding can state its length in eight bytes.
pub open spec fn well_sized(v: ValueView) -> bool {
    match v {
        ValueView::Str(s) => encode_utf8(s).len() < pow256(8),
        ValueView::Bytes(b) => b.len() < pow256(8),
        _ => true,
    }
}

/// Width in bytes of a fixed-width type, and of the length that precedes a
/// string or a byte sequence.
pub open spec fn width(t: WireType) -> nat {
    match t {
        WireType::Unit => 0,
        WireType::Bool | WireType::U8 | WireType::I8 => 1,
        WireType::U16 | WireType::I16 => 2,
        WireType::U32 | WireType::I32 => 4,
        _ => 8,
    }
}

/// Outcome of reading one value of a known type from the front of a byte
/// sequence.
pub enum Decoded {
    /// The value, and how many bytes it took.
    Done(ValueView, nat),
    /// The bytes end before the value does.
    Truncated,
    /// The bytes hold no value of that type.
    Invalid,
}

/// The value of fixed-width type `t` whose bytes are `u` read as a
/// little-endian number.
pub open spec fn fixed_value(t: WireType, u: nat) -> Decoded {
    match t {
        WireType::Unit => Decoded::Done(ValueView::Unit, 0),
        WireType::Bool => if u == 0 {
            Decoded::Done(ValueView::Bool(false), 1)
        } else if u == 1 {
            Decoded::Done(ValueView::Bool(true), 1)
        } else {
            Decoded::Invalid
        },
        WireType::U8 => Decoded::Done(ValueView::U8(u as u8), 1),
        WireType::U16 => Decoded::Done(ValueView::U16(u as u16), 2),
        WireType::U32 => Decoded::Done(ValueView::U32(u as u32), 4),
        WireType::U64 => Decoded::Done(ValueView::U64(u as u64), 8),
        WireType::I8 => Decoded::Done(ValueView::I8(from_twos(u, 1) as i8), 1),
        WireType::I16 => Decoded::Done(ValueView::I16(from_twos(u, 2) as i16), 2),
        WireType::I32 => Decoded::Done(ValueView::I32(from_twos(u, 4) as i32), 4),
        WireType::I64 => Decoded::Done(ValueView::I64(from_twos(u, 8) as i64), 8),
        _ => Decoded::Invalid,
    }
}

/// Reads one value of type `t` from the front of `s`.
pub open spec fn decode_view(t: WireType, s: Seq<u8>) -> Decoded {
    if s.len() < width(t) {
        Decoded::Truncated
    } else if t == WireType::Str || t == WireType::Bytes {
        let n = le_value(s.subrange(0, 8));
        if s.len() - 8 < n {
            Decoded::Truncated
        } else {
            let body = s.subrange(8, 8 + n as int);
            if t == WireType::Bytes {
                Decoded::Done(ValueView::Bytes(body), (8 + n) as nat)
            } else if valid_utf8(body) {
                Decoded::Done(ValueView::Str(decode_utf8(body)), (8 + n) as nat)
            } else {
                Decoded::Invalid
            }
        }
    } else {
        fixed_value(t, le_value(s.subrange(0, width(t) as int)))
    }
}


/// Why a value could not be read.
#[derive(Clone, Copy, Debug, PartialEq, Eq, Structural)]
pub enum Error {
    /// The bytes end before the value does.
    Truncated,
    /// The bytes hold no value of the expected type.
    Invalid,
}

/// What `decode_value` returns for a given outcome of `decode_view`.
pub open spec fn decode_result(d: Decoded, pos: int, r: Result<(Value, usize), Error>) -> bool {
    match d {
        Decoded::Done(v, n) => r matches Ok((x, end)) && x@ == v && end == pos + n,
        Decoded::Truncated => r == Err::<(Value, usize), Error>(Error::Truncated),
        Decoded::Invalid => r == Err::<(Value, usize), Error>(Error::Invalid),
    }
}

/// Appends the encoding of the string `s` to `out`.
pub fn encode_str(s: &str, out: &mut Vec<u8>)
    ensures
        final(out)@ == old(out)@ + encode_view(ValueView::Str(s@)),
{
    let bytes = s.as_bytes();
    write_le(out, bytes.len() as u64, 8);
    push_all(out, bytes);
    assert(out@ =~= old(out)@ + encode_view(ValueView::Str(s@)));
}

/// Appends the encoding of `v` to `out`.
pub fn encode_value(v: &Value, out: &mut Vec<u8>)
    ensures
        final(out)@ == old(out)@ + encode_view(v@),
{
    proof {
        lemma_pow256_values();
    }
    match v {
        Value::Unit => {
            assert(out@ =~= out@ + Seq::<u8>::empty());
        },
        Value::Bool(b) => {
            out.push(if *b { 1u8 } else { 0u8 });
        },
        Value::U8(x) => write_le(out, *x as u64, 1),
        Value::U16(x) => write_le(out, *x as u64, 2),
        Value::U32(x) => write_le(out, *x as u64, 4),
        Value::U64(x) => write_le(out, *x, 8),
        Value::I8(x) => {
            let u: u64 = if *x < 0 { (*x as i16 + 0x100) as u64 } else { *x as u64 };
            write_le(out, u, 1);
        },
        Value::I16(x) => {
            let u: u64 = if *x < 0 { (*x as i32 + 0x1_0000) as u64 } else { *x as u64 };
            write_le(out, u, 2);
        },
        Value::I32(x) => {
            let u: u64 = if *x < 0 { (*x as i64 + 0x1_0000_0000) as u64 } else { *x as u64 };
            write_le(out, u, 4);
        },
        Value::I64(x) => {
            let u: u64 = if *x < 0 {
                ((*x + 0x7fff_ffff_ffff_ffff + 1) as u64) + 0x8000_0000_0000_0000
            } else {
                *x as u64
            };
            write_le(out, u, 8);
        },
        Value::Str(s) => encode_str(s.as_str(), out),
        Value::Bytes(b) => {
            write_le(out, b.len() as u64, 8);
            push_all(out, b.as_slice());
            assert(out@ =~= old(out)@ + encode_view(v@));
        },
    }
}

/// Reads one value of type `t` from `buf`, starting at `pos`; on success also
/// returns the position just after it.
pub fn decode_value(t: WireType, buf: &[u8], pos: usize) -> (r: Result<(Value, usize), Error>)
    requires
        pos <= buf@.len(),
    ensures
        decode_result(decode_view(t, buf@.subrange(pos as int, buf@.len() as int)), pos as int, r),
        r matches Ok((_, end)) ==> end <= buf@.len(),
{
    let ghost s = buf@.subrange(pos as int, buf@.len() as int);
    proof {
        lemma_pow256_values();
    }
    let len = buf.len();
    let avail = len - pos;
    match t {
        WireType::Unit => {
            return Ok((Value::Unit, pos));
        },
        WireType::Str | WireType::Bytes => {
            if avail < 8 {
                return Err(Error::Truncated);
            }
            let n = read_le(buf, pos, 8);
            assert(s.subrange(0, 8) =~= buf@.subrange(pos as int, pos + 8));
            if ((avail - 8) as u64) < n {
                return Err(Error::Truncated);
            }
            let start = pos + 8;
            let end = start + n as usize;
            let body = copy_range(buf, start, end);
            assert(body@ =~= s.subrange(8, 8 + n as int));
            if t == WireType::Bytes {
                return Ok((Value::Bytes(body), end));
            }
            match string_from_utf8(body) {
                Some(text) => Ok((Value::Str(text), end)),
                None => Err(Error::Invalid),
            }
        },
        _ => {
            let k: usize = match t {
                WireType::Bool | WireType::U8 | WireType::I8 => 1,
                WireType::U16 | WireType::I16 => 2,
                WireType::U32 | WireType::I32 => 4,
                _ => 8,
            };
            if avail < k {
                return Err(Error::Truncated);
            }
            let u = read_le(buf, pos, k);
            assert(s.subrange(0, k as int) =~= buf@.subrange(pos as int, pos + k));
            proof {
                lemma_le_value_bound(buf@.subrange(pos as int, pos + k));
            }
            let end = pos + k;
            match t {
                WireType::Bool => {
                    if u == 0 {
                        Ok((Value::Bool(false), end))
                    } else if u == 1 {
                        Ok((Value::Bool(true), end))
                    } else {
                        Err(Error::Invalid)
                    }
                },
                WireType::U8 => Ok((Value::U8(u as u8), end)),
                WireType::U16 => Ok((Value::U16(u as u16), end)),
                WireType::U32 => Ok((Value::U32(u as u32), end)),
                WireType::I8 => {
                    let x: i8 = if u >= 0x80 { (u as i16 - 0x100) as i8 } else { u as i8 };
                    Ok((Value::I8(x), end))
                },
                WireType::I16 => {
                    let x: i16 = if u >= 0x8000 { (u as i32 - 0x1_0000) as i16 } else { u as i16 };
                    Ok((Value::I16(x), end))
                },
                WireType::I32 => {
                    let x: i32 = if u >= 0x8000_0000 {
                        (u as i64 - 0x1_0000_0000) as i32
                    } else {
                        u as i32
                    };
                    Ok((Value::I32(x), end))
                },
                WireType::I64 => {
                    let x: i64 = if u >= 0x8000_0000_0000_0000 {
                        ((u - 0x8000_0000_0000_0000) as i64) - 0x7fff_ffff_ffff_ffff - 1
                    } else {
                        u as i64
                    };
                    Ok((Value::I64(x), end))
                },
                _ => Ok((Value::U64(u), end)),
            }
        },
    }
}


proof fn lemma_fixed_prefix(x: nat, k: nat, rest: Seq<u8>)
    requires
        x < pow256(k),
    ensures
        le_bytes(x, k).len() == k,
        (le_bytes(x, k) + rest).len() >= k,
        le_value((le_bytes(x, k) + rest).subrange(0, k as int)) == x,
{
    lemma_le_bytes_len(x, k);
    assert((le_bytes(x, k) + rest).subrange(0, k as int) =~= le_bytes(x, k));
    lemma_le_round_trip(x, k);
}

/// Reading a value back from its own encoding, whatever bytes follow it,
/// gives the value again and consumes exactly its encoding.
pub proof fn lemma_round_trip(v: ValueView, rest: Seq<u8>)
    requires
        well_sized(v),
    ensures
        decode_view(type_of(v), encode_view(v) + rest) == Decoded::Done(v, encode_view(v).len()),
{
    lemma_pow256_values();
    let e = encode_view(v);
    let s = e + rest;
    match v {
        ValueView::Unit => {},
        ValueView::Bool(b) => {
            lemma_fixed_prefix(if b { 1 } else { 0 }, 1, rest);
            reveal_with_fuel(le_bytes, 2);
            assert(seq![if b { 1u8 } else { 0u8 }] =~= le_bytes(if b { 1 } else { 0 }, 1));
        },
        ValueView::U8(x) => lemma_fixed_prefix(x as nat, 1, rest),
        ValueView::U16(x) => lemma_fixed_prefix(x as nat, 2, rest),
        ValueView::U32(x) => lemma_fixed_prefix(x as nat, 4, rest),
        ValueView::U64(x) => lemma_fixed_prefix(x as nat, 8, rest),
        ValueView::I8(x) => lemma_fixed_prefix(twos(x as int, 1), 1, rest),
        ValueView::I16(x) => lemma_fixed_prefix(twos(x as int, 2), 2, rest),
        ValueView::I32(x) => lemma_fixed_prefix(twos(x as int, 4), 4, rest),
        ValueView::I64(x) => lemma_fixed_prefix(twos(x as int, 8), 8, rest),
        ValueView::Str(c) => {
            let body = encode_utf8(c);
            lemma_fixed_prefix(body.len(), 8, body + rest);
            assert(s =~= le_bytes(body.len(), 8) + (body + rest));
            assert(s.subrange(8, 8 + body.len() as int) =~= body);
            encode_utf8_valid_utf8(c);
            encode_utf8_decode_utf8(c);
        },
        ValueView::Bytes(body) => {
            lemma_fixed_prefix(body.len(), 8, body + rest);
            assert(s =~= le_bytes(body.len(), 8) + (body + rest));
            assert(s.subrange(8, 8 + body.len() as int) =~= body);
        },
    }
}

/// Appends the encodings of `vs`, in order, to `out`.
pub fn encode_values(vs: &Vec<Value>, out: &mut Vec<u8>)
    ensures
        final(out)@ == old(out)@ + encode_all(vs@.map_values(|v: Value| v@)),
{
    let n = vs.len();
    let mut i: usize = 0;
    while i < n
        invariant
            i <= n == vs@.len(),
            out@ == old(out)@ + encode_all(vs@.subrange(0, i as int).map_values(|v: Value| v@)),
        decreases n - i,
    {
        encode_value(&vs[i], out);
        let ghost prev = vs@.subrange(0, i as int).map_values(|v: Value| v@);
        i = i + 1;
        let ghost next = vs@.subrange(0, i as int).map_values(|v: Value| v@);
        assert(next =~= prev.push(vs@[i - 1]@));
        proof {
            lemma_encode_all_push(prev, vs@[i - 1]@);
        }
        assert(out@ =~= old(out)@ + encode_all(next));
    }
    assert(vs@.subrange(0, n as int) =~= vs@);
}


/// Outcome of reading values of given types one after the other.
pub enum DecodedAll {
    /// The values, and how many bytes they took together.
    Done(Seq<ValueView>, nat),
    /// The bytes end before the last value does.
    Truncated,
    /// Some value could not be read.
    Invalid,
}

/// Reads values of types `ts`, in order, from the front of `s`.
pub open spec fn decode_all(ts: Seq<WireType>, s: Seq<u8>) -> DecodedAll
    decreases ts.len(),
{
    if ts.len() == 0 {
        DecodedAll::Done(Seq::empty(), 0)
    } else {
        match decode_view(ts[0], s) {
            Decoded::Done(v, n) => match decode_all(ts.drop_first(), s.skip(n as int)) {
                DecodedAll::Done(vs, m) => DecodedAll::Done(seq![v] + vs, n + m),
                DecodedAll::Truncated => DecodedAll::Truncated,
                DecodedAll::Invalid => DecodedAll::Invalid,
            },
            Decoded::Truncated => DecodedAll::Truncated,
            Decoded::Invalid => DecodedAll::Invalid,
        }
    }
}

/// `d`, with `prefix` read before it in `k` bytes.
pub open spec fn after(prefix: Seq<ValueView>, k: nat, d: DecodedAll) -> DecodedAll {
    match d {
        DecodedAll::Done(vs, m) => DecodedAll::Done(prefix + vs, k + m),
        DecodedAll::Truncated => DecodedAll::Truncated,
        DecodedAll::Invalid => DecodedAll::Invalid,
    }
}

/// The wire types of a sequence of values.
pub open spec fn types_of(vs: Seq<ValueView>) -> Seq<WireType> {
    vs.map_values(|v: ValueView| type_of(v))
}

/// What `decode_values` returns for a given outcome of `decode_all`.
pub open spec fn decode_all_result(d: DecodedAll, pos: int, r: Result<(Vec<Value>, usize), Error>) -> bool {
    match d {
        DecodedAll::Done(vs, n) => r matches Ok((xs, end)) && xs@.map_values(|x: Value| x@) == vs
            && end == pos + n,
        DecodedAll::Truncated => r == Err::<(Vec<Value>, usize), Error>(Error::Truncated),
        DecodedAll::Invalid => r == Err::<(Vec<Value>, usize), Error>(Error::Invalid),
    }
}

/// Reads values of types `ts`, in order, from `buf`, starting at `pos`; on
/// success also returns the position just after the last.
pub fn decode_values(ts: &Vec<WireType>, buf: &[u8], pos: usize) -> (r: Result<
    (Vec<Value>, usize),
    Error,
>)
    requires
        pos <= buf@.len(),
    ensures
        decode_all_result(
            decode_all(ts@, buf@.subrange(pos as int, buf@.len() as int)),
            pos as int,
            r,
        ),
        r matches Ok((_, end)) ==> end <= buf@.len(),
{
    let ghost s0 = buf@.subrange(pos as int, buf@.len() as int);
    let n = ts.len();
    let mut vals: Vec<Value> = Vec::new();
    let mut at: usize = pos;
    let mut i: usize = 0;
    proof {
        assert(ts@.skip(0) =~= ts@);
        assert(s0.skip(0) =~= s0);
        match decode_all(ts@, s0) {
            DecodedAll::Done(vs, m) => {
                assert(vals@.map_values(|x: Value| x@) + vs =~= vs);
            },
            _ => {},
        }
    }
    while i < n
        invariant
            n == ts@.len(),
            i <= n,
            pos <= at <= buf@.len(),
            s0 == buf@.subrange(pos as int, buf@.len() as int),
            decode_all(ts@, s0) == after(
                vals@.map_values(|x: Value| x@),
                (at - pos) as nat,
                decode_all(ts@.skip(i as int), s0.skip(at - pos)),
            ),
        decreases n - i,
    {
        let ghost rest = s0.skip(at - pos);
        assert(rest =~= buf@.subrange(at as int, buf@.len() as int));
        assert(ts@.skip(i as int)[0] == ts@[i as int]);
        assert(ts@.skip(i as int).drop_first() =~= ts@.skip(i + 1));
        match decode_value(ts[i], buf, at) {
            Ok((v, end)) => {
                let ghost prefix = vals@.map_values(|x: Value| x@);
                let ghost k = (end - at) as nat;
                assert(rest.skip(k as int) =~= s0.skip(end - pos));
                vals.push(v);
                assert(vals@.map_values(|x: Value| x@) =~= prefix + seq![v@]);
                assert(prefix + seq![v@] + Seq::<ValueView>::empty() =~= prefix + seq![v@]);
                proof {
                    let d = decode_all(ts@.skip(i + 1), s0.skip(end - pos));
                    match d {
                        DecodedAll::Done(vs, m) => {
                            assert(prefix + (seq![v@] + vs) =~= (prefix + seq![v@]) + vs);
                        },
                        _ => {},
                    }
                }
                at = end;
            },
            Err(e) => {
                return Err(e);
            },
        }
        i = i + 1;
    }
    assert(ts@.skip(n as int) =~= Seq::<WireType>::empty());
    assert(vals@.map_values(|x: Value| x@) + Seq::<ValueView>::empty() =~= vals@.map_values(
        |x: Value| x@,
    ));
    Ok((vals, at))
}

/// Reading values back from their own encodings, whatever follows them,
/// gives the values again and consumes exactly their encodings.
pub proof fn lemma_round_trip_all(vs: Seq<ValueView>, rest: Seq<u8>)
    requires
        forall|i: int| 0 <= i < vs.len() ==> well_sized(#[trigger] vs[i]),
    ensures
        decode_all(types_of(vs), encode_all(vs) + rest) == DecodedAll::Done(vs, encode_all(vs).len()),
    decreases vs.len(),
{
    let ts = types_of(vs);
    if vs.len() > 0 {
        let tail = vs.drop_first();
        let s = encode_all(vs) + rest;
        assert(s =~= encode_view(vs[0]) + (encode_all(tail) + rest));
        lemma_round_trip(vs[0], encode_all(tail) + rest);
        assert(ts[0] == type_of(vs[0]));
        assert(s.skip(encode_view(vs[0]).len() as int) =~= encode_all(tail) + rest);
        assert(ts.drop_first() =~= types_of(tail));
        assert(forall|i: int| 0 <= i < tail.len() ==> #[trigger] tail[i] == vs[i + 1]);
        lemma_round_trip_all(tail, rest);
        assert(seq![vs[0]] + tail =~= vs);
    } else {
        assert(encode_all(vs) =~= Seq::<u8>::empty());
        assert(vs =~= Seq::<ValueView>::empty());
    }
}

} // verus!
