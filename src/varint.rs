//! Variable-length integers: seven payload bits per byte, least significant group first,
//! with the high bit set on every byte but the last.
use vstd::prelude::*;
use crate::codec::CodecError;

verus! {

/// Most bytes of a 32-bit variable-length integer.
pub const VARINT_MAX_BYTES: usize = 5;

/// Most bytes of a 64-bit variable-length integer.
pub const VARLONG_MAX_BYTES: usize = 10;

pub open spec fn pow128(n: nat) -> nat
    decreases n,
{
    if n == 0 {
        1
    } else {
        128 * pow128((n - 1) as nat)
    }
}

/// The groups of `v`, least significant first, each with the continuation bit on all but the last.
pub open spec fn varint_bytes(v: nat) -> Seq<u8>
    decreases v,
{
    if v < 128 {
        seq![v as u8]
    } else {
        seq![(v % 128 + 128) as u8] + varint_bytes(v / 128)
    }
}

/// Reads a group sequence from the front of `s`, using at most `max` bytes: the number and
/// how many bytes it took, `Truncated` if the bytes end first, `VarIntOverflow` if `max`
/// bytes all carry the continuation bit.
pub open spec fn varint_parse(s: Seq<u8>, max: nat) -> Result<(nat, nat), CodecError>
    decreases max,
{
    if max == 0 {
        Err(CodecError::VarIntOverflow)
    } else if s.len() == 0 {
        Err(CodecError::Truncated)
    } else if s[0] < 128 {
        Ok((s[0] as nat, 1))
    } else {
        match varint_parse(s.drop_first(), (max - 1) as nat) {
            Ok((v, n)) => Ok((((s[0] - 128) + 128 * v) as nat, n + 1)),
            Err(e) => Err(e),
        }
    }
}

/// The wire form of a 32-bit variable-length integer: the groups of its two's-complement bits.
pub open spec fn varint_wire(n: i32) -> Seq<u8> {
    varint_bytes(n as u32 as nat)
}

/// The wire form of a 64-bit variable-length integer.
pub open spec fn varlong_wire(n: i64) -> Seq<u8> {
    varint_bytes(n as u64 as nat)
}

/// What reading a 32-bit variable-length integer from the front of `s` gives.
pub open spec fn varint_read(s: Seq<u8>) -> Result<(i32, nat), CodecError> {
    match varint_parse(s, 5) {
        Ok((v, n)) => Ok((v as u32 as i32, n)),
        Err(e) => Err(e),
    }
}

/// What reading a 64-bit variable-length integer from the front of `s` gives.
pub open spec fn varlong_read(s: Seq<u8>) -> Result<(i64, nat), CodecError> {
    match varint_parse(s, 10) {
        Ok((v, n)) => Ok((v as u64 as i64, n)),
        Err(e) => Err(e),
    }
}

pub proof fn lemma_pow128_values()
    ensures
        pow128(5) == 0x8_0000_0000,
        pow128(10) == 0x40_0000_0000_0000_0000,
{
    reveal_with_fuel(pow128, 11);
}

pub proof fn lemma_varint_bytes_len(v: nat, k: nat)
    requires
        v < pow128(k),
    ensures
        1 <= varint_bytes(v).len() <= if k == 0 { 1 } else { k },
    decreases v,
{
    if v >= 128 {
        assert(v / 128 < pow128((k - 1) as nat)) by (nonlinear_arith)
            requires
                v < 128 * pow128((k - 1) as nat),
        ;
        lemma_varint_bytes_len(v / 128, (k - 1) as nat);
    }
}

/// Reading the groups of `v` back, followed by anything, gives `v` and the groups' length.
pub proof fn lemma_varint_parse_bytes(v: nat, rest: Seq<u8>, max: nat)
    requires
        1 <= max,
        v < pow128(max),
    ensures
        varint_parse(varint_bytes(v) + rest, max) == Ok::<(nat, nat), CodecError>(
            (v, varint_bytes(v).len()),
        ),
    decreases v,
{
    let s = varint_bytes(v) + rest;
    if v < 128 {
        assert(s[0] == v as u8);
    } else {
        let p = pow128((max - 1) as nat);
        assert(v / 128 < p && v / 128 >= 1) by (nonlinear_arith)
            requires
                v < 128 * p,
                v >= 128,
        ;
        if max == 1 {
            assert(p == 1);
        }
        lemma_varint_parse_bytes(v / 128, rest, (max - 1) as nat);
        assert(s.drop_first() =~= varint_bytes(v / 128) + rest);
        assert(s[0] == (v % 128 + 128) as u8);
        assert(v == v % 128 + 128 * (v / 128)) by (nonlinear_arith);
    }
}

/// A parse never takes more than `max` bytes, and the number fits in the groups read.
pub proof fn lemma_varint_parse_bound(s: Seq<u8>, max: nat)
    ensures
        varint_parse(s, max) matches Ok((v, n)) ==> 1 <= n <= max && n <= s.len() && v
            < pow128(n),
    decreases max,
{
    reveal_with_fuel(pow128, 2);
    if max > 0 && s.len() > 0 && s[0] >= 128 {
        lemma_varint_parse_bound(s.drop_first(), (max - 1) as nat);
        if let Ok((v, n)) = varint_parse(s.drop_first(), (max - 1) as nat) {
            let b = (s[0] - 128) as nat;
            assert(b + 128 * v < 128 * pow128(n)) by (nonlinear_arith)
                requires
                    b < 128,
                    v < pow128(n),
            ;
        }
    }
}

pub proof fn lemma_pow128_monotone(a: nat, b: nat)
    requires
        a <= b,
    ensures
        pow128(a) <= pow128(b),
    decreases b,
{
    if a < b {
        lemma_pow128_monotone(a, (b - 1) as nat);
    }
}

/// Appends the groups of `v`.
pub fn push_varint_bits(out: &mut Vec<u8>, v: u64)
    ensures
        final(out)@ == old(out)@ + varint_bytes(v as nat),
{
    let mut x: u64 = v;
    while x >= 128
        invariant
            out@ + varint_bytes(x as nat) == old(out)@ + varint_bytes(v as nat),
        decreases x,
    {
        let ghost before = out@;
        out.push((x % 128 + 128) as u8);
        assert(out@ + varint_bytes((x / 128) as nat) =~= before + varint_bytes(x as nat));
        x = x / 128;
    }
    out.push(x as u8);
    assert(out@ =~= old(out)@ + varint_bytes(v as nat));
}

/// Reads a group sequence of at most `max` bytes at `pos`.
pub fn parse_varint_at(data: &[u8], pos: usize, max: usize) -> (r: Result<(u128, usize), CodecError>)
    requires
        pos <= data@.len(),
        max <= 10,
    ensures
        match varint_parse(data@.subrange(pos as int, data@.len() as int), max as nat) {
            Ok((v, n)) => r == Ok::<(u128, usize), CodecError>((v as u128, n as usize)) && v
                < 0x40_0000_0000_0000_0000 && 1 <= n <= max && pos + n <= data.len(),
            Err(e) => r == Err::<(u128, usize), CodecError>(e),
        },
    decreases max,
{
    let ghost s = data@.subrange(pos as int, data@.len() as int);
    proof {
        lemma_varint_parse_bound(s, max as nat);
        lemma_pow128_values();
        lemma_pow128_monotone(max as nat, 10);
        if let Ok((v, n)) = varint_parse(s, max as nat) {
            lemma_pow128_monotone(n, max as nat);
        }
    }
    if max == 0 {
        return Err(CodecError::VarIntOverflow);
    }
    if pos >= data.len() {
        return Err(CodecError::Truncated);
    }
    let b = data[pos];
    if b < 128 {
        return Ok((b as u128, 1));
    }
    proof {
        assert(s.drop_first() =~= data@.subrange(pos + 1, data@.len() as int));
    }
    match parse_varint_at(data, pos + 1, max - 1) {
        Ok((v, n)) => {
            proof {
                lemma_varint_parse_bound(s.drop_first(), (max - 1) as nat);
                lemma_pow128_monotone(n as nat, (max - 1) as nat);
                lemma_pow128_monotone((max - 1) as nat, 9);
                reveal_with_fuel(pow128, 10);
            }
            Ok(((b - 128) as u128 + 128 * v, n + 1))
        },
        Err(e) => Err(e),
    }
}

/// A 32-bit integer written in variable-length form.
#[derive(Debug, Clone, Copy, PartialEq, Eq, Structural)]
pub struct VarInt(pub i32);

/// A 64-bit integer written in variable-length form.
#[derive(Debug, Clone, Copy, PartialEq, Eq, Structural)]
pub struct VarLong(pub i64);

impl VarInt {
    /// Appends the wire form.
    pub fn encode(&self, out: &mut Vec<u8>)
        ensures
            final(out)@ == old(out)@ + varint_wire(self.0),
    {
        push_varint_bits(out, self.0 as u32 as u64);
    }

    /// Reads one at `pos`, giving it and the position after it.
    pub fn decode(data: &[u8], pos: usize) -> (r: Result<(VarInt, usize), CodecError>)
        requires
            pos <= data@.len(),
        ensures
            match varint_read(data@.subrange(pos as int, data@.len() as int)) {
                Ok((v, n)) => r matches Ok((w, end)) && w == VarInt(v) && end == pos + n && end <= data@.len(),
                Err(e) => r == Err::<(VarInt, usize), CodecError>(e),
            },
    {
        match parse_varint_at(data, pos, VARINT_MAX_BYTES) {
            Ok((v, n)) => Ok((VarInt(#[verifier::truncate] ((#[verifier::truncate] (v as u32)) as i32)), pos + n)),
            Err(e) => Err(e),
        }
    }
}

impl VarLong {
    /// Appends the wire form.
    pub fn encode(&self, out: &mut Vec<u8>)
        ensures
            final(out)@ == old(out)@ + varlong_wire(self.0),
    {
        push_varint_bits(out, self.0 as u64);
    }

    /// Reads one at `pos`, giving it and the position after it.
    pub fn decode(data: &[u8], pos: usize) -> (r: Result<(VarLong, usize), CodecError>)
        requires
            pos <= data@.len(),
        ensures
            match varlong_read(data@.subrange(pos as int, data@.len() as int)) {
                Ok((v, n)) => r matches Ok((w, end)) && w == VarLong(v) && end == pos + n && end <= data@.len(),
                Err(e) => r == Err::<(VarLong, usize), CodecError>(e),
            },
    {
        match parse_varint_at(data, pos, VARLONG_MAX_BYTES) {
            Ok((v, n)) => Ok((VarLong(#[verifier::truncate] ((#[verifier::truncate] (v as u64)) as i64)), pos + n)),
            Err(e) => Err(e),
        }
    }
}

/// Reading the wire form of a 32-bit integer, followed by anything, gives the integer back
/// and consumes exactly its wire form, which is one to five bytes long.
pub proof fn lemma_varint_round_trip(n: i32, rest: Seq<u8>)
    ensures
        varint_read(varint_wire(n) + rest) == Ok::<(i32, nat), CodecError>(
            (n, varint_wire(n).len()),
        ),
        1 <= varint_wire(n).len() <= 5,
{
    let v = n as u32 as nat;
    lemma_pow128_values();
    lemma_varint_parse_bytes(v, rest, 5);
    lemma_varint_bytes_len(v, 5);
    assert((n as u32) as i32 == n) by (bit_vector);
}

/// Reading the wire form of a 64-bit integer, followed by anything, gives the integer back
/// and consumes exactly its wire form, which is one to ten bytes long.
pub proof fn lemma_varlong_round_trip(n: i64, rest: Seq<u8>)
    ensures
        varlong_read(varlong_wire(n) + rest) == Ok::<(i64, nat), CodecError>(
            (n, varlong_wire(n).len()),
        ),
        1 <= varlong_wire(n).len() <= 10,
{
    let v = n as u64 as nat;
    lemma_pow128_values();
    lemma_varint_parse_bytes(v, rest, 10);
    lemma_varint_bytes_len(v, 10);
    assert((n as u64) as i64 == n) by (bit_vector);
}

} // verus!
