//! Decoding errors, big-endian scalars, and the 64-bit form of integers.
use vstd::prelude::*;

verus! {

/// Why decoding a byte sequence failed.
#[derive(Debug, Clone, Copy, PartialEq, Eq, Structural)]
pub enum CodecError {
    /// A read would go past the end of the bytes.
    Truncated,
    /// A variable-length integer kept its continuation bit past the type width.
    VarIntOverflow,
    /// An NBT tag id outside 1..=12 where a value was expected.
    BadTagId(u8),
    /// A string's bytes are not UTF-8.
    BadUtf8,
    /// A length prefix is negative.
    NegativeLength,
    /// A list holds values of more than one tag id.
    MixedListTypes,
    /// The zlib stream of a compressed frame could not be inflated.
    InflateFailed,
    /// The inflated body of a frame does not have the announced length.
    DataLengthMismatch,
}

pub open spec fn pow256(n: nat) -> nat
    decreases n,
{
    if n == 0 {
        1
    } else {
        256 * pow256((n - 1) as nat)
    }
}

/// The `n` low base-256 digits of `v`, most significant first.
pub open spec fn be_bytes(v: nat, n: nat) -> Seq<u8>
    decreases n,
{
    if n == 0 {
        Seq::empty()
    } else {
        be_bytes(v / 256, (n - 1) as nat).push((v % 256) as u8)
    }
}

/// The number whose base-256 digits, most significant first, are `s`.
pub open spec fn be_value(s: Seq<u8>) -> nat
    decreases s.len(),
{
    if s.len() == 0 {
        0
    } else {
        be_value(s.drop_last()) * 256 + s.last() as nat
    }
}

pub open spec fn u16_be(v: u16) -> Seq<u8> {
    be_bytes(v as nat, 2)
}

pub open spec fn i16_be(v: i16) -> Seq<u8> {
    be_bytes(v as u16 as nat, 2)
}

pub open spec fn u32_be(v: u32) -> Seq<u8> {
    be_bytes(v as nat, 4)
}

pub open spec fn i32_be(v: i32) -> Seq<u8> {
    be_bytes(v as u32 as nat, 4)
}

pub open spec fn u64_be(v: u64) -> Seq<u8> {
    be_bytes(v as nat, 8)
}

pub open spec fn i64_be(v: i64) -> Seq<u8> {
    be_bytes(v as u64 as nat, 8)
}

pub open spec fn u128_be(v: u128) -> Seq<u8> {
    be_bytes(v as nat, 16)
}

pub proof fn lemma_be_bytes_len(v: nat, n: nat)
    ensures
        be_bytes(v, n).len() == n,
    decreases n,
{
    if n > 0 {
        lemma_be_bytes_len(v / 256, (n - 1) as nat);
    }
}

pub proof fn lemma_pow256_values()
    ensures
        pow256(1) == 0x100,
        pow256(2) == 0x1_0000,
        pow256(4) == 0x1_0000_0000,
        pow256(8) == 0x1_0000_0000_0000_0000,
        pow256(16) == 0x1_0000_0000_0000_0000_0000_0000_0000_0000,
{
    reveal_with_fuel(pow256, 17);
}

pub proof fn lemma_be_value_bound(s: Seq<u8>)
    ensures
        be_value(s) < pow256(s.len()),
    decreases s.len(),
{
    if s.len() > 0 {
        let a = be_value(s.drop_last());
        let p = pow256((s.len() - 1) as nat);
        lemma_be_value_bound(s.drop_last());
        let b = s.last() as nat;
        assert(a * 256 + b < 256 * p) by (nonlinear_arith)
            requires
                a < p,
                b < 256,
        ;
    }
}

/// Reading the digits back gives the number, when it has at most `n` digits.
pub proof fn lemma_be_round_trip(v: nat, n: nat)
    requires
        v < pow256(n),
    ensures
        be_value(be_bytes(v, n)) == v,
    decreases n,
{
    if n > 0 {
        let p = pow256((n - 1) as nat);
        assert(v / 256 < p) by (nonlinear_arith)
            requires
                v < 256 * p,
        ;
        lemma_be_round_trip(v / 256, (n - 1) as nat);
        let s = be_bytes(v, n);
        assert(s.drop_last() =~= be_bytes(v / 256, (n - 1) as nat));
        assert(v == (v / 256) * 256 + v % 256) by (nonlinear_arith);
    }
}

/// Writing a decoded number back gives the same digits.
pub proof fn lemma_be_bytes_of_value(s: Seq<u8>)
    ensures
        be_bytes(be_value(s), s.len()) == s,
    decreases s.len(),
{
    if s.len() > 0 {
        let a = be_value(s.drop_last());
        let b = s.last() as nat;
        let v = a * 256 + b;
        assert(v / 256 == a && v % 256 == b) by (nonlinear_arith)
            requires
                v == a * 256 + b,
                b < 256,
        ;
        lemma_be_bytes_of_value(s.drop_last());
        assert(be_bytes(v, s.len()) =~= s);
    }
}

/// Appends the `n` low base-256 digits of `v`, most significant first.
pub fn push_be(out: &mut Vec<u8>, v: u128, n: usize)
    requires
        n <= 16,
    ensures
        final(out)@ == old(out)@ + be_bytes(v as nat, n as nat),
    decreases n,
{
    if n > 0 {
        push_be(out, v / 256, n - 1);
        out.push((v % 256) as u8);
        proof {
            assert(be_bytes(v as nat, n as nat) == be_bytes((v / 256) as nat, (n - 1) as nat).push(
                (v % 256) as u8,
            ));
        }
        assert(final(out)@ =~= old(out)@ + be_bytes(v as nat, n as nat));
    }
}

/// Reads `n` bytes at `pos` as a big-endian number.
pub fn read_be(data: &[u8], pos: usize, n: usize) -> (r: u128)
    requires
        n <= 16,
        pos + n <= data@.len(),
    ensures
        r as nat == be_value(data@.subrange(pos as int, pos + n)),
{
    let mut acc: u128 = 0;
    let mut i: usize = 0;
    while i < n
        invariant
            i <= n,
            n <= 16,
            pos + n <= data.len(),
            acc as nat == be_value(data@.subrange(pos as int, pos + i)),
        decreases n - i,
    {
        let ghost sub = data@.subrange(pos as int, pos + i + 1);
        proof {
            assert(sub.drop_last() =~= data@.subrange(pos as int, pos + i));
            lemma_be_value_bound(sub);
            lemma_pow256_values();
            lemma_pow256_monotone((i + 1) as nat, 16);
        }
        acc = acc * 256 + data[pos + i] as u128;
        i = i + 1;
    }
    acc
}

pub proof fn lemma_pow256_monotone(a: nat, b: nat)
    requires
        a <= b,
    ensures
        pow256(a) <= pow256(b),
    decreases b,
{
    if a < b {
        lemma_pow256_monotone(a, (b - 1) as nat);
    }
}

pub fn push_u16(out: &mut Vec<u8>, v: u16)
    ensures
        final(out)@ == old(out)@ + u16_be(v),
{
    push_be(out, v as u128, 2);
}

pub fn push_i16(out: &mut Vec<u8>, v: i16)
    ensures
        final(out)@ == old(out)@ + i16_be(v),
{
    push_be(out, v as u16 as u128, 2);
}

pub fn push_u32(out: &mut Vec<u8>, v: u32)
    ensures
        final(out)@ == old(out)@ + u32_be(v),
{
    push_be(out, v as u128, 4);
}

pub fn push_i32(out: &mut Vec<u8>, v: i32)
    ensures
        final(out)@ == old(out)@ + i32_be(v),
{
    push_be(out, v as u32 as u128, 4);
}

pub fn push_u64(out: &mut Vec<u8>, v: u64)
    ensures
        final(out)@ == old(out)@ + u64_be(v),
{
    push_be(out, v as u128, 8);
}

pub fn push_i64(out: &mut Vec<u8>, v: i64)
    ensures
        final(out)@ == old(out)@ + i64_be(v),
{
    push_be(out, v as u64 as u128, 8);
}

pub fn push_u128(out: &mut Vec<u8>, v: u128)
    ensures
        final(out)@ == old(out)@ + u128_be(v),
{
    push_be(out, v, 16);
}

/// Appends every byte of `b`.
pub fn push_all(out: &mut Vec<u8>, b: &[u8])
    ensures
        final(out)@ == old(out)@ + b@,
{
    let mut i: usize = 0;
    while i < b.len()
        invariant
            i <= b@.len(),
            out@ == old(out)@ + b@.subrange(0, i as int),
        decreases b@.len() - i,
    {
        out.push(b[i]);
        i = i + 1;
        assert(out@ =~= old(out)@ + b@.subrange(0, i as int));
    }
    assert(b@.subrange(0, b@.len() as int) =~= b@);
}

/// A number's 64-bit form: unsigned numbers widened, signed ones sign-extended to 64 bits.
pub trait ToU64 {
    spec fn spec_u64(&self) -> u64;

    fn transmute_to_u64(self) -> (r: u64)
        ensures
            r == self.spec_u64(),
    ;
}

impl ToU64 for u8 {
    open spec fn spec_u64(&self) -> u64 {
        *self as u64
    }

    fn transmute_to_u64(self) -> (r: u64) {
        #[verifier::truncate] (self as u64)
    }
}

impl ToU64 for u16 {
    open spec fn spec_u64(&self) -> u64 {
        *self as u64
    }

    fn transmute_to_u64(self) -> (r: u64) {
        #[verifier::truncate] (self as u64)
    }
}

impl ToU64 for u32 {
    open spec fn spec_u64(&self) -> u64 {
        *self as u64
    }

    fn transmute_to_u64(self) -> (r: u64) {
        #[verifier::truncate] (self as u64)
    }
}

impl ToU64 for u64 {
    open spec fn spec_u64(&self) -> u64 {
        *self as u64
    }

    fn transmute_to_u64(self) -> (r: u64) {
        #[verifier::truncate] (self as u64)
    }
}

impl ToU64 for i8 {
    open spec fn spec_u64(&self) -> u64 {
        *self as u64
    }

    fn transmute_to_u64(self) -> (r: u64) {
        #[verifier::truncate] (self as u64)
    }
}

impl ToU64 for i16 {
    open spec fn spec_u64(&self) -> u64 {
        *self as u64
    }

    fn transmute_to_u64(self) -> (r: u64) {
        #[verifier::truncate] (self as u64)
    }
}

impl ToU64 for i32 {
    open spec fn spec_u64(&self) -> u64 {
        *self as u64
    }

    fn transmute_to_u64(self) -> (r: u64) {
        #[verifier::truncate] (self as u64)
    }
}

impl ToU64 for i64 {
    open spec fn spec_u64(&self) -> u64 {
        *self as u64
    }

    fn transmute_to_u64(self) -> (r: u64) {
        #[verifier::truncate] (self as u64)
    }
}

} // verus!
