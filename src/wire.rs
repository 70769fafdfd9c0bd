//! Field codecs of packet payloads: each type states its wire form, and reading that form
//! back gives a value with the same wire form.
use vstd::prelude::*;
use vstd::utf8::*;
use crate::codec::{
    be_bytes, be_value, i16_be, u32_be, i32_be, i64_be, lemma_be_bytes_len, lemma_be_bytes_of_value,
    lemma_be_round_trip, lemma_pow256_values, push_all, push_be, read_be, u128_be, u16_be,
    u64_be, CodecError,
};
use crate::varint::{lemma_varint_round_trip, varint_read, varint_wire, VarInt, VarLong, varlong_wire, lemma_varlong_round_trip, varlong_read};

verus! {

/// `w` stands in `data` at `pos`.
pub open spec fn starts_with_at(data: Seq<u8>, pos: int, w: Seq<u8>) -> bool {
    0 <= pos && pos + w.len() <= data.len() && data.subrange(pos, pos + w.len()) == w
}

/// A value with a wire form.
pub trait Serializable {
    /// The bytes that stand for this value on the wire.
    spec fn wire(&self) -> Seq<u8>;

    /// Whether the wire form can be read back (lengths fit their prefixes).
    spec fn encodable(&self) -> bool;

    /// Appends the wire form.
    fn serialize(&self, out: &mut Vec<u8>)
        ensures
            final(out)@ == old(out)@ + self.wire(),
    ;
}

/// A value that can be read from its wire form.
pub trait Deserializable: Serializable + Sized {
    /// Why reading a value from the front of `s` fails, or `None` where it succeeds.
    spec fn read_fails(s: Seq<u8>) -> Option<CodecError>;

    /// Reading from the front of `s` gives `v` and takes `n` bytes.
    spec fn read_gives(s: Seq<u8>, v: Self, n: nat) -> bool;

    /// Reads a value at `pos`, giving it and the position after it: exactly what
    /// `read_gives` says of the bytes from `pos`, or the error `read_fails` names. Wherever
    /// the wire form of an encodable value stands at `pos`, that is read, whole.
    fn deserialize(data: &[u8], pos: usize) -> (r: Result<(Self, usize), CodecError>)
        requires
            pos <= data@.len(),
        ensures
            r matches Ok((v, end)) ==> pos <= end <= data@.len() && Self::read_gives(
                data@.subrange(pos as int, data@.len() as int),
                v,
                (end - pos) as nat,
            ),
            r matches Err(e) ==> Self::read_fails(data@.subrange(pos as int, data@.len() as int)) == Some(e),
            r is Ok ==> Self::read_fails(data@.subrange(pos as int, data@.len() as int)) is None,
            forall|v: Self|
                v.encodable() && #[trigger] starts_with_at(data@, pos as int, v.wire()) ==> (r matches Ok(
                    (w, end),
                ) && w.wire() == v.wire() && end == pos + v.wire().len()),
    ;
}

/// The first `n` bytes from `pos` on are the bytes from `pos` to `pos + n`.
pub proof fn lemma_rest_prefix(data: Seq<u8>, pos: int, n: int)
    requires
        0 <= pos <= data.len(),
        0 <= n,
        pos + n <= data.len(),
    ensures
        data.subrange(pos, data.len() as int).subrange(0, n) == data.subrange(pos, pos + n),
        data.subrange(pos, data.len() as int).len() == data.len() - pos,
{
    assert(data.subrange(pos, data.len() as int).subrange(0, n) =~= data.subrange(pos, pos + n));
}

/// Fewer than `n` bytes: `Truncated`.
pub open spec fn fixed_fails(s: Seq<u8>, n: nat) -> Option<CodecError> {
    if s.len() < n {
        Some(CodecError::Truncated)
    } else {
        None
    }
}

/// The bytes from `start` up to `end`.
pub fn copy_range(data: &[u8], start: usize, end: usize) -> (r: Vec<u8>)
    requires
        start <= end <= data@.len(),
    ensures
        r@ == data@.subrange(start as int, end as int),
{
    let mut out: Vec<u8> = Vec::new();
    let mut i: usize = start;
    while i < end
        invariant
            start <= i <= end <= data@.len(),
            out@ == data@.subrange(start as int, i as int),
        decreases end - i,
    {
        out.push(data[i]);
        i = i + 1;
        assert(out@ =~= data@.subrange(start as int, i as int));
    }
    out
}

/// Reads `n` bytes at `pos` as a big-endian number; `Truncated` where fewer remain.
pub fn read_fixed(data: &[u8], pos: usize, n: usize) -> (r: Result<(u128, usize), CodecError>)
    requires
        n <= 16,
        pos <= data@.len(),
    ensures
        pos + n <= data.len() ==> r == Ok::<(u128, usize), CodecError>(
            (be_value(data@.subrange(pos as int, pos + n)) as u128, (pos + n) as usize),
        ),
        pos + n > data.len() ==> r == Err::<(u128, usize), CodecError>(CodecError::Truncated),
{
    if data.len() - pos < n {
        Err(CodecError::Truncated)
    } else {
        let v = read_be(data, pos, n);
        Ok((v, pos + n))
    }
}

/// Relies on `String::from_utf8`: it accepts exactly the UTF-8 byte sequences, and the
/// string it gives has the characters those bytes encode.
#[verifier::external_body]
pub(crate) fn string_from_utf8(bytes: Vec<u8>) -> (r: Option<String>)
    ensures
        r is Some <==> valid_utf8(bytes@),
        r matches Some(s) ==> s@ == decode_utf8(bytes@),
{
    String::from_utf8(bytes).ok()
}

impl Serializable for u8 {
    open spec fn wire(&self) -> Seq<u8> {
        seq![*self]
    }

    open spec fn encodable(&self) -> bool {
        true
    }

    fn serialize(&self, out: &mut Vec<u8>) {
        out.push(*self);
    }
}

impl Deserializable for u8 {
    open spec fn read_fails(s: Seq<u8>) -> Option<CodecError> {
        fixed_fails(s, 1)
    }

    open spec fn read_gives(s: Seq<u8>, v: Self, n: nat) -> bool {
        n == 1 && 1 <= s.len() && s[0] == v
    }

    fn deserialize(data: &[u8], pos: usize) -> (r: Result<(Self, usize), CodecError>) {
        proof {
            if pos < data@.len() {
                lemma_rest_prefix(data@, pos as int, 1);
                assert(data@.subrange(pos as int, data@.len() as int)[0] == data@[pos as int]);
            }
            assert(data@.subrange(pos as int, data@.len() as int).len() == data@.len() - pos);
        }
        if pos < data.len() {
            let b = data[pos];
            proof {
                assert forall|v: u8| #[trigger] starts_with_at(data@, pos as int, v.wire()) implies v
                    == b by {
                    assert(data@.subrange(pos as int, pos + 1)[0] == data@[pos as int]);
                }
            }
            Ok((b, pos + 1))
        } else {
            Err(CodecError::Truncated)
        }
    }
}

impl Serializable for i8 {
    open spec fn wire(&self) -> Seq<u8> {
        seq![*self as u8]
    }

    open spec fn encodable(&self) -> bool {
        true
    }

    fn serialize(&self, out: &mut Vec<u8>) {
        out.push(*self as u8);
    }
}

impl Deserializable for i8 {
    open spec fn read_fails(s: Seq<u8>) -> Option<CodecError> {
        fixed_fails(s, 1)
    }

    open spec fn read_gives(s: Seq<u8>, v: Self, n: nat) -> bool {
        n == 1 && 1 <= s.len() && s[0] as i8 == v
    }

    fn deserialize(data: &[u8], pos: usize) -> (r: Result<(Self, usize), CodecError>) {
        proof {
            if pos < data@.len() {
                lemma_rest_prefix(data@, pos as int, 1);
                assert(data@.subrange(pos as int, data@.len() as int)[0] == data@[pos as int]);
            }
            assert(data@.subrange(pos as int, data@.len() as int).len() == data@.len() - pos);
        }
        if pos < data.len() {
            let b = data[pos];
            let x = b as i8;
            proof {
                assert forall|v: i8| #[trigger] starts_with_at(data@, pos as int, v.wire()) implies v
                    == x by {
                    assert(data@.subrange(pos as int, pos + 1)[0] == data@[pos as int]);
                    assert((v as u8) as i8 == v) by (bit_vector);
                }
            }
            Ok((x, pos + 1))
        } else {
            Err(CodecError::Truncated)
        }
    }
}

impl Serializable for bool {
    open spec fn wire(&self) -> Seq<u8> {
        if *self {
            seq![1u8]
        } else {
            seq![0u8]
        }
    }

    open spec fn encodable(&self) -> bool {
        true
    }

    fn serialize(&self, out: &mut Vec<u8>) {
        out.push(if *self { 1u8 } else { 0u8 });
    }
}

impl Deserializable for bool {
    open spec fn read_fails(s: Seq<u8>) -> Option<CodecError> {
        fixed_fails(s, 1)
    }

    open spec fn read_gives(s: Seq<u8>, v: Self, n: nat) -> bool {
        n == 1 && 1 <= s.len() && (s[0] != 0) == v
    }

    fn deserialize(data: &[u8], pos: usize) -> (r: Result<(Self, usize), CodecError>) {
        proof {
            if pos < data@.len() {
                lemma_rest_prefix(data@, pos as int, 1);
                assert(data@.subrange(pos as int, data@.len() as int)[0] == data@[pos as int]);
            }
            assert(data@.subrange(pos as int, data@.len() as int).len() == data@.len() - pos);
        }
        if pos < data.len() {
            let b = data[pos];
            proof {
                assert forall|v: bool| #[trigger] starts_with_at(data@, pos as int, v.wire()) implies v
                    == (b != 0) by {
                    assert(data@.subrange(pos as int, pos + 1)[0] == data@[pos as int]);
                }
            }
            Ok((b != 0, pos + 1))
        } else {
            Err(CodecError::Truncated)
        }
    }
}

/// Reads a big-endian `u16` at `pos`.
pub fn read_u16_at(data: &[u8], pos: usize) -> (r: Result<(u16, usize), CodecError>)
    requires
        pos <= data@.len(),
    ensures
        r matches Ok((v, end)) ==> end == pos + 2 && end <= data@.len() && data@.subrange(pos as int, end as int) == u16_be(v),
        pos + 2 > data@.len() ==> r == Err::<(u16, usize), CodecError>(CodecError::Truncated),
        pos + 2 <= data@.len() ==> r is Ok,
        forall|v: u16| #[trigger] starts_with_at(data@, pos as int, u16_be(v)) ==> r == Ok::<(u16, usize), CodecError>((v, (pos + 2) as usize)),
{
    proof {
        lemma_pow256_values();
        assert forall|v: u16| #[trigger] starts_with_at(data@, pos as int, u16_be(v)) implies pos
            + 2 <= data@.len() && be_value(data@.subrange(pos as int, pos + 2)) == v as nat by {
            lemma_be_bytes_len(v as nat, 2);
            lemma_be_round_trip(v as nat, 2);
        }
    }
    match read_fixed(data, pos, 2) {
        Ok((x, end)) => {
            proof {
                crate::codec::lemma_be_value_bound(data@.subrange(pos as int, pos + 2));
                lemma_be_bytes_of_value(data@.subrange(pos as int, pos + 2));
            }
                let z = x as u16;
                Ok((z, end))
        },
        Err(e) => Err(e),
    }
}

impl Serializable for u16 {
    open spec fn wire(&self) -> Seq<u8> {
        u16_be(*self)
    }

    open spec fn encodable(&self) -> bool {
        true
    }

    fn serialize(&self, out: &mut Vec<u8>) {
        push_be(out, *self as u128, 2);
    }
}

impl Deserializable for u16 {
    open spec fn read_fails(s: Seq<u8>) -> Option<CodecError> {
        fixed_fails(s, 2)
    }

    open spec fn read_gives(s: Seq<u8>, v: Self, n: nat) -> bool {
        n == 2 && 2 <= s.len() && s.subrange(0, 2) == u16_be(v)
    }

    fn deserialize(data: &[u8], pos: usize) -> (r: Result<(Self, usize), CodecError>) {
        proof {
            if pos + 2 <= data@.len() {
                lemma_rest_prefix(data@, pos as int, 2);
            }
            assert(data@.subrange(pos as int, data@.len() as int).len() == data@.len() - pos);
        }
        proof {
            assert forall|v: u16| #[trigger] starts_with_at(data@, pos as int, v.wire()) implies v.wire().len() == 2 by {
                lemma_be_bytes_len(v as nat, 2);
            }
        }
        read_u16_at(data, pos)
    }
}

/// Reads a big-endian `i16` at `pos`.
pub fn read_i16_at(data: &[u8], pos: usize) -> (r: Result<(i16, usize), CodecError>)
    requires
        pos <= data@.len(),
    ensures
        r matches Ok((v, end)) ==> end == pos + 2 && end <= data@.len() && data@.subrange(pos as int, end as int) == i16_be(v),
        pos + 2 > data@.len() ==> r == Err::<(i16, usize), CodecError>(CodecError::Truncated),
        pos + 2 <= data@.len() ==> r is Ok,
        forall|v: i16| #[trigger] starts_with_at(data@, pos as int, i16_be(v)) ==> r == Ok::<(i16, usize), CodecError>((v, (pos + 2) as usize)),
{
    proof {
        lemma_pow256_values();
        assert forall|v: i16| #[trigger] starts_with_at(data@, pos as int, i16_be(v)) implies pos
            + 2 <= data@.len() && be_value(data@.subrange(pos as int, pos + 2)) == v as u16 as nat by {
            lemma_be_bytes_len(v as u16 as nat, 2);
            lemma_be_round_trip(v as u16 as nat, 2);
        }
    }
    match read_fixed(data, pos, 2) {
        Ok((x, end)) => {
            proof {
                crate::codec::lemma_be_value_bound(data@.subrange(pos as int, pos + 2));
                lemma_be_bytes_of_value(data@.subrange(pos as int, pos + 2));
            }
                let y = x as u16;
                let z = y as i16;
                proof {
                    assert(((y as i16) as u16) == y) by (bit_vector);
                    assert forall|v: i16| #[trigger]
                        starts_with_at(data@, pos as int, i16_be(v)) implies z == v && end == pos + 2 by {
                        assert(y == v as u16);
                        assert(((v as u16) as i16) == v) by (bit_vector);
                    }
                }
                Ok((z, end))
        },
        Err(e) => Err(e),
    }
}

impl Serializable for i16 {
    open spec fn wire(&self) -> Seq<u8> {
        i16_be(*self)
    }

    open spec fn encodable(&self) -> bool {
        true
    }

    fn serialize(&self, out: &mut Vec<u8>) {
        push_be(out, *self as u16 as u128, 2);
    }
}

impl Deserializable for i16 {
    open spec fn read_fails(s: Seq<u8>) -> Option<CodecError> {
        fixed_fails(s, 2)
    }

    open spec fn read_gives(s: Seq<u8>, v: Self, n: nat) -> bool {
        n == 2 && 2 <= s.len() && s.subrange(0, 2) == i16_be(v)
    }

    fn deserialize(data: &[u8], pos: usize) -> (r: Result<(Self, usize), CodecError>) {
        proof {
            if pos + 2 <= data@.len() {
                lemma_rest_prefix(data@, pos as int, 2);
            }
            assert(data@.subrange(pos as int, data@.len() as int).len() == data@.len() - pos);
        }
        proof {
            assert forall|v: i16| #[trigger] starts_with_at(data@, pos as int, v.wire()) implies v.wire().len() == 2 by {
                lemma_be_bytes_len(v as u16 as nat, 2);
            }
        }
        read_i16_at(data, pos)
    }
}

/// Reads a big-endian `u32` at `pos`.
pub fn read_u32_at(data: &[u8], pos: usize) -> (r: Result<(u32, usize), CodecError>)
    requires
        pos <= data@.len(),
    ensures
        r matches Ok((v, end)) ==> end == pos + 4 && end <= data@.len() && data@.subrange(pos as int, end as int) == u32_be(v),
        pos + 4 > data@.len() ==> r == Err::<(u32, usize), CodecError>(CodecError::Truncated),
        pos + 4 <= data@.len() ==> r is Ok,
        forall|v: u32| #[trigger] starts_with_at(data@, pos as int, u32_be(v)) ==> r == Ok::<(u32, usize), CodecError>((v, (pos + 4) as usize)),
{
    proof {
        lemma_pow256_values();
        assert forall|v: u32| #[trigger] starts_with_at(data@, pos as int, u32_be(v)) implies pos
            + 4 <= data@.len() && be_value(data@.subrange(pos as int, pos + 4)) == v as nat by {
            lemma_be_bytes_len(v as nat, 4);
            lemma_be_round_trip(v as nat, 4);
        }
    }
    match read_fixed(data, pos, 4) {
        Ok((x, end)) => {
            proof {
                crate::codec::lemma_be_value_bound(data@.subrange(pos as int, pos + 4));
                lemma_be_bytes_of_value(data@.subrange(pos as int, pos + 4));
            }
                let z = x as u32;
                Ok((z, end))
        },
        Err(e) => Err(e),
    }
}

impl Serializable for u32 {
    open spec fn wire(&self) -> Seq<u8> {
        u32_be(*self)
    }

    open spec fn encodable(&self) -> bool {
        true
    }

    fn serialize(&self, out: &mut Vec<u8>) {
        push_be(out, *self as u128, 4);
    }
}

impl Deserializable for u32 {
    open spec fn read_fails(s: Seq<u8>) -> Option<CodecError> {
        fixed_fails(s, 4)
    }

    open spec fn read_gives(s: Seq<u8>, v: Self, n: nat) -> bool {
        n == 4 && 4 <= s.len() && s.subrange(0, 4) == u32_be(v)
    }

    fn deserialize(data: &[u8], pos: usize) -> (r: Result<(Self, usize), CodecError>) {
        proof {
            if pos + 4 <= data@.len() {
                lemma_rest_prefix(data@, pos as int, 4);
            }
            assert(data@.subrange(pos as int, data@.len() as int).len() == data@.len() - pos);
        }
        proof {
            assert forall|v: u32| #[trigger] starts_with_at(data@, pos as int, v.wire()) implies v.wire().len() == 4 by {
                lemma_be_bytes_len(v as nat, 4);
            }
        }
        read_u32_at(data, pos)
    }
}

/// Reads a big-endian `i32` at `pos`.
pub fn read_i32_at(data: &[u8], pos: usize) -> (r: Result<(i32, usize), CodecError>)
    requires
        pos <= data@.len(),
    ensures
        r matches Ok((v, end)) ==> end == pos + 4 && end <= data@.len() && data@.subrange(pos as int, end as int) == i32_be(v),
        pos + 4 > data@.len() ==> r == Err::<(i32, usize), CodecError>(CodecError::Truncated),
        pos + 4 <= data@.len() ==> r is Ok,
        forall|v: i32| #[trigger] starts_with_at(data@, pos as int, i32_be(v)) ==> r == Ok::<(i32, usize), CodecError>((v, (pos + 4) as usize)),
{
    proof {
        lemma_pow256_values();
        assert forall|v: i32| #[trigger] starts_with_at(data@, pos as int, i32_be(v)) implies pos
            + 4 <= data@.len() && be_value(data@.subrange(pos as int, pos + 4)) == v as u32 as nat by {
            lemma_be_bytes_len(v as u32 as nat, 4);
            lemma_be_round_trip(v as u32 as nat, 4);
        }
    }
    match read_fixed(data, pos, 4) {
        Ok((x, end)) => {
            proof {
                crate::codec::lemma_be_value_bound(data@.subrange(pos as int, pos + 4));
                lemma_be_bytes_of_value(data@.subrange(pos as int, pos + 4));
            }
                let y = x as u32;
                let z = y as i32;
                proof {
                    assert(((y as i32) as u32) == y) by (bit_vector);
                    assert forall|v: i32| #[trigger]
                        starts_with_at(data@, pos as int, i32_be(v)) implies z == v && end == pos + 4 by {
                        assert(y == v as u32);
                        assert(((v as u32) as i32) == v) by (bit_vector);
                    }
                }
                Ok((z, end))
        },
        Err(e) => Err(e),
    }
}

impl Serializable for i32 {
    open spec fn wire(&self) -> Seq<u8> {
        i32_be(*self)
    }

    open spec fn encodable(&self) -> bool {
        true
    }

    fn serialize(&self, out: &mut Vec<u8>) {
        push_be(out, *self as u32 as u128, 4);
    }
}

impl Deserializable for i32 {
    open spec fn read_fails(s: Seq<u8>) -> Option<CodecError> {
        fixed_fails(s, 4)
    }

    open spec fn read_gives(s: Seq<u8>, v: Self, n: nat) -> bool {
        n == 4 && 4 <= s.len() && s.subrange(0, 4) == i32_be(v)
    }

    fn deserialize(data: &[u8], pos: usize) -> (r: Result<(Self, usize), CodecError>) {
        proof {
            if pos + 4 <= data@.len() {
                lemma_rest_prefix(data@, pos as int, 4);
            }
            assert(data@.subrange(pos as int, data@.len() as int).len() == data@.len() - pos);
        }
        proof {
            assert forall|v: i32| #[trigger] starts_with_at(data@, pos as int, v.wire()) implies v.wire().len() == 4 by {
                lemma_be_bytes_len(v as u32 as nat, 4);
            }
        }
        read_i32_at(data, pos)
    }
}

/// Reads a big-endian `u64` at `pos`.
pub fn read_u64_at(data: &[u8], pos: usize) -> (r: Result<(u64, usize), CodecError>)
    requires
        pos <= data@.len(),
    ensures
        r matches Ok((v, end)) ==> end == pos + 8 && end <= data@.len() && data@.subrange(pos as int, end as int) == u64_be(v),
        pos + 8 > data@.len() ==> r == Err::<(u64, usize), CodecError>(CodecError::Truncated),
        pos + 8 <= data@.len() ==> r is Ok,
        forall|v: u64| #[trigger] starts_with_at(data@, pos as int, u64_be(v)) ==> r == Ok::<(u64, usize), CodecError>((v, (pos + 8) as usize)),
{
    proof {
        lemma_pow256_values();
        assert forall|v: u64| #[trigger] starts_with_at(data@, pos as int, u64_be(v)) implies pos
            + 8 <= data@.len() && be_value(data@.subrange(pos as int, pos + 8)) == v as nat by {
            lemma_be_bytes_len(v as nat, 8);
            lemma_be_round_trip(v as nat, 8);
        }
    }
    match read_fixed(data, pos, 8) {
        Ok((x, end)) => {
            proof {
                crate::codec::lemma_be_value_bound(data@.subrange(pos as int, pos + 8));
                lemma_be_bytes_of_value(data@.subrange(pos as int, pos + 8));
            }
                let z = x as u64;
                Ok((z, end))
        },
        Err(e) => Err(e),
    }
}

impl Serializable for u64 {
    open spec fn wire(&self) -> Seq<u8> {
        u64_be(*self)
    }

    open spec fn encodable(&self) -> bool {
        true
    }

    fn serialize(&self, out: &mut Vec<u8>) {
        push_be(out, *self as u128, 8);
    }
}

impl Deserializable for u64 {
    open spec fn read_fails(s: Seq<u8>) -> Option<CodecError> {
        fixed_fails(s, 8)
    }

    open spec fn read_gives(s: Seq<u8>, v: Self, n: nat) -> bool {
        n == 8 && 8 <= s.len() && s.subrange(0, 8) == u64_be(v)
    }

    fn deserialize(data: &[u8], pos: usize) -> (r: Result<(Self, usize), CodecError>) {
        proof {
            if pos + 8 <= data@.len() {
                lemma_rest_prefix(data@, pos as int, 8);
            }
            assert(data@.subrange(pos as int, data@.len() as int).len() == data@.len() - pos);
        }
        proof {
            assert forall|v: u64| #[trigger] starts_with_at(data@, pos as int, v.wire()) implies v.wire().len() == 8 by {
                lemma_be_bytes_len(v as nat, 8);
            }
        }
        read_u64_at(data, pos)
    }
}

/// Reads a big-endian `i64` at `pos`.
pub fn read_i64_at(data: &[u8], pos: usize) -> (r: Result<(i64, usize), CodecError>)
    requires
        pos <= data@.len(),
    ensures
        r matches Ok((v, end)) ==> end == pos + 8 && end <= data@.len() && data@.subrange(pos as int, end as int) == i64_be(v),
        pos + 8 > data@.len() ==> r == Err::<(i64, usize), CodecError>(CodecError::Truncated),
        pos + 8 <= data@.len() ==> r is Ok,
        forall|v: i64| #[trigger] starts_with_at(data@, pos as int, i64_be(v)) ==> r == Ok::<(i64, usize), CodecError>((v, (pos + 8) as usize)),
{
    proof {
        lemma_pow256_values();
        assert forall|v: i64| #[trigger] starts_with_at(data@, pos as int, i64_be(v)) implies pos
            + 8 <= data@.len() && be_value(data@.subrange(pos as int, pos + 8)) == v as u64 as nat by {
            lemma_be_bytes_len(v as u64 as nat, 8);
            lemma_be_round_trip(v as u64 as nat, 8);
        }
    }
    match read_fixed(data, pos, 8) {
        Ok((x, end)) => {
            proof {
                crate::codec::lemma_be_value_bound(data@.subrange(pos as int, pos + 8));
                lemma_be_bytes_of_value(data@.subrange(pos as int, pos + 8));
            }
                let y = x as u64;
                let z = y as i64;
                proof {
                    assert(((y as i64) as u64) == y) by (bit_vector);
                    assert forall|v: i64| #[trigger]
                        starts_with_at(data@, pos as int, i64_be(v)) implies z == v && end == pos + 8 by {
                        assert(y == v as u64);
                        assert(((v as u64) as i64) == v) by (bit_vector);
                    }
                }
                Ok((z, end))
        },
        Err(e) => Err(e),
    }
}

impl Serializable for i64 {
    open spec fn wire(&self) -> Seq<u8> {
        i64_be(*self)
    }

    open spec fn encodable(&self) -> bool {
        true
    }

    fn serialize(&self, out: &mut Vec<u8>) {
        push_be(out, *self as u64 as u128, 8);
    }
}

impl Deserializable for i64 {
    open spec fn read_fails(s: Seq<u8>) -> Option<CodecError> {
        fixed_fails(s, 8)
    }

    open spec fn read_gives(s: Seq<u8>, v: Self, n: nat) -> bool {
        n == 8 && 8 <= s.len() && s.subrange(0, 8) == i64_be(v)
    }

    fn deserialize(data: &[u8], pos: usize) -> (r: Result<(Self, usize), CodecError>) {
        proof {
            if pos + 8 <= data@.len() {
                lemma_rest_prefix(data@, pos as int, 8);
            }
            assert(data@.subrange(pos as int, data@.len() as int).len() == data@.len() - pos);
        }
        proof {
            assert forall|v: i64| #[trigger] starts_with_at(data@, pos as int, v.wire()) implies v.wire().len() == 8 by {
                lemma_be_bytes_len(v as u64 as nat, 8);
            }
        }
        read_i64_at(data, pos)
    }
}

impl Serializable for u128 {
    open spec fn wire(&self) -> Seq<u8> {
        u128_be(*self)
    }

    open spec fn encodable(&self) -> bool {
        true
    }

    fn serialize(&self, out: &mut Vec<u8>) {
        push_be(out, *self, 16);
    }
}

impl Deserializable for u128 {
    open spec fn read_fails(s: Seq<u8>) -> Option<CodecError> {
        fixed_fails(s, 16)
    }

    open spec fn read_gives(s: Seq<u8>, v: Self, n: nat) -> bool {
        n == 16 && 16 <= s.len() && be_value(s.subrange(0, 16)) == v as nat
    }

    fn deserialize(data: &[u8], pos: usize) -> (r: Result<(Self, usize), CodecError>) {
        proof {
            if pos + 16 <= data@.len() {
                lemma_rest_prefix(data@, pos as int, 16);
                crate::codec::lemma_be_value_bound(data@.subrange(pos as int, pos + 16));
                lemma_pow256_values();
            }
            assert(data@.subrange(pos as int, data@.len() as int).len() == data@.len() - pos);
        }
        proof {
            lemma_pow256_values();
            assert forall|v: u128| #[trigger] starts_with_at(data@, pos as int, v.wire()) implies pos
                + 16 <= data@.len() && be_value(data@.subrange(pos as int, pos + 16)) == v by {
                lemma_be_bytes_len(v as nat, 16);
                lemma_be_round_trip(v as nat, 16);
            }
        }
        let r = read_fixed(data, pos, 16);
        proof {
            assert forall|v: u128| #[trigger]
                starts_with_at(data@, pos as int, v.wire()) implies r == Ok::<(u128, usize), CodecError>((v, (pos + 16) as usize)) && 16 == v.wire().len() by {
                lemma_be_bytes_len(v as nat, 16);
            }
        }
        r
    }
}

impl Serializable for VarInt {
    open spec fn wire(&self) -> Seq<u8> {
        varint_wire(self.0)
    }

    open spec fn encodable(&self) -> bool {
        true
    }

    fn serialize(&self, out: &mut Vec<u8>) {
        self.encode(out);
    }
}

impl Deserializable for VarInt {
    open spec fn read_fails(s: Seq<u8>) -> Option<CodecError> {
        match varint_read(s) {
            Err(e) => Some(e),
            Ok(_) => None,
        }
    }

    open spec fn read_gives(s: Seq<u8>, v: Self, n: nat) -> bool {
        varint_read(s) == Ok::<(i32, nat), CodecError>((v.0, n))
    }

    fn deserialize(data: &[u8], pos: usize) -> (r: Result<(Self, usize), CodecError>) {
        proof {
            assert forall|v: VarInt| #[trigger] starts_with_at(data@, pos as int, v.wire()) implies varint_read(
                data@.subrange(pos as int, data@.len() as int),
            ) == Ok::<(i32, nat), CodecError>((v.0, v.wire().len())) by {
                let w = v.wire();
                let rest = data@.subrange(pos + w.len(), data@.len() as int);
                assert(data@.subrange(pos as int, data@.len() as int) =~= w + rest);
                lemma_varint_round_trip(v.0, rest);
            }
        }
        VarInt::decode(data, pos)
    }
}

impl Serializable for VarLong {
    open spec fn wire(&self) -> Seq<u8> {
        varlong_wire(self.0)
    }

    open spec fn encodable(&self) -> bool {
        true
    }

    fn serialize(&self, out: &mut Vec<u8>) {
        self.encode(out);
    }
}

impl Deserializable for VarLong {
    open spec fn read_fails(s: Seq<u8>) -> Option<CodecError> {
        match varlong_read(s) {
            Err(e) => Some(e),
            Ok(_) => None,
        }
    }

    open spec fn read_gives(s: Seq<u8>, v: Self, n: nat) -> bool {
        varlong_read(s) == Ok::<(i64, nat), CodecError>((v.0, n))
    }

    fn deserialize(data: &[u8], pos: usize) -> (r: Result<(Self, usize), CodecError>) {
        proof {
            assert forall|v: VarLong| #[trigger] starts_with_at(data@, pos as int, v.wire()) implies varlong_read(
                data@.subrange(pos as int, data@.len() as int),
            ) == Ok::<(i64, nat), CodecError>((v.0, v.wire().len())) by {
                let w = v.wire();
                let rest = data@.subrange(pos + w.len(), data@.len() as int);
                assert(data@.subrange(pos as int, data@.len() as int) =~= w + rest);
                lemma_varlong_round_trip(v.0, rest);
            }
        }
        VarLong::decode(data, pos)
    }
}

/// The wire form of a string: its UTF-8 byte count as a variable-length integer, then the bytes.
pub open spec fn string_wire(s: Seq<char>) -> Seq<u8> {
    varint_wire(encode_utf8(s).len() as i32) + encode_utf8(s)
}

/// Appends the wire form of `s`.
pub fn write_string(out: &mut Vec<u8>, s: &str)
    ensures
        final(out)@ == old(out)@ + string_wire(s@),
{
    let b = s.as_bytes();
    let n: usize = b.len();
    VarInt(#[verifier::truncate] (n as i32)).encode(out);
    push_all(out, b);
    assert(final(out)@ =~= old(out)@ + string_wire(s@));
}

/// Reads a string's wire form at `pos`.
/// Reading a variable-length count and that many bytes from the front of `s`: the bytes and
/// how many bytes it took in all.
pub open spec fn bytes_read(s: Seq<u8>) -> Result<(Seq<u8>, nat), CodecError> {
    match varint_read(s) {
        Err(e) => Err(e),
        Ok((l, k)) => if l < 0 {
            Err(CodecError::NegativeLength)
        } else if s.len() < k + l {
            Err(CodecError::Truncated)
        } else {
            Ok((s.subrange(k as int, k + l), (k + l) as nat))
        },
    }
}

/// Reading a string's wire form from the front of `s`: its characters and its length.
pub open spec fn string_read(s: Seq<u8>) -> Result<(Seq<char>, nat), CodecError> {
    match bytes_read(s) {
        Err(e) => Err(e),
        Ok((b, n)) => if valid_utf8(b) {
            Ok((decode_utf8(b), n))
        } else {
            Err(CodecError::BadUtf8)
        },
    }
}

pub fn read_string(data: &[u8], pos: usize) -> (r: Result<(String, usize), CodecError>)
    requires
        pos <= data@.len(),
    ensures
        r matches Ok((s, end)) ==> pos <= end <= data@.len(),
        match string_read(data@.subrange(pos as int, data@.len() as int)) {
            Ok((c, n)) => r matches Ok((st, end)) && st@ == c && end == pos + n,
            Err(e) => r == Err::<(String, usize), CodecError>(e),
        },
        forall|c: Seq<char>|
            encode_utf8(c).len() <= i32::MAX && #[trigger] starts_with_at(data@, pos as int, string_wire(c))
                ==> (r matches Ok((s, end)) && s@ == c && end == pos + string_wire(c).len()),
{
    proof {
        assert forall|c: Seq<char>|
            encode_utf8(c).len() <= i32::MAX && #[trigger] starts_with_at(
                data@,
                pos as int,
                string_wire(c),
            ) implies varint_read(data@.subrange(pos as int, data@.len() as int)) == Ok::<
            (i32, nat),
            CodecError,
        >((encode_utf8(c).len() as i32, varint_wire(encode_utf8(c).len() as i32).len())) by {
            let n = encode_utf8(c).len() as i32;
            let rest = data@.subrange(pos + varint_wire(n).len(), data@.len() as int);
            assert(data@.subrange(pos as int, data@.len() as int) =~= varint_wire(n) + rest);
            lemma_varint_round_trip(n, rest);
        }
    }
    let (n, p) = match VarInt::decode(data, pos) {
        Ok(x) => x,
        Err(e) => return Err(e),
    };
    if n.0 < 0 {
        return Err(CodecError::NegativeLength);
    }
    let len = n.0 as usize;
    if data.len() - p < len {
        return Err(CodecError::Truncated);
    }
    let bytes = copy_range(data, p, p + len);
    assert(bytes@ =~= data@.subrange(pos as int, data@.len() as int).subrange(p - pos, p - pos + len));
    proof {
        assert forall|c: Seq<char>|
            encode_utf8(c).len() <= i32::MAX && #[trigger] starts_with_at(
                data@,
                pos as int,
                string_wire(c),
            ) implies bytes@ == encode_utf8(c) by {
            let w = string_wire(c);
            let vw = varint_wire(encode_utf8(c).len() as i32);
            assert(data@.subrange(pos as int, pos + w.len()) == w);
            assert(bytes@ =~= w.subrange(vw.len() as int, w.len() as int));
        }
    }
    match string_from_utf8(bytes) {
        Some(s) => {
            proof {
                assert forall|c: Seq<char>|
                    encode_utf8(c).len() <= i32::MAX && #[trigger] starts_with_at(
                        data@,
                        pos as int,
                        string_wire(c),
                    ) implies s@ == c by {
                    encode_utf8_decode_utf8(c);
                }
            }
            Ok((s, p + len))
        },
        None => {
            proof {
                assert forall|c: Seq<char>|
                    encode_utf8(c).len() <= i32::MAX && #[trigger] starts_with_at(
                        data@,
                        pos as int,
                        string_wire(c),
                    ) implies false by {
                    encode_utf8_valid_utf8(c);
                }
            }
            Err(CodecError::BadUtf8)
        },
    }
}

impl Serializable for String {
    open spec fn wire(&self) -> Seq<u8> {
        string_wire(self@)
    }

    open spec fn encodable(&self) -> bool {
        encode_utf8(self@).len() <= i32::MAX
    }

    fn serialize(&self, out: &mut Vec<u8>) {
        write_string(out, self.as_str());
    }
}

impl Deserializable for String {
    open spec fn read_fails(s: Seq<u8>) -> Option<CodecError> {
        match string_read(s) {
            Err(e) => Some(e),
            Ok(_) => None,
        }
    }

    open spec fn read_gives(s: Seq<u8>, v: Self, n: nat) -> bool {
        string_read(s) == Ok::<(Seq<char>, nat), CodecError>((v@, n))
    }

    fn deserialize(data: &[u8], pos: usize) -> (r: Result<(Self, usize), CodecError>) {
        let r = read_string(data, pos);
        proof {
            assert forall|v: String|
                v.encodable() && #[trigger] starts_with_at(data@, pos as int, v.wire()) implies (r matches Ok(
                    (w, end),
                ) && w.wire() == v.wire() && end == pos + v.wire().len()) by {
                assert(starts_with_at(data@, pos as int, string_wire(v@)));
            }
        }
        r
    }
}

/// A read-only byte queue: values are taken from the front.
pub struct Queue {
    data: Vec<u8>,
    cursor: usize,
}

impl Queue {
    /// The bytes not yet taken.
    pub closed spec fn rest(&self) -> Seq<u8> {
        self.data@.subrange(self.cursor as int, self.data@.len() as int)
    }

    pub closed spec fn wf(&self) -> bool {
        self.cursor <= self.data@.len()
    }

    pub fn new(data: Vec<u8>) -> (r: Queue)
        ensures
            r.wf(),
            r.rest() == data@,
    {
        let r = Queue { data, cursor: 0 };
        assert(r.rest() =~= r.data@);
        r
    }

    /// How many bytes are left.
    pub fn bytes_left(&self) -> (r: usize)
        requires
            self.wf(),
        ensures
            r == self.rest().len(),
    {
        self.data.len() - self.cursor
    }

    /// Takes a value from the front. Where the wire form of an encodable value is at the
    /// front, that value (up to its wire form) is taken and exactly its bytes consumed; where
    /// nothing can be read, `None` and nothing is consumed.
    pub fn pop<T: Deserializable>(&mut self) -> (r: Option<T>)
        requires
            old(self).wf(),
        ensures
            final(self).wf(),
            r is None ==> final(self).rest() == old(self).rest(),
            r is None <==> T::read_fails(old(self).rest()) is Some,
            r matches Some(v) ==> old(self).rest().len() >= final(self).rest().len() && T::read_gives(
                old(self).rest(),
                v,
                (old(self).rest().len() - final(self).rest().len()) as nat,
            ) && final(self).rest() == old(self).rest().skip(old(self).rest().len() - final(self).rest().len()),
            forall|v: T| v.encodable() && #[trigger] starts_with_at(old(self).rest(), 0, v.wire()) ==> (r matches Some(w)
                && w.wire() == v.wire() && final(self).rest() == old(self).rest().subrange(v.wire().len() as int, old(self).rest().len() as int)),
    {
        let ghost before = self.rest();
        match T::deserialize(self.data.as_slice(), self.cursor) {
            Ok((v, end)) => {
                proof {
                    assert forall|x: T| x.encodable() && #[trigger] starts_with_at(before, 0, x.wire()) implies starts_with_at(self.data@, self.cursor as int, x.wire()) by {
                        assert(self.data@.subrange(self.cursor as int, self.cursor + x.wire().len()) =~= before.subrange(0, x.wire().len() as int));
                    }
                }
                self.cursor = end;
                proof {
                    assert forall|x: T| x.encodable() && #[trigger] starts_with_at(before, 0, x.wire()) implies self.rest() == before.subrange(x.wire().len() as int, before.len() as int) by {
                        assert(self.rest() =~= before.subrange(x.wire().len() as int, before.len() as int));
                    }
                }
                Some(v)
            },
            Err(_) => {
                proof {
                    assert forall|x: T| x.encodable() && #[trigger] starts_with_at(before, 0, x.wire()) implies false by {
                        assert(self.data@.subrange(self.cursor as int, self.cursor + x.wire().len()) =~= before.subrange(0, x.wire().len() as int));
                        assert(starts_with_at(self.data@, self.cursor as int, x.wire()));
                    }
                }
                None
            },
        }
    }

    /// Takes `len` bytes as UTF-8 text; `None`, with nothing consumed, where fewer remain or
    /// they are not UTF-8.
    pub fn pop_str(&mut self, len: usize) -> (r: Option<String>)
        requires
            old(self).wf(),
        ensures
            final(self).wf(),
            (len <= old(self).rest().len() && valid_utf8(old(self).rest().take(len as int))) ==> (r matches Some(s)
                && s@ == decode_utf8(old(self).rest().take(len as int))
                && final(self).rest() == old(self).rest().skip(len as int)),
            !(len <= old(self).rest().len() && valid_utf8(old(self).rest().take(len as int))) ==> (r is None
                && final(self).rest() == old(self).rest()),
    {
        if self.data.len() - self.cursor < len {
            return None;
        }
        let bytes = copy_range(self.data.as_slice(), self.cursor, self.cursor + len);
        assert(bytes@ =~= self.rest().take(len as int));
        match string_from_utf8(bytes) {
            Some(s) => {
                let ghost before = self.rest();
                self.cursor = self.cursor + len;
                assert(self.rest() =~= before.skip(len as int));
                Some(s)
            },
            None => None,
        }
    }

    /// The bytes not yet taken.
    pub fn into_bytes(self) -> (r: Vec<u8>)
        requires
            self.wf(),
        ensures
            r@ == self.rest(),
    {
        copy_range(self.data.as_slice(), self.cursor, self.data.len())
    }
}

/// `b` with `w` written at `at`: the bytes before `at`, then `w`, then whatever of `b` lies
/// past the written bytes.
pub open spec fn overwritten(b: Seq<u8>, at: int, w: Seq<u8>) -> Seq<u8> {
    b.subrange(0, at) + w + if at + w.len() < b.len() {
        b.subrange(at + w.len(), b.len() as int)
    } else {
        Seq::empty()
    }
}

/// A growable byte buffer with one cursor for reading and writing: both happen at the
/// cursor and move it past the bytes read or written.
pub struct Buffer {
    pub buffer: Vec<u8>,
    pub cursor: usize,
}

impl Buffer {
    pub open spec fn wf(&self) -> bool {
        self.cursor <= self.buffer@.len()
    }

    pub fn new() -> (r: Buffer)
        ensures
            r.wf(),
            r.buffer@.len() == 0,
            r.cursor == 0,
    {
        Buffer { buffer: Vec::new(), cursor: 0 }
    }

    pub fn from_bytes(bytes: &[u8]) -> (r: Buffer)
        ensures
            r.wf(),
            r.buffer@ == bytes@,
            r.cursor == 0,
    {
        Buffer { buffer: copy_range(bytes, 0, bytes.len()), cursor: 0 }
    }

    /// `Ok` where `size` more bytes can be read from the cursor, else how many are missing.
    pub fn has_space_left(&self, size: usize) -> (r: Result<(), usize>)
        requires
            self.wf(),
        ensures
            self.cursor + size <= self.buffer@.len() ==> r is Ok,
            self.cursor + size > self.buffer@.len() ==> r == Err::<(), usize>(
                (self.cursor + size - self.buffer@.len()) as usize,
            ),
    {
        let left = self.buffer.len() - self.cursor;
        if size > left {
            Err(size - left)
        } else {
            Ok(())
        }
    }

    /// Reads a value at the cursor and moves past it; the cursor stays where reading fails.
    pub fn read<T: Deserializable>(&mut self) -> (r: Result<T, CodecError>)
        requires
            old(self).wf(),
        ensures
            final(self).wf(),
            final(self).buffer == old(self).buffer,
            r is Err ==> final(self).cursor == old(self).cursor,
            r matches Err(e) ==> T::read_fails(old(self).buffer@.subrange(old(self).cursor as int, old(self).buffer@.len() as int))
                == Some(e),
            r is Ok ==> T::read_fails(old(self).buffer@.subrange(old(self).cursor as int, old(self).buffer@.len() as int)) is None,
            r matches Ok(v) ==> old(self).cursor <= final(self).cursor && T::read_gives(
                old(self).buffer@.subrange(old(self).cursor as int, old(self).buffer@.len() as int),
                v,
                (final(self).cursor - old(self).cursor) as nat,
            ),
            forall|v: T| v.encodable() && #[trigger] starts_with_at(old(self).buffer@, old(self).cursor as int, v.wire()) ==> (r matches Ok(w)
                && w.wire() == v.wire() && final(self).cursor == old(self).cursor + v.wire().len()),
    {
        match T::deserialize(self.buffer.as_slice(), self.cursor) {
            Ok((v, end)) => {
                self.cursor = end;
                Ok(v)
            },
            Err(e) => Err(e),
        }
    }

    /// Writes a value's wire form at the cursor, over any bytes there and past the end as
    /// needed, and moves the cursor past it.
    pub fn write<T: Serializable>(&mut self, value: &T)
        requires
            old(self).wf(),
        ensures
            final(self).wf(),
            final(self).buffer@ == overwritten(old(self).buffer@, old(self).cursor as int, value.wire()),
            final(self).cursor == old(self).cursor + value.wire().len(),
            old(self).cursor == old(self).buffer@.len() ==> final(self).buffer@ == old(self).buffer@ + value.wire(),
    {
        let mut w: Vec<u8> = Vec::new();
        value.serialize(&mut w);
        assert(w@ =~= value.wire());
        let ghost b0 = self.buffer@;
        let ghost c0 = self.cursor as int;
        let mut i: usize = 0;
        while i < w.len()
            invariant
                i <= w@.len(),
                w@ == value.wire(),
                0 <= c0 <= b0.len(),
                self.cursor == c0 + i,
                self.cursor <= self.buffer@.len(),
                self.buffer@ == overwritten(b0, c0, w@.take(i as int)),
            decreases w@.len() - i,
        {
            let ghost before = self.buffer@;
            if self.cursor < self.buffer.len() {
                self.buffer.set(self.cursor, w[i]);
            } else {
                self.buffer.push(w[i]);
            }
            proof {
                assert(self.buffer@ =~= overwritten(b0, c0, w@.take(i + 1)));
            }
            assert(self.cursor < self.buffer.len());
            self.cursor = self.cursor + 1;
            i = i + 1;
        }
        assert(w@.take(w@.len() as int) =~= w@);
        proof {
            if c0 == b0.len() {
                assert(overwritten(b0, c0, w@) =~= b0 + w@);
            }
        }
    }
}

} // verus!
