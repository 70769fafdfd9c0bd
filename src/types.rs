//! Identifiers, packed block positions, angles and byte arrays as packet fields.
use vstd::prelude::*;
use vstd::string::*;
use crate::codec::{push_all, u64_be, CodecError};
use crate::varint::{varint_wire, VarInt};
use crate::wire::{
    bytes_read, string_read, copy_range, read_string, read_u64_at, starts_with_at, string_wire, write_string,
    Deserializable, Serializable,
};

verus! {

/// `minecraft`, the namespace of an identifier written without one.
pub open spec fn minecraft_chars() -> Seq<char> {
    seq!['m', 'i', 'n', 'e', 'c', 'r', 'a', 'f', 't']
}

/// `null`, the key of the identifier that malformed text stands for.
pub open spec fn null_chars() -> Seq<char> {
    seq!['n', 'u', 'l', 'l']
}

/// How many `:` are in `s`.
pub open spec fn colons(s: Seq<char>) -> nat
    decreases s.len(),
{
    if s.len() == 0 {
        0
    } else {
        colons(s.drop_last()) + if s.last() == ':' { 1nat } else { 0nat }
    }
}

/// The first position of `:` in `s`.
pub open spec fn first_colon(s: Seq<char>, i: int) -> bool {
    0 <= i < s.len() && s[i] == ':' && forall|j: int| 0 <= j < i ==> #[trigger] s[j] != ':'
}

/// What text parses to: `key` alone is in the `minecraft` namespace, `namespace:key` splits
/// at the colon, and text with more than one colon stands for `minecraft:null`.
pub open spec fn parse_identifier(s: Seq<char>) -> (Seq<char>, Seq<char>) {
    if colons(s) == 0 {
        (minecraft_chars(), s)
    } else if colons(s) == 1 {
        let i = choose|i: int| first_colon(s, i);
        (s.subrange(0, i), s.subrange(i + 1, s.len() as int))
    } else {
        (minecraft_chars(), null_chars())
    }
}

/// A namespaced identifier, `namespace:key`.
#[derive(Debug, Clone, PartialEq, Eq, Hash)]
pub struct Identifier {
    pub namespace: String,
    pub key: String,
}

impl Identifier {
    pub open spec fn text(&self) -> Seq<char> {
        self.namespace@ + seq![':'] + self.key@
    }

    pub fn new(namespace: &str, key: &str) -> (r: Identifier)
        ensures
            r.namespace@ == namespace@,
            r.key@ == key@,
    {
        Identifier { namespace: String::from_str(namespace), key: String::from_str(key) }
    }

    /// An identifier in the `minecraft` namespace.
    pub fn default_namespace(key: &str) -> (r: Identifier)
        ensures
            r.namespace@ == minecraft_chars(),
            r.key@ == key@,
    {
        proof {
            reveal_strlit("minecraft");
        }
        Identifier { namespace: String::from_str("minecraft"), key: String::from_str(key) }
    }

    /// `namespace:key` as text.
    pub fn to_text(&self) -> (r: String)
        ensures
            r@ == self.text(),
    {
        proof {
            reveal_strlit(":");
        }
        let s = self.namespace.clone().concat(":");
        s.concat(self.key.as_str())
    }

    /// Parses text as `parse_identifier` says.
    pub fn from_text(s: &str) -> (r: Identifier)
        ensures
            (r.namespace@, r.key@) == parse_identifier(s@),
    {
        let n = s.unicode_len();
        let mut count: usize = 0;
        let mut first: usize = n;
        let mut i: usize = 0;
        while i < n
            invariant
                i <= n,
                n == s@.len(),
                count == colons(s@.subrange(0, i as int)),
                count == 0 ==> first == n,
                count > 0 ==> first_colon(s@, first as int) && first < i,
                count <= i,
            decreases n - i,
        {
            let c = s.get_char(i);
            proof {
                assert(s@.subrange(0, i + 1).drop_last() =~= s@.subrange(0, i as int));
                if count == 0 {
                    assert forall|j: int| 0 <= j < i implies #[trigger] s@[j] != ':' by {
                        lemma_no_colons(s@.subrange(0, i as int), j);
                    }
                }
            }
            if c == ':' {
                if count == 0 {
                    first = i;
                }
                count = count + 1;
            }
            i = i + 1;
        }
        assert(s@.subrange(0, n as int) =~= s@);
        if count == 0 {
            Identifier::default_namespace(s)
        } else if count == 1 {
            proof {
                lemma_first_colon_unique(s@, first as int);
            }
            Identifier {
                namespace: String::from_str(s.substring_char(0, first)),
                key: String::from_str(s.substring_char(first + 1, n)),
            }
        } else {
            proof {
                reveal_strlit("null");
            }
            Identifier::default_namespace("null")
        }
    }
}

pub proof fn lemma_no_colons(s: Seq<char>, j: int)
    requires
        colons(s) == 0,
        0 <= j < s.len(),
    ensures
        s[j] != ':',
    decreases s.len(),
{
    if j < s.len() - 1 {
        lemma_no_colons(s.drop_last(), j);
    }
}

pub proof fn lemma_first_colon_unique(s: Seq<char>, i: int)
    requires
        first_colon(s, i),
    ensures
        forall|k: int| #[trigger] first_colon(s, k) ==> k == i,
{
    assert forall|k: int| #[trigger] first_colon(s, k) implies k == i by {
        if k < i {
            assert(s[k] != ':');
        }
        if k > i {
            assert(s[i] != ':');
        }
    }
}

pub proof fn lemma_colons_concat(a: Seq<char>, b: Seq<char>)
    ensures
        colons(a + b) == colons(a) + colons(b),
    decreases b.len(),
{
    if b.len() == 0 {
        assert(a + b =~= a);
    } else {
        lemma_colons_concat(a, b.drop_last());
        assert((a + b).drop_last() =~= a + b.drop_last());
    }
}

/// Text written from an identifier whose parts hold no colon parses back to those parts.
pub proof fn lemma_identifier_text_round_trip(ns: Seq<char>, key: Seq<char>)
    requires
        colons(ns) == 0,
        colons(key) == 0,
    ensures
        parse_identifier(ns + seq![':'] + key) == (ns, key),
{
    let s = ns + seq![':'] + key;
    lemma_colons_concat(ns, seq![':']);
    lemma_colons_concat(ns + seq![':'], key);
    assert(colons(seq![':']) == 1) by {
        reveal_with_fuel(colons, 2);
        assert(seq![':'].drop_last() =~= Seq::<char>::empty());
    }
    assert forall|j: int| 0 <= j < ns.len() implies #[trigger] s[j] != ':' by {
        lemma_no_colons(ns, j);
    }
    assert(first_colon(s, ns.len() as int));
    lemma_first_colon_unique(s, ns.len() as int);
    assert(s.subrange(0, ns.len() as int) =~= ns);
    assert(s.subrange(ns.len() + 1int, s.len() as int) =~= key);
}

impl Serializable for Identifier {
    open spec fn wire(&self) -> Seq<u8> {
        string_wire(self.text())
    }

    open spec fn encodable(&self) -> bool {
        vstd::utf8::encode_utf8(self.text()).len() <= i32::MAX && colons(self.namespace@) == 0
            && colons(self.key@) == 0
    }

    fn serialize(&self, out: &mut Vec<u8>) {
        let s = self.to_text();
        write_string(out, s.as_str());
    }
}

impl Deserializable for Identifier {
    open spec fn read_fails(s: Seq<u8>) -> Option<CodecError> {
        match string_read(s) {
            Err(e) => Some(e),
            Ok(_) => None,
        }
    }

    open spec fn read_gives(s: Seq<u8>, v: Self, n: nat) -> bool {
        match string_read(s) {
            Ok((c, m)) => m == n && (v.namespace@, v.key@) == parse_identifier(c),
            Err(_) => false,
        }
    }

    fn deserialize(data: &[u8], pos: usize) -> (r: Result<(Self, usize), CodecError>) {
        let (s, end) = match read_string(data, pos) {
            Ok(x) => x,
            Err(e) => {
                proof {
                    assert forall|v: Identifier|
                        v.encodable() && #[trigger] starts_with_at(data@, pos as int, v.wire()) implies false by {
                        assert(starts_with_at(data@, pos as int, string_wire(v.text())));
                    }
                }
                return Err(e);
            },
        };
        let id = Identifier::from_text(s.as_str());
        proof {
            assert forall|v: Identifier|
                v.encodable() && #[trigger] starts_with_at(data@, pos as int, v.wire()) implies id.wire()
                == v.wire() && end == pos + v.wire().len() by {
                assert(starts_with_at(data@, pos as int, string_wire(v.text())));
                lemma_identifier_text_round_trip(v.namespace@, v.key@);
                assert(id.text() =~= v.text());
            }
        }
        Ok((id, end))
    }
}

/// A block position.
#[derive(Debug, Clone, Copy, PartialEq, Eq, Structural)]
pub struct Position {
    pub x: i32,
    pub z: i32,
    pub y: i16,
}

/// The packed form: `x` in the top 26 bits, `z` in the next 26, `y` in the low 12.
pub open spec fn pack_position(x: i32, y: i16, z: i32) -> u64 {
    ((((x as u32) & 0x3FF_FFFF) as u64) << 38u64) | ((((z as u32) & 0x3FF_FFFF) as u64) << 12u64) | (((
    y as u16) & 0xFFF) as u64)
}

/// The signed number whose 26-bit two's-complement form is `v`.
pub open spec fn sign_extend_26(v: u64) -> int {
    if v >= 0x200_0000 {
        v - 0x400_0000
    } else {
        v as int
    }
}

/// The signed number whose 12-bit two's-complement form is `v`.
pub open spec fn sign_extend_12(v: u64) -> int {
    if v >= 0x800 {
        v - 0x1000
    } else {
        v as int
    }
}

/// The packed form read back: each part sign-extended from its width.
pub open spec fn unpack_position(v: u64) -> (int, int, int) {
    (sign_extend_26((v >> 38u64) & 0x3FF_FFFF), sign_extend_12(v & 0xFFF), sign_extend_26(
        (v >> 12u64) & 0x3FF_FFFF,
    ))
}

/// The coordinates fit the packed widths.
pub open spec fn position_fits(x: int, y: int, z: int) -> bool {
    -0x200_0000 <= x < 0x200_0000 && -0x800 <= y < 0x800 && -0x200_0000 <= z < 0x200_0000
}

impl Position {
    pub fn new(x: i32, y: i16, z: i32) -> (r: Position)
        ensures
            r == (Position { x, z, y }),
    {
        Position { x, z, y }
    }

    pub fn pack(&self) -> (r: u64)
        ensures
            r == pack_position(self.x, self.y, self.z),
    {
        ((((self.x as u32) & 0x3FF_FFFF) as u64) << 38u64) | ((((self.z as u32) & 0x3FF_FFFF) as u64)
            << 12u64) | (((self.y as u16) & 0xFFF) as u64)
    }

    pub fn unpack(v: u64) -> (r: Position)
        ensures
            (r.x as int, r.y as int, r.z as int) == unpack_position(v),
    {
        let xr = (v >> 38u64) & 0x3FF_FFFF;
        let zr = (v >> 12u64) & 0x3FF_FFFF;
        let yr = v & 0xFFF;
        assert(xr < 0x400_0000 && zr < 0x400_0000 && yr < 0x1000) by (bit_vector)
            requires
                xr == (v >> 38u64) & 0x3FF_FFFF,
                zr == (v >> 12u64) & 0x3FF_FFFF,
                yr == v & 0xFFF,
        ;
        let x: i32 = if xr >= 0x200_0000 {
            (xr as i64 - 0x400_0000) as i32
        } else {
            xr as i32
        };
        let z: i32 = if zr >= 0x200_0000 {
            (zr as i64 - 0x400_0000) as i32
        } else {
            zr as i32
        };
        let y: i16 = if yr >= 0x800 {
            (yr as i32 - 0x1000) as i16
        } else {
            yr as i16
        };
        Position { x, z, y }
    }
}

/// Packing then unpacking gives back any position whose coordinates fit the widths.
pub proof fn lemma_position_round_trip(x: i32, y: i16, z: i32)
    requires
        position_fits(x as int, y as int, z as int),
    ensures
        unpack_position(pack_position(x, y, z)) == (x as int, y as int, z as int),
{
    let v = pack_position(x, y, z);
    let xb = (x as u32) & 0x3FF_FFFF;
    let zb = (z as u32) & 0x3FF_FFFF;
    let yb = (y as u16) & 0xFFF;
    assert(xb < 0x400_0000 && zb < 0x400_0000 && yb < 0x1000) by (bit_vector)
        requires
            xb == (x as u32) & 0x3FF_FFFF,
            zb == (z as u32) & 0x3FF_FFFF,
            yb == (y as u16) & 0xFFF,
    ;
    assert((v >> 38u64) & 0x3FF_FFFF == xb as u64 && (v >> 12u64) & 0x3FF_FFFF == zb as u64 && v & 0xFFF
        == yb as u64) by (bit_vector)
        requires
            v == ((xb as u64) << 38u64) | ((zb as u64) << 12u64) | (yb as u64),
            xb < 0x400_0000,
            zb < 0x400_0000,
            yb < 0x1000,
    ;
    lemma_low_bits_i32(x);
    lemma_low_bits_i32(z);
    lemma_low_bits_i16(y);
}

pub proof fn lemma_low_bits_i32(x: i32)
    requires
        -0x200_0000 <= x < 0x200_0000,
    ensures
        sign_extend_26(((x as u32) & 0x3FF_FFFF) as u64) == x,
{
    if x >= 0 {
        assert((x as u32) & 0x3FF_FFFF == x as u32) by (bit_vector)
            requires
                0 <= x < 0x200_0000,
        ;
    } else {
        assert((x as u32) & 0x3FF_FFFF == (x + 0x400_0000) as u32) by (bit_vector)
            requires
                -0x200_0000 <= x < 0,
        ;
    }
}

pub proof fn lemma_low_bits_i16(y: i16)
    requires
        -0x800 <= y < 0x800,
    ensures
        sign_extend_12(((y as u16) & 0xFFF) as u64) == y,
{
    if y >= 0 {
        assert((y as u16) & 0xFFF == y as u16) by (bit_vector)
            requires
                0 <= y < 0x800,
        ;
    } else {
        assert((y as u16) & 0xFFF == (y + 0x1000) as u16) by (bit_vector)
            requires
                -0x800 <= y < 0,
        ;
    }
}

impl Serializable for Position {
    open spec fn wire(&self) -> Seq<u8> {
        u64_be(pack_position(self.x, self.y, self.z))
    }

    open spec fn encodable(&self) -> bool {
        position_fits(self.x as int, self.y as int, self.z as int)
    }

    fn serialize(&self, out: &mut Vec<u8>) {
        let v = self.pack();
        v.serialize(out);
    }
}

impl Deserializable for Position {
    open spec fn read_fails(s: Seq<u8>) -> Option<CodecError> {
        crate::wire::fixed_fails(s, 8)
    }

    /// The eight bytes are read as a big-endian number and unpacked: `x` and `z` sign-extended
    /// from 26 bits, `y` from 12.
    open spec fn read_gives(s: Seq<u8>, v: Self, n: nat) -> bool {
        n == 8 && 8 <= s.len() && (v.x as int, v.y as int, v.z as int) == unpack_position(
            crate::codec::be_value(s.subrange(0, 8)) as u64,
        )
    }

    fn deserialize(data: &[u8], pos: usize) -> (r: Result<(Self, usize), CodecError>) {
        proof {
            if pos + 8 <= data@.len() {
                crate::wire::lemma_rest_prefix(data@, pos as int, 8);
            }
            assert(data@.subrange(pos as int, data@.len() as int).len() == data@.len() - pos);
        }
        match read_u64_at(data, pos) {
            Ok((v, end)) => {
                let p = Position::unpack(v);
                proof {
                    crate::codec::lemma_pow256_values();
                    crate::codec::lemma_be_round_trip(v as nat, 8);
                    assert(crate::codec::be_value(data@.subrange(pos as int, data@.len() as int).subrange(0, 8)) as u64 == v);
                    assert forall|q: Position|
                        q.encodable() && #[trigger] starts_with_at(data@, pos as int, q.wire()) implies p.wire()
                        == q.wire() && end == pos + q.wire().len() by {
                        assert(starts_with_at(data@, pos as int, u64_be(pack_position(q.x, q.y, q.z))));
                        lemma_position_round_trip(q.x, q.y, q.z);
                        crate::codec::lemma_be_bytes_len(pack_position(q.x, q.y, q.z) as nat, 8);
                    }
                }
                Ok((p, end))
            },
            Err(e) => {
                proof {
                    assert forall|q: Position|
                        q.encodable() && #[trigger] starts_with_at(data@, pos as int, q.wire()) implies false by {
                        assert(starts_with_at(data@, pos as int, u64_be(pack_position(q.x, q.y, q.z))));
                    }
                }
                Err(e)
            },
        }
    }
}

/// An angle in 256ths of a full turn.
#[derive(Debug, Clone, Copy, PartialEq, Eq, Structural)]
pub struct Angle(pub u8);

impl Angle {
    pub fn new(angle: u8) -> (r: Angle)
        ensures
            r.0 == angle,
    {
        Angle(angle)
    }
}

/// Bytes written after their count as a variable-length integer.
#[derive(Debug, Clone, PartialEq, Eq)]
pub struct ByteArrayPrefixedLength(pub Vec<u8>);

impl Serializable for ByteArrayPrefixedLength {
    open spec fn wire(&self) -> Seq<u8> {
        varint_wire(self.0@.len() as i32) + self.0@
    }

    open spec fn encodable(&self) -> bool {
        self.0@.len() <= i32::MAX
    }

    fn serialize(&self, out: &mut Vec<u8>) {
        VarInt(#[verifier::truncate] (self.0.len() as i32)).encode(out);
        push_all(out, self.0.as_slice());
        assert(final(out)@ =~= old(out)@ + self.wire());
    }
}

impl Deserializable for ByteArrayPrefixedLength {
    open spec fn read_fails(s: Seq<u8>) -> Option<CodecError> {
        match bytes_read(s) {
            Err(e) => Some(e),
            Ok(_) => None,
        }
    }

    open spec fn read_gives(s: Seq<u8>, v: Self, n: nat) -> bool {
        bytes_read(s) == Ok::<(Seq<u8>, nat), CodecError>((v.0@, n))
    }

    fn deserialize(data: &[u8], pos: usize) -> (r: Result<(Self, usize), CodecError>) {
        proof {
            assert forall|v: ByteArrayPrefixedLength|
                v.encodable() && #[trigger] starts_with_at(data@, pos as int, v.wire()) implies crate::varint::varint_read(
                    data@.subrange(pos as int, data@.len() as int),
                ) == Ok::<(i32, nat), CodecError>((v.0@.len() as i32, varint_wire(v.0@.len() as i32).len()))
                && starts_with_at(data@, pos + varint_wire(v.0@.len() as i32).len(), v.0@) by {
                let n = v.0@.len() as i32;
                let rest = data@.subrange(pos + varint_wire(n).len(), data@.len() as int);
                assert(data@.subrange(pos as int, data@.len() as int) =~= varint_wire(n) + rest);
                crate::varint::lemma_varint_round_trip(n, rest);
                crate::nbt::lemma_starts_with_split(data@, pos as int, varint_wire(n), v.0@);
            }
        }
        let (n, p) = match VarInt::decode(data, pos) {
            Ok(x) => x,
            Err(e) => return Err(e),
        };
        if n.0 < 0 {
            return Err(CodecError::NegativeLength);
        }
        let len = n.0 as usize;
        if data.len() - p < len {
            return Err(CodecError::Truncated);
        }
        let bytes = copy_range(data, p, p + len);
        assert(bytes@ =~= data@.subrange(pos as int, data@.len() as int).subrange(p - pos, p - pos + len));
        Ok((ByteArrayPrefixedLength(bytes), p + len))
    }
}

/// Bytes whose count the enclosing frame implies: written as they are, read to the end.
#[derive(Debug, Clone, PartialEq, Eq)]
pub struct ByteArrayInferredLength(pub Vec<u8>);

impl Serializable for ByteArrayInferredLength {
    open spec fn wire(&self) -> Seq<u8> {
        self.0@
    }

    open spec fn encodable(&self) -> bool {
        true
    }

    fn serialize(&self, out: &mut Vec<u8>) {
        push_all(out, self.0.as_slice());
    }
}

impl ByteArrayInferredLength {
    /// Takes every byte from `pos` to the end.
    pub fn deserialize(data: &[u8], pos: usize) -> (r: (ByteArrayInferredLength, usize))
        requires
            pos <= data@.len(),
        ensures
            r.0.0@ == data@.subrange(pos as int, data@.len() as int),
            r.1 == data@.len(),
    {
        (ByteArrayInferredLength(copy_range(data, pos, data.len())), data.len())
    }
}

/// Bytes that may be absent: a presence flag, then the bytes with their count.
#[derive(Debug, Clone, PartialEq, Eq)]
pub struct OptionalByteArray(pub Option<Vec<u8>>);

impl Serializable for OptionalByteArray {
    open spec fn wire(&self) -> Seq<u8> {
        match self.0 {
            None => seq![0u8],
            Some(b) => seq![1u8] + varint_wire(b@.len() as i32) + b@,
        }
    }

    open spec fn encodable(&self) -> bool {
        match self.0 {
            None => true,
            Some(b) => b@.len() <= i32::MAX,
        }
    }

    fn serialize(&self, out: &mut Vec<u8>) {
        match &self.0 {
            None => out.push(0u8),
            Some(b) => {
                out.push(1u8);
                VarInt(#[verifier::truncate] (b.len() as i32)).encode(out);
                push_all(out, b.as_slice());
            },
        }
        assert(out@ =~= old(out)@ + self.wire());
    }
}

impl Deserializable for OptionalByteArray {
    open spec fn read_fails(s: Seq<u8>) -> Option<CodecError> {
        if s.len() == 0 {
            Some(CodecError::Truncated)
        } else if s[0] == 0 {
            None
        } else {
            match bytes_read(s.drop_first()) {
                Err(e) => Some(e),
                Ok(_) => None,
            }
        }
    }

    /// A zero flag reads as absent; any other flag is followed by the bytes and their count.
    open spec fn read_gives(s: Seq<u8>, v: Self, n: nat) -> bool {
        s.len() > 0 && if s[0] == 0 {
            v.0 is None && n == 1
        } else {
            match bytes_read(s.drop_first()) {
                Ok((b, m)) => n == m + 1 && (v.0 matches Some(x) && x@ == b),
                Err(_) => false,
            }
        }
    }

    fn deserialize(data: &[u8], pos: usize) -> (r: Result<(Self, usize), CodecError>) {
        let ghost rest = data@.subrange(pos as int, data@.len() as int);
        if pos >= data.len() {
            return Err(CodecError::Truncated);
        }
        let flag = data[pos];
        assert(rest[0] == flag);
        assert(rest.drop_first() =~= data@.subrange(pos + 1, data@.len() as int));
        proof {
            assert forall|v: OptionalByteArray|
                v.encodable() && #[trigger] starts_with_at(data@, pos as int, v.wire()) implies (flag == 0
                <==> v.0 is None) && (v.0 matches Some(b) ==> starts_with_at(
                    data@,
                    pos + 1,
                    ByteArrayPrefixedLength(b).wire(),
                )) by {
                assert(data@.subrange(pos as int, pos + v.wire().len())[0] == data@[pos as int]);
                if let Some(b) = v.0 {
                    let w = ByteArrayPrefixedLength(b).wire();
                    assert(v.wire() =~= seq![1u8] + w);
                    crate::nbt::lemma_starts_with_split(data@, pos as int, seq![1u8], w);
                }
            }
        }
        if flag == 0 {
            return Ok((OptionalByteArray(None), pos + 1));
        }
        match ByteArrayPrefixedLength::deserialize(data, pos + 1) {
            Ok((b, end)) => {
                proof {
                    assert forall|v: OptionalByteArray|
                        v.encodable() && #[trigger] starts_with_at(data@, pos as int, v.wire()) implies OptionalByteArray(
                            Some(b.0),
                        ).wire() == v.wire() && end == pos + v.wire().len() by {
                        let vb = v.0->Some_0;
                        assert(starts_with_at(data@, pos + 1, ByteArrayPrefixedLength(vb).wire()));
                        assert(ByteArrayPrefixedLength(vb).encodable());
                        assert(OptionalByteArray(Some(b.0)).wire() =~= seq![1u8] + b.wire());
                        assert(v.wire() =~= seq![1u8] + ByteArrayPrefixedLength(vb).wire());
                    }
                }
                Ok((OptionalByteArray(Some(b.0)), end))
            },
            Err(e) => {
                proof {
                    assert forall|v: OptionalByteArray|
                        v.encodable() && #[trigger] starts_with_at(data@, pos as int, v.wire()) implies false by {
                        let vb = v.0->Some_0;
                        assert(starts_with_at(data@, pos + 1, ByteArrayPrefixedLength(vb).wire()));
                        assert(ByteArrayPrefixedLength(vb).encodable());
                    }
                }
                Err(e)
            },
        }
    }
}

/// Where a player died: the dimension and the block.
#[derive(Debug, Clone, PartialEq, Eq)]
pub struct DeathLocation {
    pub dimension: Identifier,
    pub position: Position,
}

impl Serializable for DeathLocation {
    open spec fn wire(&self) -> Seq<u8> {
        self.dimension.wire() + self.position.wire()
    }

    open spec fn encodable(&self) -> bool {
        self.dimension.encodable() && self.position.encodable()
    }

    fn serialize(&self, out: &mut Vec<u8>) {
        self.dimension.serialize(out);
        self.position.serialize(out);
        assert(out@ =~= old(out)@ + self.wire());
    }
}

} // verus!
