//! Named Binary Tag values: a tagged tree whose scalars are big-endian, whose compounds keep
//! their entries in order, and whose lists hold values of one tag id.
use vstd::prelude::*;
use vstd::utf8::*;
use crate::compress::{gzip_decompress, gzip_inflated, zlib_decompress, zlib_inflated};
use crate::codec::{
    i16_be, i32_be, i64_be, push_all, push_i16, push_i32, push_i64, push_u16, push_u32,
    push_u64, u16_be, u32_be, u64_be, CodecError,
};
use crate::wire::{
    copy_range, read_i16_at, read_i32_at, read_i64_at, read_u16_at, read_u32_at, read_u64_at,
    starts_with_at, string_from_utf8,
};

verus! {

broadcast use vstd::std_specs::vec::axiom_vec_index_decreases;

/// The mathematical value of an NBT tag. Floating-point payloads are kept as their IEEE-754 bits.
pub ghost enum NbtValue {
    Byte(i8),
    Short(i16),
    Int(i32),
    Long(i64),
    Float(u32),
    Double(u64),
    ByteArray(Seq<u8>),
    Str(Seq<char>),
    List(Seq<NbtValue>),
    Compound(Seq<(Seq<char>, NbtValue)>),
    IntArray(Seq<i32>),
    LongArray(Seq<i64>),
}

/// An NBT value. `Float` and `Double` hold the IEEE-754 bit patterns of their numbers.
#[derive(Debug, PartialEq)]
pub enum NBTTag {
    Byte(i8),
    Short(i16),
    Int(i32),
    Long(i64),
    Float(u32),
    Double(u64),
    ByteArray(Vec<u8>),
    String(String),
    List(Vec<NBTTag>),
    Compound(Vec<(String, NBTTag)>),
    IntArray(Vec<i32>),
    LongArray(Vec<i64>),
}

/// The one-byte identifier of a value's variant.
pub open spec fn tag_id(v: NbtValue) -> u8 {
    match v {
        NbtValue::Byte(_) => 1,
        NbtValue::Short(_) => 2,
        NbtValue::Int(_) => 3,
        NbtValue::Long(_) => 4,
        NbtValue::Float(_) => 5,
        NbtValue::Double(_) => 6,
        NbtValue::ByteArray(_) => 7,
        NbtValue::Str(_) => 8,
        NbtValue::List(_) => 9,
        NbtValue::Compound(_) => 10,
        NbtValue::IntArray(_) => 11,
        NbtValue::LongArray(_) => 12,
    }
}

pub open spec fn tags_model(s: Seq<NBTTag>) -> Seq<NbtValue>
    decreases s,
{
    if s.len() == 0 {
        Seq::empty()
    } else {
        tags_model(s.drop_last()).push(s.last().model())
    }
}

pub open spec fn entries_model(s: Seq<(String, NBTTag)>) -> Seq<(Seq<char>, NbtValue)>
    decreases s,
{
    if s.len() == 0 {
        Seq::empty()
    } else {
        entries_model(s.drop_last()).push((s.last().0@, s.last().1.model()))
    }
}

impl NBTTag {
    /// The value this tag stands for.
    pub open spec fn model(&self) -> NbtValue
        decreases self,
    {
        match self {
            NBTTag::Byte(b) => NbtValue::Byte(*b),
            NBTTag::Short(x) => NbtValue::Short(*x),
            NBTTag::Int(x) => NbtValue::Int(*x),
            NBTTag::Long(x) => NbtValue::Long(*x),
            NBTTag::Float(x) => NbtValue::Float(*x),
            NBTTag::Double(x) => NbtValue::Double(*x),
            NBTTag::ByteArray(b) => NbtValue::ByteArray(b@),
            NBTTag::String(s) => NbtValue::Str(s@),
            NBTTag::List(l) => NbtValue::List(tags_model(l@)),
            NBTTag::Compound(c) => NbtValue::Compound(entries_model(c@)),
            NBTTag::IntArray(a) => NbtValue::IntArray(a@),
            NBTTag::LongArray(a) => NbtValue::LongArray(a@),
        }
    }
}

/// The element id a list is written with: that of its first element, or 0 when it is empty.
pub open spec fn list_elem_id(l: Seq<NbtValue>) -> u8 {
    if l.len() == 0 {
        0
    } else {
        tag_id(l[0])
    }
}

pub open spec fn i32s_be(a: Seq<i32>) -> Seq<u8>
    decreases a.len(),
{
    if a.len() == 0 {
        Seq::empty()
    } else {
        i32s_be(a.drop_last()) + i32_be(a.last())
    }
}

pub open spec fn i64s_be(a: Seq<i64>) -> Seq<u8>
    decreases a.len(),
{
    if a.len() == 0 {
        Seq::empty()
    } else {
        i64s_be(a.drop_last()) + i64_be(a.last())
    }
}

/// A string as NBT writes it: its UTF-8 byte count as a `u16`, then the bytes.
pub open spec fn short_string(s: Seq<char>) -> Seq<u8> {
    u16_be(encode_utf8(s).len() as u16) + encode_utf8(s)
}

/// The payload of a value: what follows its id (and name, inside a compound).
pub open spec fn payload(v: NbtValue) -> Seq<u8>
    decreases v,
{
    match v {
        NbtValue::Byte(b) => seq![b as u8],
        NbtValue::Short(x) => i16_be(x),
        NbtValue::Int(x) => i32_be(x),
        NbtValue::Long(x) => i64_be(x),
        NbtValue::Float(x) => u32_be(x),
        NbtValue::Double(x) => u64_be(x),
        NbtValue::ByteArray(b) => i32_be(b.len() as i32) + b,
        NbtValue::Str(s) => short_string(s),
        NbtValue::List(l) => seq![list_elem_id(l)] + i32_be(l.len() as i32) + list_payload(l),
        NbtValue::Compound(c) => compound_payload(c) + seq![0u8],
        NbtValue::IntArray(a) => i32_be(a.len() as i32) + i32s_be(a),
        NbtValue::LongArray(a) => i32_be(a.len() as i32) + i64s_be(a),
    }
}

/// The elements' payloads, one after another, with no ids or names.
pub open spec fn list_payload(l: Seq<NbtValue>) -> Seq<u8>
    decreases l,
{
    if l.len() == 0 {
        Seq::empty()
    } else {
        list_payload(l.drop_last()) + payload(l.last())
    }
}

/// One compound entry: id, name, payload.
pub open spec fn entry_bytes(name: Seq<char>, v: NbtValue) -> Seq<u8> {
    seq![tag_id(v)] + short_string(name) + payload(v)
}

/// The entries of a compound in order, without the closing zero.
pub open spec fn compound_payload(c: Seq<(Seq<char>, NbtValue)>) -> Seq<u8>
    decreases c,
{
    if c.len() == 0 {
        Seq::empty()
    } else {
        compound_payload(c.drop_last()) + seq![tag_id(c.last().1)] + short_string(c.last().0)
            + payload(c.last().1)
    }
}

/// Every list in `v`, at any depth, holds values of a single tag id.
pub open spec fn homogeneous(v: NbtValue) -> bool
    decreases v,
{
    match v {
        NbtValue::List(l) => same_ids(l, list_elem_id(l)) && all_homogeneous(l),
        NbtValue::Compound(c) => entries_homogeneous(c),
        _ => true,
    }
}

pub open spec fn same_ids(l: Seq<NbtValue>, id: u8) -> bool {
    forall|i: int| 0 <= i < l.len() ==> tag_id(#[trigger] l[i]) == id
}

pub open spec fn all_homogeneous(l: Seq<NbtValue>) -> bool
    decreases l,
{
    if l.len() == 0 {
        true
    } else {
        all_homogeneous(l.drop_last()) && homogeneous(l.last())
    }
}

pub open spec fn entries_homogeneous(c: Seq<(Seq<char>, NbtValue)>) -> bool
    decreases c,
{
    if c.len() == 0 {
        true
    } else {
        entries_homogeneous(c.drop_last()) && homogeneous(c.last().1)
    }
}

/// Every length in `v`, at any depth, fits its prefix: `i32` for arrays and lists, `u16`
/// for strings and names.
pub open spec fn sizes_fit(v: NbtValue) -> bool
    decreases v,
{
    match v {
        NbtValue::ByteArray(b) => b.len() <= i32::MAX,
        NbtValue::Str(s) => encode_utf8(s).len() <= u16::MAX,
        NbtValue::List(l) => l.len() <= i32::MAX && all_sizes_fit(l),
        NbtValue::Compound(c) => entries_sizes_fit(c),
        NbtValue::IntArray(a) => a.len() <= i32::MAX,
        NbtValue::LongArray(a) => a.len() <= i32::MAX,
        _ => true,
    }
}

pub open spec fn all_sizes_fit(l: Seq<NbtValue>) -> bool
    decreases l,
{
    if l.len() == 0 {
        true
    } else {
        all_sizes_fit(l.drop_last()) && sizes_fit(l.last())
    }
}

pub open spec fn entries_sizes_fit(c: Seq<(Seq<char>, NbtValue)>) -> bool
    decreases c,
{
    if c.len() == 0 {
        true
    } else {
        entries_sizes_fit(c.drop_last()) && encode_utf8(c.last().0).len() <= u16::MAX
            && sizes_fit(c.last().1)
    }
}

/// A value that can be written and read back: sizes fit and lists are homogeneous.
pub open spec fn well_formed(v: NbtValue) -> bool {
    sizes_fit(v) && homogeneous(v)
}

pub proof fn lemma_tags_model(s: Seq<NBTTag>)
    ensures
        tags_model(s).len() == s.len(),
        forall|i: int| 0 <= i < s.len() ==> #[trigger] tags_model(s)[i] == s[i].model(),
    decreases s.len(),
{
    if s.len() > 0 {
        lemma_tags_model(s.drop_last());
    }
}

pub proof fn lemma_entries_model(s: Seq<(String, NBTTag)>)
    ensures
        entries_model(s).len() == s.len(),
        forall|i: int|
            0 <= i < s.len() ==> #[trigger] entries_model(s)[i] == (s[i].0@, s[i].1.model()),
    decreases s.len(),
{
    if s.len() > 0 {
        lemma_entries_model(s.drop_last());
    }
}

/// Facts about prefixes of a list that its recursive predicates give.
pub proof fn lemma_list_take(l: Seq<NbtValue>, i: int)
    requires
        0 <= i < l.len(),
    ensures
        list_payload(l.take(i + 1)) == list_payload(l.take(i)) + payload(l[i]),
        all_homogeneous(l.take(i + 1)) == (all_homogeneous(l.take(i)) && homogeneous(l[i])),
        all_sizes_fit(l.take(i + 1)) == (all_sizes_fit(l.take(i)) && sizes_fit(l[i])),
{
    assert(l.take(i + 1).drop_last() =~= l.take(i));
}

pub proof fn lemma_entries_take(c: Seq<(Seq<char>, NbtValue)>, i: int)
    requires
        0 <= i < c.len(),
    ensures
        compound_payload(c.take(i + 1)) == compound_payload(c.take(i)) + entry_bytes(c[i].0, c[i].1),
        entries_homogeneous(c.take(i + 1)) == (entries_homogeneous(c.take(i)) && homogeneous(c[i].1)),
        entries_sizes_fit(c.take(i + 1)) == (entries_sizes_fit(c.take(i)) && encode_utf8(c[i].0).len()
            <= u16::MAX && sizes_fit(c[i].1)),
{
    assert(c.take(i + 1).drop_last() =~= c.take(i));
    assert(compound_payload(c.take(i + 1)) =~= compound_payload(c.take(i)) + entry_bytes(c[i].0, c[i].1));
}

/// The recursive predicates over a whole list hold of each element.
pub proof fn lemma_all_elements(l: Seq<NbtValue>, i: int)
    requires
        0 <= i < l.len(),
    ensures
        all_homogeneous(l) ==> homogeneous(l[i]),
        all_sizes_fit(l) ==> sizes_fit(l[i]),
    decreases l.len(),
{
    if i < l.len() - 1 {
        lemma_all_elements(l.drop_last(), i);
    }
}

pub proof fn lemma_all_entries(c: Seq<(Seq<char>, NbtValue)>, i: int)
    requires
        0 <= i < c.len(),
    ensures
        entries_homogeneous(c) ==> homogeneous(c[i].1),
        entries_sizes_fit(c) ==> sizes_fit(c[i].1) && encode_utf8(c[i].0).len() <= u16::MAX,
    decreases c.len(),
{
    if i < c.len() - 1 {
        lemma_all_entries(c.drop_last(), i);
    }
}

/// Appends a string's NBT form.
pub fn push_short_string(out: &mut Vec<u8>, s: &str)
    requires
        encode_utf8(s@).len() <= u16::MAX,
    ensures
        final(out)@ == old(out)@ + short_string(s@),
{
    let b = s.as_bytes();
    push_u16(out, b.len() as u16);
    push_all(out, b);
    assert(final(out)@ =~= old(out)@ + short_string(s@));
}

impl NBTTag {
    /// The one-byte identifier of this tag's variant.
    pub fn id(&self) -> (r: u8)
        ensures
            r == tag_id(self.model()),
    {
        match self {
            NBTTag::Byte(_) => 1,
            NBTTag::Short(_) => 2,
            NBTTag::Int(_) => 3,
            NBTTag::Long(_) => 4,
            NBTTag::Float(_) => 5,
            NBTTag::Double(_) => 6,
            NBTTag::ByteArray(_) => 7,
            NBTTag::String(_) => 8,
            NBTTag::List(_) => 9,
            NBTTag::Compound(_) => 10,
            NBTTag::IntArray(_) => 11,
            NBTTag::LongArray(_) => 12,
        }
    }

    /// Appends this tag's payload. Fails with `MixedListTypes`, exactly when some list in it
    /// holds values of different ids; the bytes written before the failure are then unspecified.
    pub fn write_payload(&self, out: &mut Vec<u8>) -> (r: Result<(), CodecError>)
        requires
            sizes_fit(self.model()),
        ensures
            r is Ok <==> homogeneous(self.model()),
            r is Ok ==> final(out)@ == old(out)@ + payload(self.model()),
            r is Err ==> r == Err::<(), CodecError>(CodecError::MixedListTypes),
        decreases self,
    {
        match self {
            NBTTag::Byte(b) => {
                out.push(#[verifier::truncate] (*b as u8));
                Ok(())
            },
            NBTTag::Short(x) => {
                push_i16(out, *x);
                Ok(())
            },
            NBTTag::Int(x) => {
                push_i32(out, *x);
                Ok(())
            },
            NBTTag::Long(x) => {
                push_i64(out, *x);
                Ok(())
            },
            NBTTag::Float(x) => {
                push_u32(out, *x);
                Ok(())
            },
            NBTTag::Double(x) => {
                push_u64(out, *x);
                Ok(())
            },
            NBTTag::ByteArray(b) => {
                push_i32(out, b.len() as i32);
                push_all(out, b.as_slice());
                Ok(())
            },
            NBTTag::String(s) => {
                push_short_string(out, s.as_str());
                Ok(())
            },
            NBTTag::IntArray(a) => {
                push_i32(out, a.len() as i32);
                let ghost start = out@;
                let mut i: usize = 0;
                while i < a.len()
                    invariant
                        i <= a@.len(),
                        out@ == start + i32s_be(a@.take(i as int)),
                    decreases a@.len() - i,
                {
                    push_i32(out, a[i]);
                    proof {
                        assert(a@.take(i + 1).drop_last() =~= a@.take(i as int));
                    }
                    i = i + 1;
                }
                assert(a@.take(a@.len() as int) =~= a@);
                assert(final(out)@ =~= old(out)@ + payload(self.model()));
                Ok(())
            },
            NBTTag::LongArray(a) => {
                push_i32(out, a.len() as i32);
                let ghost start = out@;
                let mut i: usize = 0;
                while i < a.len()
                    invariant
                        i <= a@.len(),
                        out@ == start + i64s_be(a@.take(i as int)),
                    decreases a@.len() - i,
                {
                    push_i64(out, a[i]);
                    proof {
                        assert(a@.take(i + 1).drop_last() =~= a@.take(i as int));
                    }
                    i = i + 1;
                }
                assert(a@.take(a@.len() as int) =~= a@);
                assert(final(out)@ =~= old(out)@ + payload(self.model()));
                Ok(())
            },
            NBTTag::List(l) => {
                let ghost m = tags_model(l@);
                proof {
                    lemma_tags_model(l@);
                    assert(self.model() == NbtValue::List(m));
                    assert(decreases_to!(self => l));
                }
                let id: u8 = if l.len() == 0 {
                    0
                } else {
                    l[0].id()
                };
                let mut k: usize = 0;
                while k < l.len()
                    invariant
                        k <= l@.len(),
                        m == tags_model(l@),
                        m.len() == l@.len(),
                        self.model() == NbtValue::List(m),
                        id == list_elem_id(m),
                        forall|j: int| 0 <= j < k ==> tag_id(#[trigger] m[j]) == id,
                        forall|j: int| 0 <= j < m.len() ==> #[trigger] m[j] == l@[j].model(),
                    decreases l@.len() - k,
                {
                    if l[k].id() != id {
                        assert(tag_id(m[k as int]) != id);
                        return Err(CodecError::MixedListTypes);
                    }
                    k = k + 1;
                }
                assert(same_ids(m, id));
                out.push(id);
                push_i32(out, l.len() as i32);
                let ghost start = out@;
                let mut i: usize = 0;
                while i < l.len()
                    invariant
                        i <= l@.len(),
                        m == tags_model(l@),
                        m.len() == l@.len(),
                        self.model() == NbtValue::List(m),
                        sizes_fit(NbtValue::List(m)),
                        out@ == start + list_payload(m.take(i as int)),
                        all_homogeneous(m.take(i as int)),
                        forall|j: int| 0 <= j < m.len() ==> #[trigger] m[j] == l@[j].model(),
                        decreases_to!(self => l),
                    decreases l@.len() - i,
                {
                    proof {
                        assert(decreases_to!(l => l[i as int]));
                        lemma_list_take(m, i as int);
                        lemma_all_elements(m, i as int);
                    }
                    match l[i].write_payload(out) {
                        Ok(()) => {},
                        Err(e) => {
                            proof {
                                lemma_all_elements(m, i as int);
                                assert(m[i as int] == l@[i as int].model());
                            }
                            return Err(e);
                        },
                    }
                    i = i + 1;
                }
                assert(m.take(m.len() as int) =~= m);
                assert(final(out)@ =~= old(out)@ + payload(self.model()));
                Ok(())
            },
            NBTTag::Compound(c) => {
                let ghost m = entries_model(c@);
                proof {
                    lemma_entries_model(c@);
                    assert(self.model() == NbtValue::Compound(m));
                    assert(decreases_to!(self => c));
                }
                let ghost start = out@;
                let mut i: usize = 0;
                while i < c.len()
                    invariant
                        i <= c@.len(),
                        m == entries_model(c@),
                        m.len() == c@.len(),
                        self.model() == NbtValue::Compound(m),
                        sizes_fit(NbtValue::Compound(m)),
                        out@ == start + compound_payload(m.take(i as int)),
                        entries_homogeneous(m.take(i as int)),
                        forall|j: int| 0 <= j < m.len() ==> #[trigger] m[j] == (c@[j].0@, c@[j].1.model()),
                        decreases_to!(self => c),
                    decreases c@.len() - i,
                {
                    proof {
                        assert(decreases_to!(c => c[i as int]));
                        assert(decreases_to!(c[i as int] => c[i as int].1));
                        lemma_entries_take(m, i as int);
                        lemma_all_entries(m, i as int);
                    }
                    let entry = &c[i];
                    out.push(entry.1.id());
                    push_short_string(out, entry.0.as_str());
                    match entry.1.write_payload(out) {
                        Ok(()) => {},
                        Err(e) => {
                            assert(m[i as int].1 == c@[i as int].1.model());
                            return Err(e);
                        },
                    }
                    proof {
                        assert(out@ =~= start + compound_payload(m.take(i + 1)));
                    }
                    i = i + 1;
                }
                out.push(0u8);
                assert(m.take(m.len() as int) =~= m);
                assert(final(out)@ =~= old(out)@ + payload(self.model()));
                Ok(())
            },
        }
    }
}

/// Each character takes at most four bytes in UTF-8.
pub proof fn lemma_encode_utf8_len(s: Seq<char>)
    ensures
        encode_utf8(s).len() <= 4 * s.len(),
    decreases s.len(),
{
    if s.len() > 0 {
        lemma_encode_utf8_len(s.drop_first());
    }
}

/// A prefix of `data` at `pos` followed by more bytes.
pub proof fn lemma_starts_with_split(data: Seq<u8>, pos: int, a: Seq<u8>, b: Seq<u8>)
    requires
        starts_with_at(data, pos, a + b),
    ensures
        starts_with_at(data, pos, a),
        starts_with_at(data, pos + a.len(), b),
{
    let w = a + b;
    lemma_starts_with_sub(data, pos, w, 0, a.len() as int);
    lemma_starts_with_sub(data, pos, w, a.len() as int, w.len() as int);
    assert(w.subrange(0, a.len() as int) =~= a);
    assert(w.subrange(a.len() as int, w.len() as int) =~= b);
}

/// Any piece of what stands at `pos` stands at its offset.
pub proof fn lemma_starts_with_sub(data: Seq<u8>, pos: int, w: Seq<u8>, lo: int, hi: int)
    requires
        starts_with_at(data, pos, w),
        0 <= lo <= hi <= w.len(),
    ensures
        starts_with_at(data, pos + lo, w.subrange(lo, hi)),
{
    assert(data.subrange(pos + lo, pos + hi) =~= data.subrange(pos, pos + w.len()).subrange(lo, hi));
}

/// The bytes of element `i` stand at offset `4 * i`.
pub proof fn lemma_i32s_be_elem(a: Seq<i32>, i: int)
    requires
        0 <= i < a.len(),
    ensures
        i32s_be(a).subrange(4 * i, 4 * i + 4) == i32_be(a[i]),
        i32s_be(a).len() == 4 * a.len(),
{
    lemma_i32s_be_prefix(a, i + 1);
    lemma_i32s_be(a, i);
    crate::codec::lemma_be_bytes_len(a[i] as u32 as nat, 4);
    assert(i32s_be(a).subrange(4 * i, 4 * i + 4) =~= i32s_be(a).subrange(0, 4 * (i + 1)).subrange(4 * i, 4 * i + 4));
    assert(i32s_be(a.take(i + 1)).subrange(4 * i, 4 * i + 4) =~= i32_be(a[i]));
}

/// The bytes of element `i` stand at offset `8 * i`.
pub proof fn lemma_i64s_be_elem(a: Seq<i64>, i: int)
    requires
        0 <= i < a.len(),
    ensures
        i64s_be(a).subrange(8 * i, 8 * i + 8) == i64_be(a[i]),
        i64s_be(a).len() == 8 * a.len(),
{
    lemma_i64s_be_prefix(a, i + 1);
    lemma_i64s_be(a, i);
    crate::codec::lemma_be_bytes_len(a[i] as u64 as nat, 8);
    assert(i64s_be(a).subrange(8 * i, 8 * i + 8) =~= i64s_be(a).subrange(0, 8 * (i + 1)).subrange(8 * i, 8 * i + 8));
    assert(i64s_be(a.take(i + 1)).subrange(8 * i, 8 * i + 8) =~= i64_be(a[i]));
}

pub proof fn lemma_i32s_be(a: Seq<i32>, i: int)
    requires
        0 <= i < a.len(),
    ensures
        i32s_be(a).len() == 4 * a.len(),
        i32s_be(a.take(i + 1)) == i32s_be(a.take(i)) + i32_be(a[i]),
        i32s_be(a.take(i)).len() == 4 * i,
    decreases a.len(),
{
    crate::codec::lemma_be_bytes_len(a[i] as u32 as nat, 4);
    assert(a.take(i + 1).drop_last() =~= a.take(i));
    lemma_i32s_be_len(a);
    lemma_i32s_be_len(a.take(i));
}

pub proof fn lemma_i32s_be_len(a: Seq<i32>)
    ensures
        i32s_be(a).len() == 4 * a.len(),
    decreases a.len(),
{
    if a.len() > 0 {
        lemma_i32s_be_len(a.drop_last());
        crate::codec::lemma_be_bytes_len(a.last() as u32 as nat, 4);
    }
}

pub proof fn lemma_i64s_be(a: Seq<i64>, i: int)
    requires
        0 <= i < a.len(),
    ensures
        i64s_be(a).len() == 8 * a.len(),
        i64s_be(a.take(i + 1)) == i64s_be(a.take(i)) + i64_be(a[i]),
        i64s_be(a.take(i)).len() == 8 * i,
{
    crate::codec::lemma_be_bytes_len(a[i] as u64 as nat, 8);
    assert(a.take(i + 1).drop_last() =~= a.take(i));
    lemma_i64s_be_len(a);
    lemma_i64s_be_len(a.take(i));
}

pub proof fn lemma_i64s_be_len(a: Seq<i64>)
    ensures
        i64s_be(a).len() == 8 * a.len(),
    decreases a.len(),
{
    if a.len() > 0 {
        lemma_i64s_be_len(a.drop_last());
        crate::codec::lemma_be_bytes_len(a.last() as u64 as nat, 8);
    }
}

/// Reads a string in NBT form (a `u16` byte count, then UTF-8) at `pos`.
pub fn read_short_string(data: &[u8], pos: usize) -> (r: Result<(String, usize), CodecError>)
    requires
        pos <= data@.len(),
    ensures
        r matches Ok((s, end)) ==> pos < end <= data@.len(),
        forall|c: Seq<char>|
            encode_utf8(c).len() <= u16::MAX && #[trigger] starts_with_at(data@, pos as int, short_string(c))
                ==> (r matches Ok((s, end)) && s@ == c && end == pos + short_string(c).len()),
{
    proof {
        assert forall|c: Seq<char>|
            encode_utf8(c).len() <= u16::MAX && #[trigger] starts_with_at(
                data@,
                pos as int,
                short_string(c),
            ) implies starts_with_at(data@, pos as int, u16_be(encode_utf8(c).len() as u16))
            && starts_with_at(data@, pos + 2, encode_utf8(c)) by {
            crate::codec::lemma_be_bytes_len(encode_utf8(c).len() as u16 as nat, 2);
            lemma_starts_with_split(data@, pos as int, u16_be(encode_utf8(c).len() as u16), encode_utf8(c));
        }
    }
    let (n, p) = match read_u16_at(data, pos) {
        Ok(x) => x,
        Err(e) => return Err(e),
    };
    let len = n as usize;
    if data.len() - p < len {
        return Err(CodecError::Truncated);
    }
    let bytes = copy_range(data, p, p + len);
    match string_from_utf8(bytes) {
        Some(s) => {
            proof {
                assert forall|c: Seq<char>|
                    encode_utf8(c).len() <= u16::MAX && #[trigger] starts_with_at(
                        data@,
                        pos as int,
                        short_string(c),
                    ) implies s@ == c by {
                    encode_utf8_decode_utf8(c);
                }
            }
            Ok((s, p + len))
        },
        None => {
            proof {
                assert forall|c: Seq<char>|
                    encode_utf8(c).len() <= u16::MAX && #[trigger] starts_with_at(
                        data@,
                        pos as int,
                        short_string(c),
                    ) implies false by {
                    encode_utf8_valid_utf8(c);
                }
            }
            Err(CodecError::BadUtf8)
        },
    }
}

/// The list `l` is well formed and its payload stands at `pos`.
pub open spec fn list_at(data: Seq<u8>, pos: int, l: Seq<NbtValue>) -> bool {
    well_formed(NbtValue::List(l)) && starts_with_at(data, pos, payload(NbtValue::List(l)))
}

/// The compound `c` is well formed and its payload stands at `pos`.
pub open spec fn compound_at(data: Seq<u8>, pos: int, c: Seq<(Seq<char>, NbtValue)>) -> bool {
    well_formed(NbtValue::Compound(c)) && starts_with_at(data, pos, payload(NbtValue::Compound(c)))
}

/// Where the payload of a well-formed value with id `id` stands at `pos`, reading gives it.
pub open spec fn reads_back(data: Seq<u8>, pos: int, id: u8, r: Result<(NBTTag, usize), CodecError>) -> bool {
    forall|v: NbtValue|
        tag_id(v) == id && well_formed(v) && #[trigger] starts_with_at(data, pos, payload(v)) ==> (r matches Ok(
            (t, end),
        ) && t.model() == v && end == pos + payload(v).len())
}

impl NBTTag {
    /// Reads the payload of a value with id `id` at `pos`, giving it and the position after it.
    pub fn from_bytes(data: &[u8], pos: usize, id: u8) -> (r: Result<(NBTTag, usize), CodecError>)
        requires
            pos <= data@.len(),
        ensures
            r matches Ok((t, end)) ==> pos < end <= data@.len() && tag_id(t.model()) == id,
            !(1 <= id <= 12) ==> r == Err::<(NBTTag, usize), CodecError>(CodecError::BadTagId(id)),
            reads_back(data@, pos as int, id, r),
        decreases data@.len() - pos, 1nat,
    {
        if id == 1 {
            if pos >= data.len() {
                return Err(CodecError::Truncated);
            }
            let b = data[pos];
            let x = b as i8;
            proof {
                assert forall|v: NbtValue|
                    tag_id(v) == id && well_formed(v) && #[trigger] starts_with_at(data@, pos as int, payload(v))
                        implies v == NbtValue::Byte(x) by {
                    let y = v->Byte_0;
                    assert(data@.subrange(pos as int, pos + 1)[0] == data@[pos as int]);
                    assert((y as u8) as i8 == y) by (bit_vector);
                }
            }
            Ok((NBTTag::Byte(x), pos + 1))
        } else if id == 2 {
            let r = read_i16_at(data, pos);
            proof {
                assert forall|v: NbtValue|
                    tag_id(v) == id && well_formed(v) && #[trigger] starts_with_at(data@, pos as int, payload(v))
                        implies r == Ok::<(i16, usize), CodecError>((v->Short_0, (pos + 2) as usize))
                    && payload(v).len() == 2 by {
                    crate::codec::lemma_be_bytes_len(v->Short_0 as u16 as nat, 2);
                }
            }
            match r {
                Ok((x, end)) => Ok((NBTTag::Short(x), end)),
                Err(e) => Err(e),
            }
        } else if id == 3 {
            let r = read_i32_at(data, pos);
            proof {
                assert forall|v: NbtValue|
                    tag_id(v) == id && well_formed(v) && #[trigger] starts_with_at(data@, pos as int, payload(v))
                        implies r == Ok::<(i32, usize), CodecError>((v->Int_0, (pos + 4) as usize))
                    && payload(v).len() == 4 by {
                    crate::codec::lemma_be_bytes_len(v->Int_0 as u32 as nat, 4);
                }
            }
            match r {
                Ok((x, end)) => Ok((NBTTag::Int(x), end)),
                Err(e) => Err(e),
            }
        } else if id == 4 {
            let r = read_i64_at(data, pos);
            proof {
                assert forall|v: NbtValue|
                    tag_id(v) == id && well_formed(v) && #[trigger] starts_with_at(data@, pos as int, payload(v))
                        implies r == Ok::<(i64, usize), CodecError>((v->Long_0, (pos + 8) as usize))
                    && payload(v).len() == 8 by {
                    crate::codec::lemma_be_bytes_len(v->Long_0 as u64 as nat, 8);
                }
            }
            match r {
                Ok((x, end)) => Ok((NBTTag::Long(x), end)),
                Err(e) => Err(e),
            }
        } else if id == 5 {
            let r = read_u32_at(data, pos);
            proof {
                assert forall|v: NbtValue|
                    tag_id(v) == id && well_formed(v) && #[trigger] starts_with_at(data@, pos as int, payload(v))
                        implies r == Ok::<(u32, usize), CodecError>((v->Float_0, (pos + 4) as usize))
                    && payload(v).len() == 4 by {
                    crate::codec::lemma_be_bytes_len(v->Float_0 as nat, 4);
                }
            }
            match r {
                Ok((x, end)) => Ok((NBTTag::Float(x), end)),
                Err(e) => Err(e),
            }
        } else if id == 6 {
            let r = read_u64_at(data, pos);
            proof {
                assert forall|v: NbtValue|
                    tag_id(v) == id && well_formed(v) && #[trigger] starts_with_at(data@, pos as int, payload(v))
                        implies r == Ok::<(u64, usize), CodecError>((v->Double_0, (pos + 8) as usize))
                    && payload(v).len() == 8 by {
                    crate::codec::lemma_be_bytes_len(v->Double_0 as nat, 8);
                }
            }
            match r {
                Ok((x, end)) => Ok((NBTTag::Double(x), end)),
                Err(e) => Err(e),
            }
        } else if id == 7 {
            proof {
                assert forall|v: NbtValue|
                    tag_id(v) == id && well_formed(v) && #[trigger] starts_with_at(data@, pos as int, payload(v))
                        implies starts_with_at(data@, pos as int, i32_be(v->ByteArray_0.len() as i32))
                    && starts_with_at(data@, pos + 4, v->ByteArray_0) by {
                    let b = v->ByteArray_0;
                    crate::codec::lemma_be_bytes_len(b.len() as i32 as u32 as nat, 4);
                    lemma_starts_with_split(data@, pos as int, i32_be(b.len() as i32), b);
                }
            }
            let (n, p) = match read_i32_at(data, pos) {
                Ok(x) => x,
                Err(e) => return Err(e),
            };
            if n < 0 {
                return Err(CodecError::NegativeLength);
            }
            let len = n as usize;
            if data.len() - p < len {
                return Err(CodecError::Truncated);
            }
            let bytes = copy_range(data, p, p + len);
            Ok((NBTTag::ByteArray(bytes), p + len))
        } else if id == 8 {
            proof {
                assert forall|v: NbtValue|
                    tag_id(v) == id && well_formed(v) && #[trigger] starts_with_at(data@, pos as int, payload(v))
                        implies starts_with_at(data@, pos as int, short_string(v->Str_0)) by {}
            }
            match read_short_string(data, pos) {
                Ok((s, end)) => Ok((NBTTag::String(s), end)),
                Err(e) => Err(e),
            }
        } else if id == 11 {
            Self::read_int_array(data, pos)
        } else if id == 12 {
            Self::read_long_array(data, pos)
        } else if id == 9 {
            Self::read_list(data, pos)
        } else if id == 10 {
            Self::read_compound(data, pos)
        } else {
            Err(CodecError::BadTagId(id))
        }
    }

    fn read_int_array(data: &[u8], pos: usize) -> (r: Result<(NBTTag, usize), CodecError>)
        requires
            pos <= data@.len(),
        ensures
            r matches Ok((t, end)) ==> pos < end <= data@.len() && tag_id(t.model()) == 11,
            reads_back(data@, pos as int, 11, r),
    {
        proof {
            assert forall|v: NbtValue|
                tag_id(v) == 11 && well_formed(v) && #[trigger] starts_with_at(data@, pos as int, payload(v))
                    implies starts_with_at(data@, pos as int, i32_be(v->IntArray_0.len() as i32))
                && starts_with_at(data@, pos + 4, i32s_be(v->IntArray_0)) by {
                let a = v->IntArray_0;
                crate::codec::lemma_be_bytes_len(a.len() as i32 as u32 as nat, 4);
                lemma_starts_with_split(data@, pos as int, i32_be(a.len() as i32), i32s_be(a));
            }
        }
        let (n, p) = match read_i32_at(data, pos) {
            Ok(x) => x,
            Err(e) => return Err(e),
        };
        if n < 0 {
            return Err(CodecError::NegativeLength);
        }
        let len = n as usize;
        let mut out: Vec<i32> = Vec::new();
        let mut cur = p;
        let mut i: usize = 0;
        while i < len
            invariant
                i <= len,
                len == n,
                pos + 4 == p,
                p <= cur <= data@.len(),
                cur == p + 4 * i,
                forall|v: NbtValue|
                    tag_id(v) == 11 && well_formed(v) && #[trigger] starts_with_at(data@, pos as int, payload(v))
                        ==> v->IntArray_0.len() == len && out@ == v->IntArray_0.take(i as int)
                    && starts_with_at(data@, pos + 4, i32s_be(v->IntArray_0)),
            decreases len - i,
        {
            let r = read_i32_at(data, cur);
            proof {
                assert forall|v: NbtValue|
                    tag_id(v) == 11 && well_formed(v) && #[trigger] starts_with_at(data@, pos as int, payload(v))
                        implies r == Ok::<(i32, usize), CodecError>((v->IntArray_0[i as int], (cur + 4) as usize)) by {
                    let a = v->IntArray_0;
                    lemma_i32s_be_elem(a, i as int);
                    lemma_starts_with_sub(data@, pos + 4, i32s_be(a), 4 * i, 4 * i + 4);
                }
            }
            let (x, next) = match r {
                Ok(y) => y,
                Err(e) => return Err(e),
            };
            proof {
                assert forall|v: NbtValue|
                    tag_id(v) == 11 && well_formed(v) && #[trigger] starts_with_at(data@, pos as int, payload(v))
                        implies out@.push(x) == v->IntArray_0.take(i + 1) by {
                    let a = v->IntArray_0;
                    assert(a.take(i + 1) =~= a.take(i as int).push(a[i as int]));
                }
            }
            out.push(x);
            cur = next;
            i = i + 1;
        }
        proof {
            assert forall|v: NbtValue|
                tag_id(v) == 11 && well_formed(v) && #[trigger] starts_with_at(data@, pos as int, payload(v))
                    implies v == NbtValue::IntArray(out@) && payload(v).len() == cur - pos by {
                let a = v->IntArray_0;
                assert(a.take(a.len() as int) =~= a);
                lemma_i32s_be_len(a);
                crate::codec::lemma_be_bytes_len(a.len() as i32 as u32 as nat, 4);
            }
        }
        Ok((NBTTag::IntArray(out), cur))
    }

    fn read_long_array(data: &[u8], pos: usize) -> (r: Result<(NBTTag, usize), CodecError>)
        requires
            pos <= data@.len(),
        ensures
            r matches Ok((t, end)) ==> pos < end <= data@.len() && tag_id(t.model()) == 12,
            reads_back(data@, pos as int, 12, r),
    {
        proof {
            assert forall|v: NbtValue|
                tag_id(v) == 12 && well_formed(v) && #[trigger] starts_with_at(data@, pos as int, payload(v))
                    implies starts_with_at(data@, pos as int, i32_be(v->LongArray_0.len() as i32))
                && starts_with_at(data@, pos + 4, i64s_be(v->LongArray_0)) by {
                let a = v->LongArray_0;
                crate::codec::lemma_be_bytes_len(a.len() as i32 as u32 as nat, 4);
                lemma_starts_with_split(data@, pos as int, i32_be(a.len() as i32), i64s_be(a));
            }
        }
        let (n, p) = match read_i32_at(data, pos) {
            Ok(x) => x,
            Err(e) => return Err(e),
        };
        if n < 0 {
            return Err(CodecError::NegativeLength);
        }
        let len = n as usize;
        let mut out: Vec<i64> = Vec::new();
        let mut cur = p;
        let mut i: usize = 0;
        while i < len
            invariant
                i <= len,
                len == n,
                pos + 4 == p,
                p <= cur <= data@.len(),
                cur == p + 8 * i,
                forall|v: NbtValue|
                    tag_id(v) == 12 && well_formed(v) && #[trigger] starts_with_at(data@, pos as int, payload(v))
                        ==> v->LongArray_0.len() == len && out@ == v->LongArray_0.take(i as int)
                    && starts_with_at(data@, pos + 4, i64s_be(v->LongArray_0)),
            decreases len - i,
        {
            let r = read_i64_at(data, cur);
            proof {
                assert forall|v: NbtValue|
                    tag_id(v) == 12 && well_formed(v) && #[trigger] starts_with_at(data@, pos as int, payload(v))
                        implies r == Ok::<(i64, usize), CodecError>((v->LongArray_0[i as int], (cur + 8) as usize)) by {
                    let a = v->LongArray_0;
                    lemma_i64s_be_elem(a, i as int);
                    lemma_starts_with_sub(data@, pos + 4, i64s_be(a), 8 * i, 8 * i + 8);
                }
            }
            let (x, next) = match r {
                Ok(y) => y,
                Err(e) => return Err(e),
            };
            proof {
                assert forall|v: NbtValue|
                    tag_id(v) == 12 && well_formed(v) && #[trigger] starts_with_at(data@, pos as int, payload(v))
                        implies out@.push(x) == v->LongArray_0.take(i + 1) by {
                    let a = v->LongArray_0;
                    assert(a.take(i + 1) =~= a.take(i as int).push(a[i as int]));
                }
            }
            out.push(x);
            cur = next;
            i = i + 1;
        }
        proof {
            assert forall|v: NbtValue|
                tag_id(v) == 12 && well_formed(v) && #[trigger] starts_with_at(data@, pos as int, payload(v))
                    implies v == NbtValue::LongArray(out@) && payload(v).len() == cur - pos by {
                let a = v->LongArray_0;
                assert(a.take(a.len() as int) =~= a);
                lemma_i64s_be_len(a);
                crate::codec::lemma_be_bytes_len(a.len() as i32 as u32 as nat, 4);
            }
        }
        Ok((NBTTag::LongArray(out), cur))
    }
}

/// The bytes of a prefix are a prefix of the bytes.
pub proof fn lemma_i64s_be_prefix(a: Seq<i64>, i: int)
    requires
        0 <= i <= a.len(),
    ensures
        i64s_be(a).subrange(0, 8 * i) == i64s_be(a.take(i)),
        i64s_be(a).len() == 8 * a.len(),
    decreases a.len() - i,
{
    lemma_i64s_be_len(a);
    lemma_i64s_be_len(a.take(i));
    if i == a.len() {
        assert(a.take(i) =~= a);
        assert(i64s_be(a).subrange(0, 8 * i) =~= i64s_be(a));
    } else {
        lemma_i64s_be_prefix(a, i + 1);
        lemma_i64s_be(a, i);
        assert(i64s_be(a).subrange(0, 8 * i) =~= i64s_be(a).subrange(0, 8 * (i + 1)).subrange(0, 8 * i));
        assert(i64s_be(a.take(i + 1)).subrange(0, 8 * i) =~= i64s_be(a.take(i)));
    }
}

/// The bytes of a prefix are a prefix of the bytes.
pub proof fn lemma_i32s_be_prefix(a: Seq<i32>, i: int)
    requires
        0 <= i <= a.len(),
    ensures
        i32s_be(a).subrange(0, 4 * i) == i32s_be(a.take(i)),
        i32s_be(a).len() == 4 * a.len(),
    decreases a.len() - i,
{
    lemma_i32s_be_len(a);
    lemma_i32s_be_len(a.take(i));
    if i == a.len() {
        assert(a.take(i) =~= a);
        assert(i32s_be(a).subrange(0, 4 * i) =~= i32s_be(a));
    } else {
        lemma_i32s_be_prefix(a, i + 1);
        lemma_i32s_be(a, i);
        assert(i32s_be(a).subrange(0, 4 * i) =~= i32s_be(a).subrange(0, 4 * (i + 1)).subrange(0, 4 * i));
        assert(i32s_be(a.take(i + 1)).subrange(0, 4 * i) =~= i32s_be(a.take(i)));
    }
}

/// The payloads of a prefix of a list are a prefix of the list's payloads.
pub proof fn lemma_list_payload_prefix(l: Seq<NbtValue>, k: int)
    requires
        0 <= k <= l.len(),
    ensures
        list_payload(l.take(k)).len() <= list_payload(l).len(),
        list_payload(l).subrange(0, list_payload(l.take(k)).len() as int) == list_payload(l.take(k)),
    decreases l.len() - k,
{
    if k == l.len() {
        assert(l.take(k) =~= l);
        assert(list_payload(l).subrange(0, list_payload(l).len() as int) =~= list_payload(l));
    } else {
        lemma_list_payload_prefix(l, k + 1);
        lemma_list_take(l, k);
        let a = list_payload(l.take(k));
        let b = list_payload(l.take(k + 1));
        assert(list_payload(l).subrange(0, a.len() as int) =~= list_payload(l).subrange(0, b.len() as int).subrange(0, a.len() as int));
        assert(b.subrange(0, a.len() as int) =~= a);
    }
}

/// Element `i`'s payload stands in the list's payloads where those of the elements before it end.
pub proof fn lemma_list_payload_elem(l: Seq<NbtValue>, i: int)
    requires
        0 <= i < l.len(),
    ensures
        list_payload(l.take(i)).len() + payload(l[i]).len() <= list_payload(l).len(),
        list_payload(l).subrange(list_payload(l.take(i)).len() as int, (list_payload(l.take(i)).len() + payload(l[i]).len()) as int)
            == payload(l[i]),
{
    lemma_list_payload_prefix(l, i + 1);
    lemma_list_take(l, i);
    let a = list_payload(l.take(i));
    let b = list_payload(l.take(i + 1));
    let whole = list_payload(l);
    assert(whole.subrange(a.len() as int, b.len() as int) =~= whole.subrange(0, b.len() as int).subrange(a.len() as int, b.len() as int));
    assert(b.subrange(a.len() as int, b.len() as int) =~= payload(l[i]));
}

pub proof fn lemma_compound_payload_prefix(c: Seq<(Seq<char>, NbtValue)>, k: int)
    requires
        0 <= k <= c.len(),
    ensures
        compound_payload(c.take(k)).len() <= compound_payload(c).len(),
        compound_payload(c).subrange(0, compound_payload(c.take(k)).len() as int) == compound_payload(c.take(k)),
    decreases c.len() - k,
{
    if k == c.len() {
        assert(c.take(k) =~= c);
        assert(compound_payload(c).subrange(0, compound_payload(c).len() as int) =~= compound_payload(c));
    } else {
        lemma_compound_payload_prefix(c, k + 1);
        lemma_entries_take(c, k);
        let a = compound_payload(c.take(k));
        let b = compound_payload(c.take(k + 1));
        assert(compound_payload(c).subrange(0, a.len() as int) =~= compound_payload(c).subrange(0, b.len() as int).subrange(0, a.len() as int));
        assert(b.subrange(0, a.len() as int) =~= a);
    }
}

/// Entry `i` stands in the compound's bytes where the entries before it end.
pub proof fn lemma_compound_payload_elem(c: Seq<(Seq<char>, NbtValue)>, i: int)
    requires
        0 <= i < c.len(),
    ensures
        compound_payload(c.take(i)).len() + entry_bytes(c[i].0, c[i].1).len() <= compound_payload(c).len(),
        compound_payload(c).subrange(compound_payload(c.take(i)).len() as int, (compound_payload(c.take(i)).len() + entry_bytes(c[i].0, c[i].1).len()) as int)
            == entry_bytes(c[i].0, c[i].1),
{
    lemma_compound_payload_prefix(c, i + 1);
    lemma_entries_take(c, i);
    let a = compound_payload(c.take(i));
    let b = compound_payload(c.take(i + 1));
    let whole = compound_payload(c);
    assert(whole.subrange(a.len() as int, b.len() as int) =~= whole.subrange(0, b.len() as int).subrange(a.len() as int, b.len() as int));
    assert(b.subrange(a.len() as int, b.len() as int) =~= entry_bytes(c[i].0, c[i].1));
}

impl NBTTag {
    fn read_list(data: &[u8], pos: usize) -> (r: Result<(NBTTag, usize), CodecError>)
        requires
            pos <= data@.len(),
        ensures
            r matches Ok((t, end)) ==> pos < end <= data@.len() && tag_id(t.model()) == 9,
            reads_back(data@, pos as int, 9, r),
        decreases data@.len() - pos, 0nat,
    {
        proof {
            assert forall|v: NbtValue|
                tag_id(v) == 9 && well_formed(v) && #[trigger] starts_with_at(data@, pos as int, payload(v))
                    implies list_at(data@, pos as int, v->List_0) by {}
            assert forall|l: Seq<NbtValue>| #[trigger] list_at(data@, pos as int, l) implies
                starts_with_at(data@, pos as int, seq![list_elem_id(l)])
                && starts_with_at(data@, pos + 1, i32_be(l.len() as i32))
                && starts_with_at(data@, pos + 5, list_payload(l)) by {
                crate::codec::lemma_be_bytes_len(l.len() as i32 as u32 as nat, 4);
                lemma_starts_with_split(data@, pos as int, seq![list_elem_id(l)] + i32_be(l.len() as i32), list_payload(l));
                lemma_starts_with_split(data@, pos as int, seq![list_elem_id(l)], i32_be(l.len() as i32));
            }
        }
        if pos >= data.len() {
            return Err(CodecError::Truncated);
        }
        let eid = data[pos];
        proof {
            assert forall|l: Seq<NbtValue>| #[trigger] list_at(data@, pos as int, l) implies eid == list_elem_id(l) by {
                assert(data@.subrange(pos as int, pos + 1)[0] == data@[pos as int]);
            }
        }
        let (n, p) = match read_i32_at(data, pos + 1) {
            Ok(x) => x,
            Err(e) => return Err(e),
        };
        if n < 0 {
            return Err(CodecError::NegativeLength);
        }
        let len = n as usize;
        let mut out: Vec<NBTTag> = Vec::new();
        let mut cur = p;
        let mut i: usize = 0;
        while i < len
            invariant
                i <= len,
                len == n,
                pos + 5 == p,
                p <= cur <= data@.len(),
                forall|l: Seq<NbtValue>| #[trigger] list_at(data@, pos as int, l) ==> l.len() == len
                    && eid == list_elem_id(l) && starts_with_at(data@, pos + 5, list_payload(l))
                    && tags_model(out@) == l.take(i as int) && cur == p + list_payload(l.take(i as int)).len(),
            decreases len - i,
        {
            proof {
                assert forall|l: Seq<NbtValue>| #[trigger] list_at(data@, pos as int, l) implies
                    tag_id(l[i as int]) == eid && well_formed(l[i as int])
                    && starts_with_at(data@, cur as int, payload(l[i as int])) by {
                    lemma_all_elements(l, i as int);
                    lemma_list_payload_elem(l, i as int);
                    let o = list_payload(l.take(i as int)).len() as int;
                    lemma_starts_with_sub(data@, pos + 5, list_payload(l), o, o + payload(l[i as int]).len());
                }
            }
            let rt = NBTTag::from_bytes(data, cur, eid);
            proof {
                assert forall|l: Seq<NbtValue>| #[trigger] list_at(data@, pos as int, l) implies
                    rt matches Ok((t, e)) && t.model() == l[i as int] && e == cur + payload(l[i as int]).len() by {
                    assert(starts_with_at(data@, cur as int, payload(l[i as int])));
                }
            }
            let (t, next) = match rt {
                Ok(x) => x,
                Err(e) => {
                    proof {
                        assert forall|v: NbtValue|
                            tag_id(v) == 9 && well_formed(v) && #[trigger] starts_with_at(data@, pos as int, payload(v))
                                implies false by {
                            assert(list_at(data@, pos as int, v->List_0));
                        }
                    }
                    return Err(e);
                },
            };
            proof {
                assert forall|l: Seq<NbtValue>| #[trigger] list_at(data@, pos as int, l) implies
                    tags_model(out@.push(t)) == l.take(i + 1)
                    && next == p + list_payload(l.take(i + 1)).len() by {
                    lemma_list_take(l, i as int);
                    assert(out@.push(t).drop_last() =~= out@);
                    assert(l.take(i + 1) =~= l.take(i as int).push(l[i as int]));
                }
            }
            out.push(t);
            cur = next;
            i = i + 1;
        }
        proof {
            assert forall|v: NbtValue|
                tag_id(v) == 9 && well_formed(v) && #[trigger] starts_with_at(data@, pos as int, payload(v))
                    implies v == NbtValue::List(tags_model(out@)) && payload(v).len() == cur - pos by {
                let l = v->List_0;
                assert(list_at(data@, pos as int, l));
                assert(l.take(l.len() as int) =~= l);
                crate::codec::lemma_be_bytes_len(l.len() as i32 as u32 as nat, 4);
            }
        }
        Ok((NBTTag::List(out), cur))
    }

    fn read_compound(data: &[u8], pos: usize) -> (r: Result<(NBTTag, usize), CodecError>)
        requires
            pos <= data@.len(),
        ensures
            r matches Ok((t, end)) ==> pos < end <= data@.len() && tag_id(t.model()) == 10,
            reads_back(data@, pos as int, 10, r),
        decreases data@.len() - pos, 0nat,
    {
        proof {
            assert forall|v: NbtValue|
                tag_id(v) == 10 && well_formed(v) && #[trigger] starts_with_at(data@, pos as int, payload(v))
                    implies compound_at(data@, pos as int, v->Compound_0) by {}
            assert forall|c: Seq<(Seq<char>, NbtValue)>| #[trigger] compound_at(data@, pos as int, c) implies
                starts_with_at(data@, pos as int, compound_payload(c))
                && starts_with_at(data@, pos + compound_payload(c).len(), seq![0u8]) by {
                lemma_starts_with_split(data@, pos as int, compound_payload(c), seq![0u8]);
            }
        }
        let mut out: Vec<(String, NBTTag)> = Vec::new();
        let mut cur = pos;
        let ghost mut i: int = 0;
        loop
            invariant
                pos <= cur <= data@.len(),
                0 <= i,
                forall|c: Seq<(Seq<char>, NbtValue)>| #[trigger] compound_at(data@, pos as int, c) ==> i <= c.len()
                    && starts_with_at(data@, pos as int, compound_payload(c))
                    && starts_with_at(data@, pos + compound_payload(c).len(), seq![0u8])
                    && entries_model(out@) == c.take(i) && cur == pos + compound_payload(c.take(i)).len(),
            decreases data@.len() - cur,
        {
            proof {
                assert forall|c: Seq<(Seq<char>, NbtValue)>| #[trigger] compound_at(data@, pos as int, c) implies
                    (i < c.len() ==> starts_with_at(data@, cur as int, entry_bytes(c[i].0, c[i].1)))
                    && (i == c.len() ==> starts_with_at(data@, cur as int, seq![0u8])) by {
                    if i < c.len() {
                        lemma_compound_payload_elem(c, i);
                        let o = compound_payload(c.take(i)).len() as int;
                        lemma_starts_with_sub(data@, pos as int, compound_payload(c), o, o + entry_bytes(c[i].0, c[i].1).len());
                    } else {
                        assert(c.take(i) =~= c);
                    }
                }
            }
            if cur >= data.len() {
                proof {
                    assert forall|v: NbtValue|
                        tag_id(v) == 10 && well_formed(v) && #[trigger] starts_with_at(data@, pos as int, payload(v))
                            implies false by {
                        let c = v->Compound_0;
                        assert(compound_at(data@, pos as int, c));
                    }
                }
                return Err(CodecError::Truncated);
            }
            let b = data[cur];
            if b == 0 {
                proof {
                    assert forall|v: NbtValue|
                        tag_id(v) == 10 && well_formed(v) && #[trigger] starts_with_at(data@, pos as int, payload(v))
                            implies v == NbtValue::Compound(entries_model(out@)) && payload(v).len() == cur + 1 - pos by {
                        let c = v->Compound_0;
                        assert(compound_at(data@, pos as int, c));
                        if i < c.len() {
                            assert(data@.subrange(cur as int, cur + entry_bytes(c[i].0, c[i].1).len())[0] == data@[cur as int]);
                            assert(false);
                        }
                        assert(c.take(c.len() as int) =~= c);
                    }
                }
                return Ok((NBTTag::Compound(out), cur + 1));
            }
            proof {
                assert forall|c: Seq<(Seq<char>, NbtValue)>| #[trigger] compound_at(data@, pos as int, c) implies
                    i < c.len() && b == tag_id(c[i].1) && starts_with_at(data@, cur + 1, short_string(c[i].0))
                    && starts_with_at(data@, cur + 1 + short_string(c[i].0).len(), payload(c[i].1))
                    && well_formed(c[i].1) && encode_utf8(c[i].0).len() <= u16::MAX by {
                    if i == c.len() {
                        assert(data@.subrange(cur as int, cur + 1)[0] == data@[cur as int]);
                    }
                    assert(data@.subrange(cur as int, cur + entry_bytes(c[i].0, c[i].1).len())[0] == data@[cur as int]);
                    lemma_all_entries(c, i);
                    lemma_starts_with_split(data@, cur as int, seq![tag_id(c[i].1)] + short_string(c[i].0), payload(c[i].1));
                    lemma_starts_with_split(data@, cur as int, seq![tag_id(c[i].1)], short_string(c[i].0));
                }
            }
            let rs = read_short_string(data, cur + 1);
            proof {
                assert forall|c: Seq<(Seq<char>, NbtValue)>| #[trigger] compound_at(data@, pos as int, c) implies
                    rs matches Ok((s, e)) && s@ == c[i].0 && e == cur + 1 + short_string(c[i].0).len() by {
                    assert(starts_with_at(data@, cur + 1, short_string(c[i].0)));
                }
            }
            let (name, p) = match rs {
                Ok(x) => x,
                Err(e) => {
                    proof {
                        assert forall|v: NbtValue|
                            tag_id(v) == 10 && well_formed(v) && #[trigger] starts_with_at(data@, pos as int, payload(v))
                                implies false by {
                            assert(compound_at(data@, pos as int, v->Compound_0));
                        }
                    }
                    return Err(e);
                },
            };
            let rt = NBTTag::from_bytes(data, p, b);
            proof {
                assert forall|c: Seq<(Seq<char>, NbtValue)>| #[trigger] compound_at(data@, pos as int, c) implies
                    rt matches Ok((t, e)) && t.model() == c[i].1 && e == p + payload(c[i].1).len() by {
                    assert(starts_with_at(data@, p as int, payload(c[i].1)));
                }
            }
            let (t, next) = match rt {
                Ok(x) => x,
                Err(e) => {
                    proof {
                        assert forall|v: NbtValue|
                            tag_id(v) == 10 && well_formed(v) && #[trigger] starts_with_at(data@, pos as int, payload(v))
                                implies false by {
                            assert(compound_at(data@, pos as int, v->Compound_0));
                        }
                    }
                    return Err(e);
                },
            };
            proof {
                assert forall|c: Seq<(Seq<char>, NbtValue)>| #[trigger] compound_at(data@, pos as int, c) implies
                    entries_model(out@.push((name, t))) == c.take(i + 1)
                    && next == pos + compound_payload(c.take(i + 1)).len() by {
                    lemma_entries_take(c, i);
                    assert(out@.push((name, t)).drop_last() =~= out@);
                    assert(c.take(i + 1) =~= c.take(i).push(c[i]));
                }
            }
            out.push((name, t));
            cur = next;
            proof {
                i = i + 1;
            }
        }
    }
}

/// Every list that encodes successfully holds values of a single tag id: the id it is
/// written with.
pub proof fn lemma_encoded_list_single_id(l: Seq<NbtValue>)
    requires
        homogeneous(NbtValue::List(l)),
    ensures
        forall|i: int| 0 <= i < l.len() ==> tag_id(#[trigger] l[i]) == list_elem_id(l),
        forall|i: int, j: int| 0 <= i < l.len() && 0 <= j < l.len() ==> tag_id(#[trigger] l[i]) == tag_id(
            #[trigger] l[j],
        ),
{
}

/// Entry `i` is the first of `c` named `name`.
pub open spec fn first_named(c: Seq<(Seq<char>, NbtValue)>, i: int, name: Seq<char>) -> bool {
    0 <= i < c.len() && c[i].0 == name && forall|j: int| 0 <= j < i ==> #[trigger] c[j].0 != name
}

impl NBTTag {
    /// This tag's payload as bytes; `MixedListTypes` exactly when a list in it is not homogeneous.
    pub fn as_bytes(&self) -> (r: Result<Vec<u8>, CodecError>)
        requires
            sizes_fit(self.model()),
        ensures
            r is Ok <==> homogeneous(self.model()),
            r matches Ok(b) ==> b@ == payload(self.model()),
            r is Err ==> r == Err::<Vec<u8>, CodecError>(CodecError::MixedListTypes),
    {
        let mut out: Vec<u8> = Vec::new();
        match self.write_payload(&mut out) {
            Ok(()) => Ok(out),
            Err(e) => Err(e),
        }
    }

    /// The value of the first compound entry named `name`; `None` for other variants or
    /// when no entry has that name.
    pub fn get(&self, name: &str) -> (r: Option<&NBTTag>)
        ensures
            !(self.model() is Compound) ==> r is None,
            self.model() is Compound && r is None ==> forall|j: int|
                0 <= j < self.model()->Compound_0.len() ==> #[trigger] self.model()->Compound_0[j].0 != name@,
            r is Some ==> self.model() is Compound,
            r matches Some(t) ==> exists|i: int|
                #[trigger] first_named(self.model()->Compound_0, i, name@),
            r matches Some(t) ==> forall|i: int|
                #[trigger] first_named(self.model()->Compound_0, i, name@) ==> self.model()->Compound_0[i].1 == t.model(),
    {
        match self {
            NBTTag::Compound(c) => {
                proof {
                    lemma_entries_model(c@);
                }
                let ghost m = entries_model(c@);
                let key = String::from_str(name);
                let mut i: usize = 0;
                while i < c.len()
                    invariant
                        i <= c@.len(),
                        m == entries_model(c@),
                        m.len() == c@.len(),
                        self.model() == NbtValue::Compound(m),
                        forall|j: int| 0 <= j < m.len() ==> #[trigger] m[j] == (c@[j].0@, c@[j].1.model()),
                        forall|j: int| 0 <= j < i ==> #[trigger] m[j].0 != name@,
                        key@ == name@,
                    decreases c@.len() - i,
                {
                    let entry = &c[i];
                    if entry.0 == key {
                        assert(m[i as int].0 == name@);
                        assert(m[i as int].1 == entry.1.model());
                        assert(first_named(m, i as int, name@));
                        let found = &entry.1;
                        assert(found.model() == m[i as int].1);
                        assert(exists|k: int| #[trigger] first_named(m, k, name@) && m[k].1 == found.model());
                        let r = Some(found);
                        assert(self.model() == NbtValue::Compound(m));
                        assert(r matches Some(t) && exists|k: int| #[trigger] first_named(m, k, name@) && m[k].1 == t.model());
                        return r;
                    }
                    i = i + 1;
                }
                None
            },
            _ => None,
        }
    }
}

/// The bytes of a document: root id, the root name where there is one, then the root payload.
pub open spec fn document_bytes(name: Option<Seq<char>>, v: NbtValue) -> Seq<u8> {
    seq![tag_id(v)] + match name {
        Some(n) => short_string(n),
        None => Seq::<u8>::empty(),
    } + payload(v)
}

/// The bytes a document is parsed from once its wrapper is removed: gzip (`1F 8B`) and zlib
/// (`78 01`, `78 9C`, `78 DA`) streams are inflated, anything else is taken as it is.
pub open spec fn unwrapped(b: Seq<u8>) -> Option<Seq<u8>> {
    if b.len() >= 2 && b[0] == 0x1F && b[1] == 0x8B {
        gzip_inflated(b)
    } else if b.len() >= 2 && b[0] == 0x78 && (b[1] == 0x01 || b[1] == 0x9C || b[1] == 0xDA) {
        zlib_inflated(b)
    } else {
        Some(b)
    }
}

/// An NBT document: a root value and, in disk form, the root's name; in network form the
/// root has no name.
#[derive(Debug, PartialEq)]
pub struct NBT {
    pub root_name: Option<String>,
    pub root_tag: NBTTag,
}

impl NBT {
    pub open spec fn name_model(&self) -> Option<Seq<char>> {
        match self.root_name {
            Some(n) => Some(n@),
            None => None,
        }
    }

    /// Whether the name and the root value can be written and read back.
    pub open spec fn encodable(&self) -> bool {
        sizes_fit(self.root_tag.model()) && match self.root_name {
            Some(n) => encode_utf8(n@).len() <= u16::MAX,
            None => true,
        }
    }

    /// A disk-form document whose root is named `name`.
    pub fn new(name: &str, root_tag: NBTTag) -> (r: NBT)
        ensures
            r.name_model() == Some(name@),
            r.root_tag == root_tag,
    {
        NBT { root_name: Some(String::from_str(name)), root_tag }
    }

    /// A network-form document: its root has no name.
    pub fn new_network(root_tag: NBTTag) -> (r: NBT)
        ensures
            r.root_name is None,
            r.root_tag == root_tag,
    {
        NBT { root_name: None, root_tag }
    }

    /// Drops the root name, turning this into a network-form document.
    pub fn as_network(&mut self)
        ensures
            final(self).root_name is None,
            final(self).root_tag == old(self).root_tag,
    {
        self.root_name = None;
    }

    /// Names the root, turning this into a disk-form document.
    pub fn as_normal(&mut self, name: &str)
        ensures
            final(self).name_model() == Some(name@),
            final(self).root_tag == old(self).root_tag,
    {
        self.root_name = Some(String::from_str(name));
    }

    /// The document's bytes; `MixedListTypes` exactly when a list in the root is not homogeneous.
    pub fn as_bytes(&self) -> (r: Result<Vec<u8>, CodecError>)
        requires
            self.encodable(),
        ensures
            r is Ok <==> homogeneous(self.root_tag.model()),
            r matches Ok(b) ==> b@ == document_bytes(self.name_model(), self.root_tag.model()),
            r is Err ==> r == Err::<Vec<u8>, CodecError>(CodecError::MixedListTypes),
    {
        let mut out: Vec<u8> = Vec::new();
        out.push(self.root_tag.id());
        match &self.root_name {
            Some(name) => push_short_string(&mut out, name.as_str()),
            None => {},
        }
        match self.root_tag.write_payload(&mut out) {
            Ok(()) => {
                assert(out@ =~= document_bytes(self.name_model(), self.root_tag.model()));
                Ok(out)
            },
            Err(e) => Err(e),
        }
    }

    /// Parses a document, disk form (with a root name) unless `network`. A gzip or zlib
    /// wrapper is inflated first (`InflateFailed` where that fails). A root id of 0 is an
    /// empty document, `None`. The bytes of any encodable, homogeneous document of that form,
    /// wrapped or not, read back as that document.
    pub fn from_bytes(bytes: &[u8], network: bool) -> (r: Result<Option<NBT>, CodecError>)
        ensures
            unwrapped(bytes@) is None ==> r == Err::<Option<NBT>, CodecError>(CodecError::InflateFailed),
            unwrapped(bytes@) matches Some(p) && p.len() > 0 && p[0] == 0 ==> r matches Ok(None),
            forall|name: Option<Seq<char>>, v: NbtValue|
                well_formed(v) && (name is None <==> network) && (name matches Some(n) ==> encode_utf8(n).len()
                    <= u16::MAX) && #[trigger] unwrapped(bytes@) == Some(#[trigger] document_bytes(name, v))
                    ==> (r matches Ok(Some(doc)) && doc.name_model() == name && doc.root_tag.model() == v),
    {
        let plain: Vec<u8> = if bytes.len() >= 2 && bytes[0] == 0x1F && bytes[1] == 0x8B {
            match gzip_decompress(bytes) {
                Some(v) => v,
                None => return Err(CodecError::InflateFailed),
            }
        } else if bytes.len() >= 2 && bytes[0] == 0x78 && (bytes[1] == 0x01 || bytes[1] == 0x9C
            || bytes[1] == 0xDA) {
            match zlib_decompress(bytes) {
                Some(v) => v,
                None => return Err(CodecError::InflateFailed),
            }
        } else {
            copy_range(bytes, 0, bytes.len())
        };
        assert(unwrapped(bytes@) == Some(plain@)) by {
            assert(bytes@.subrange(0, bytes@.len() as int) =~= bytes@);
        }
        let data = plain.as_slice();
        if data.len() == 0 {
            return Err(CodecError::Truncated);
        }
        let id = data[0];
        if id == 0 {
            return Ok(None);
        }
        proof {
            assert forall|name: Option<Seq<char>>, v: NbtValue|
                well_formed(v) && (name is None <==> network) && (name matches Some(n) ==> encode_utf8(n).len()
                    <= u16::MAX) && #[trigger] unwrapped(bytes@) == Some(#[trigger] document_bytes(name, v))
                    implies id == tag_id(v) && (name matches Some(n) ==> starts_with_at(data@, 1, short_string(n)))
                    && starts_with_at(data@, (1 + match name { Some(n) => short_string(n).len(), None => 0nat }) as int, payload(v)) by {
                let w = document_bytes(name, v);
                assert(data@ == w);
                assert(starts_with_at(data@, 0, w)) by {
                    assert(data@.subrange(0, w.len() as int) =~= w);
                }
                let nb = match name {
                    Some(n) => short_string(n),
                    None => Seq::<u8>::empty(),
                };
                lemma_starts_with_split(data@, 0, seq![tag_id(v)] + nb, payload(v));
                lemma_starts_with_split(data@, 0, seq![tag_id(v)], nb);
            }
        }
        let mut p: usize = 1;
        let mut root_name: Option<String> = None;
        if !network {
            match read_short_string(data, 1) {
                Ok((s, end)) => {
                    root_name = Some(s);
                    p = end;
                },
                Err(e) => return Err(e),
            }
        }
        proof {
            assert forall|name: Option<Seq<char>>, v: NbtValue|
                well_formed(v) && (name is None <==> network) && (name matches Some(n) ==> encode_utf8(n).len()
                    <= u16::MAX) && #[trigger] unwrapped(bytes@) == Some(#[trigger] document_bytes(name, v))
                    implies id == tag_id(v) && starts_with_at(data@, p as int, payload(v)) && match root_name {
                        Some(s) => name == Some(s@),
                        None => name is None,
                    } by {
                if let Some(n) = name {
                    assert(starts_with_at(data@, 1, short_string(n)));
                }
            }
        }
        match NBTTag::from_bytes(data, p, id) {
            Ok((t, _)) => Ok(Some(NBT { root_name, root_tag: t })),
            Err(e) => Err(e),
        }
    }
}

/// Reading back what encoding writes gives the value: for every well-formed value, the
/// payload that `as_bytes` writes, followed by anything, reads back as that value and spans
/// exactly the payload.
pub proof fn lemma_nbt_round_trip(v: NbtValue, rest: Seq<u8>, r: Result<(NBTTag, usize), CodecError>)
    requires
        well_formed(v),
        reads_back(payload(v) + rest, 0, tag_id(v), r),
    ensures
        r matches Ok((t, n)) && t.model() == v && n == payload(v).len(),
{
    let data = payload(v) + rest;
    assert(data.subrange(0, payload(v).len() as int) =~= payload(v));
    assert(starts_with_at(data, 0, payload(v)));
}

impl NBTTag {
    /// Whether every length in this tag fits its prefix, so that it can be written.
    pub fn fits(&self) -> (r: bool)
        ensures
            r == sizes_fit(self.model()),
        decreases self,
    {
        match self {
            NBTTag::ByteArray(b) => b.len() <= 0x7FFF_FFFF,
            NBTTag::String(s) => s.as_str().as_bytes().len() <= 0xFFFF,
            NBTTag::IntArray(a) => a.len() <= 0x7FFF_FFFF,
            NBTTag::LongArray(a) => a.len() <= 0x7FFF_FFFF,
            NBTTag::List(l) => {
                if l.len() > 0x7FFF_FFFF {
                    proof {
                        lemma_tags_model(l@);
                    }
                    return false;
                }
                let ghost m = tags_model(l@);
                proof {
                    lemma_tags_model(l@);
                    assert(decreases_to!(self => l));
                }
                let mut i: usize = 0;
                while i < l.len()
                    invariant
                        i <= l@.len(),
                        l@.len() <= 0x7FFF_FFFF,
                        m == tags_model(l@),
                        m.len() == l@.len(),
                        self.model() == NbtValue::List(m),
                        forall|j: int| 0 <= j < m.len() ==> #[trigger] m[j] == l@[j].model(),
                        all_sizes_fit(m.take(i as int)),
                        decreases_to!(self => l),
                    decreases l@.len() - i,
                {
                    proof {
                        assert(decreases_to!(l => l[i as int]));
                        lemma_list_take(m, i as int);
                    }
                    if !l[i].fits() {
                        proof {
                            lemma_all_elements(m, i as int);
                        }
                        return false;
                    }
                    i = i + 1;
                }
                assert(m.take(m.len() as int) =~= m);
                true
            },
            NBTTag::Compound(c) => {
                let ghost m = entries_model(c@);
                proof {
                    lemma_entries_model(c@);
                    assert(decreases_to!(self => c));
                }
                let mut i: usize = 0;
                while i < c.len()
                    invariant
                        i <= c@.len(),
                        m == entries_model(c@),
                        m.len() == c@.len(),
                        self.model() == NbtValue::Compound(m),
                        forall|j: int| 0 <= j < m.len() ==> #[trigger] m[j] == (c@[j].0@, c@[j].1.model()),
                        entries_sizes_fit(m.take(i as int)),
                        decreases_to!(self => c),
                    decreases c@.len() - i,
                {
                    proof {
                        assert(decreases_to!(c => c[i as int]));
                        assert(decreases_to!(c[i as int] => c[i as int].1));
                        lemma_entries_take(m, i as int);
                    }
                    let entry = &c[i];
                    if entry.0.as_str().as_bytes().len() > 0xFFFF || !entry.1.fits() {
                        proof {
                            lemma_all_entries(m, i as int);
                        }
                        return false;
                    }
                    i = i + 1;
                }
                assert(m.take(m.len() as int) =~= m);
                true
            },
            _ => true,
        }
    }
}

impl NBT {
    /// Whether the document can be written: its name and every length in it fit.
    pub fn fits(&self) -> (r: bool)
        ensures
            r == self.encodable(),
    {
        let name_ok = match &self.root_name {
            Some(n) => n.as_str().as_bytes().len() <= 0xFFFF,
            None => true,
        };
        name_ok && self.root_tag.fits()
    }
}

} // verus!
