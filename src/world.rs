//! Chunk columns: sections of block ids, height maps, and their wire forms.
use vstd::prelude::*;
use vstd::arithmetic::power2::{pow2, lemma_pow2_adds, lemma_pow2_pos, lemma2_to64};
use crate::codec::push_u16;
use crate::nbt::{NBTTag, NBT};
use crate::types::Identifier;
use crate::varint::VarInt;
use crate::wire::Serializable;

verus! {

/// Entry `k` of `e`, or 0 past its end.
pub open spec fn entry_or_zero(e: Seq<i32>, k: int) -> nat {
    if 0 <= k < e.len() && e[k] >= 0 {
        e[k] as nat
    } else {
        0
    }
}

/// The first `j` entries from `start`, each `bpe` bits wide, lowest first.
pub open spec fn word_sum(e: Seq<i32>, start: int, bpe: nat, j: nat) -> nat
    decreases j,
{
    if j == 0 {
        0
    } else {
        word_sum(e, start, bpe, (j - 1) as nat) + entry_or_zero(e, start + j - 1) * pow2(
            bpe * (j - 1) as nat,
        )
    }
}

/// Every entry is a non-negative number of at most `bpe` bits.
pub open spec fn entries_fit(e: Seq<i32>, bpe: nat) -> bool {
    forall|k: int| 0 <= k < e.len() ==> 0 <= #[trigger] e[k] && e[k] < pow2(bpe)
}

pub proof fn lemma_word_sum_bound(e: Seq<i32>, start: int, bpe: nat, j: nat)
    requires
        entries_fit(e, bpe),
    ensures
        word_sum(e, start, bpe, j) < pow2(bpe * j),
    decreases j,
{
    if j == 0 {
        lemma2_to64();
    } else {
        let jm = (j - 1) as nat;
        lemma_word_sum_bound(e, start, bpe, jm);
        let s = word_sum(e, start, bpe, jm);
        let v = entry_or_zero(e, start + j - 1);
        let p = pow2(bpe * jm);
        let b = pow2(bpe);
        lemma_pow2_pos(bpe);
        let k = start + j - 1;
        if 0 <= k < e.len() {
            assert(e[k] < pow2(bpe));
        }
        assert(v < b);
        lemma_pow2_adds(bpe * jm, bpe);
        assert(bpe * jm + bpe == bpe * j) by (nonlinear_arith)
            requires
                jm + 1 == j,
        ;
        assert(s + v * p < p * b) by (nonlinear_arith)
            requires
                s < p,
                v < b,
                v >= 0,
        ;
    }
}

/// The words that `pack_entries` gives.
pub open spec fn packed_words(e: Seq<i32>, bpe: nat) -> Seq<i64> {
    let epl = 64nat / bpe;
    Seq::new(
        ((e.len() + epl - 1) / (epl as int)) as nat,
        |i: int| word_sum(e, i * epl, bpe, epl as nat) as u64 as i64,
    )
}

/// Packs entries of `bpe` bits into 64-bit words, `64 / bpe` to a word, lowest bits first;
/// the last word is padded with zeros.
pub fn pack_entries(entries: &[i32], bpe: usize) -> (r: Vec<i64>)
    requires
        1 <= bpe <= 64,
        entries_fit(entries@, bpe as nat),
        entries@.len() + 64 <= usize::MAX,
    ensures
        r@ == packed_words(entries@, bpe as nat),
        r@.len() == (entries@.len() + (64usize / bpe) as int - 1) / (64usize / bpe) as int,
        forall|i: int|
            0 <= i < r@.len() ==> #[trigger] r@[i] as u64 == word_sum(
                entries@,
                i * (64usize / bpe) as int,
                bpe as nat,
                (64usize / bpe) as nat,
            ),
{
    let epl: usize = 64 / bpe;
    assert(1 <= epl <= 64 && bpe * epl <= 64) by (nonlinear_arith)
        requires
            1 <= bpe <= 64,
            epl == 64usize / bpe,
    ;
    let mut base: u128 = 1;
    let mut k: usize = 0;
    proof {
        lemma2_to64();
    }
    while k < bpe
        invariant
            k <= bpe <= 64,
            base == pow2(k as nat),
        decreases bpe - k,
    {
        proof {
            lemma_pow2_adds(k as nat, 1);
            lemma2_to64();
            if k < 63 {
                vstd::arithmetic::power2::lemma_pow2_strictly_increases(k as nat, 64);
            }
        }
        base = base * 2;
        k = k + 1;
    }
    let n = entries.len();
    let mut out: Vec<i64> = Vec::new();
    let mut start: usize = 0;
    let mut i: usize = 0;
    assert(0 == (0 + epl - 1) / epl as int) by (nonlinear_arith)
        requires
            epl >= 1,
    ;
    while start < n
        invariant
            1 <= epl <= 64,
            bpe * epl <= 64,
            epl == 64usize / bpe,
            1 <= bpe <= 64,
            n == entries@.len(),
            n + 64 <= usize::MAX,
            base == pow2(bpe as nat),
            start == i * epl,
            start <= n + epl,
            i <= n,
            (start < n ==> i == out@.len()),
            out@.len() == i,
            i == (start + epl - 1) / epl as int,
            i > 0 ==> (i - 1) * epl < n,
            entries_fit(entries@, bpe as nat),
            forall|q: int|
                0 <= q < out@.len() ==> #[trigger] out@[q] as u64 == word_sum(
                    entries@,
                    q * epl as int,
                    bpe as nat,
                    epl as nat,
                ),
        decreases n + epl - start,
    {
        let mut acc: u128 = 0;
        let mut mult: u128 = 1;
        let mut j: usize = 0;
        proof {
            lemma2_to64();
        }
        while j < epl
            invariant
                j <= epl,
                epl <= 64,
                1 <= bpe <= 64,
                bpe * epl <= 64,
                base == pow2(bpe as nat),
                mult == pow2(bpe as nat * j as nat),
                acc == word_sum(entries@, start as int, bpe as nat, j as nat),
                acc < mult,
                n == entries@.len(),
                entries_fit(entries@, bpe as nat),
                start < n,
                n + 64 <= usize::MAX,
            decreases epl - j,
        {
            let v: u128 = if start + j < n && entries[start + j] >= 0 {
                entries[start + j] as u128
            } else {
                0
            };
            proof {
                lemma_pow2_pos(bpe as nat);
                if start + j < n {
                    assert(entries@[(start + j) as int] < pow2(bpe as nat));
                }
                assert(v < base);
                lemma_word_sum_bound(entries@, start as int, bpe as nat, (j + 1) as nat);
                lemma_pow2_adds(bpe as nat * j as nat, bpe as nat);
                assert(bpe as nat * j as nat + bpe as nat == bpe as nat * (j + 1) as nat) by (
                nonlinear_arith);
                assert(bpe * (j + 1) <= 64) by (nonlinear_arith)
                    requires
                        j < epl,
                        bpe * epl <= 64,
                ;
                lemma2_to64();
                if bpe * (j + 1) < 64 {
                    vstd::arithmetic::power2::lemma_pow2_strictly_increases(
                        bpe as nat * (j + 1) as nat,
                        64,
                    );
                }
                assert(v * mult + acc < mult * base) by (nonlinear_arith)
                    requires
                        acc < mult,
                        v < base,
                ;
            }
            acc = acc + v * mult;
            mult = mult * base;
            j = j + 1;
        }
        proof {
            lemma2_to64();
            assert(bpe as nat * epl as nat <= 64);
            if bpe * epl < 64 {
                vstd::arithmetic::power2::lemma_pow2_strictly_increases(bpe as nat * epl as nat, 64);
            }
        }
        let w: u64 = acc as u64;
        let word: i64 = #[verifier::truncate] (w as i64);
        assert((word as u64) == w) by (bit_vector)
            requires
                word == w as i64,
        ;
        out.push(word);
        proof {
            assert(out@.last() as u64 == word_sum(entries@, i * epl as int, bpe as nat, epl as nat));
        }
        let ghost old_start = start;
        start = start + epl;
        i = i + 1;
        proof {
            assert(i <= n) by (nonlinear_arith)
                requires
                    old_start == (i - 1) * epl,
                    old_start < n,
                    epl >= 1,
            ;
            assert(start == i * epl) by (nonlinear_arith)
                requires
                    old_start == (i - 1) * epl,
                    start == old_start + epl,
            ;
            assert(i == (start + epl - 1) / epl as int) by (nonlinear_arith)
                requires
                    start == i * epl,
                    epl >= 1,
            ;
        }
    }
    proof {
        assert(i == (n + epl - 1) / epl as int) by (nonlinear_arith)
            requires
                start == i * epl,
                epl >= 1,
                start >= n,
                i == 0 || (i - 1) * epl < n,
        ;
        assert forall|q: int| 0 <= q < out@.len() implies #[trigger] out@[q] == packed_words(entries@, bpe as nat)[q] by {
            let w = out@[q];
            let ws = word_sum(entries@, q * epl as int, bpe as nat, epl as nat);
            lemma_word_sum_bound(entries@, q * epl as int, bpe as nat, epl as nat);
            lemma2_to64();
            if bpe * epl < 64 {
                vstd::arithmetic::power2::lemma_pow2_strictly_increases(bpe as nat * epl as nat, 64);
            }
            let wu = ws as u64;
            assert(w as u64 == wu);
            assert(((w as u64) as i64) == w) by (bit_vector);
        }
        assert(out@ =~= packed_words(entries@, bpe as nat));
    }
    out
}

/// Bits per entry of a height map.
pub const HM_BITS_PER_ENTRY: usize = 9;

/// Bits per entry of a directly paletted section.
pub const SECTION_BITS_PER_ENTRY: usize = 15;

/// Blocks in a section: 16 x 16 x 16.
pub const SECTION_VOLUME: usize = 4096;

/// Sections in a chunk column.
pub const SECTIONS_PER_CHUNK: usize = 24;

/// The height of each of the 16 x 16 columns of a chunk, indexed `z * 16 + x`.
pub struct HeightMap {
    data: Vec<i32>,
}

impl HeightMap {
    pub closed spec fn heights(&self) -> Seq<i32> {
        self.data@
    }

    /// 256 heights, each fitting the nine bits of the wire form.
    pub open spec fn wf(&self) -> bool {
        self.heights().len() == 256 && entries_fit(self.heights(), 9)
    }

    /// All heights zero.
    pub fn new() -> (r: HeightMap)
        ensures
            r.wf(),
            forall|i: int| 0 <= i < 256 ==> #[trigger] r.heights()[i] == 0,
    {
        let mut data: Vec<i32> = Vec::new();
        let mut i: usize = 0;
        while i < 256
            invariant
                i <= 256,
                data@.len() == i,
                forall|k: int| 0 <= k < i ==> #[trigger] data@[k] == 0,
            decreases 256 - i,
        {
            data.push(0);
            i = i + 1;
        }
        proof {
            vstd::arithmetic::power2::lemma2_to64();
        }
        HeightMap { data }
    }

    pub fn set_height(&mut self, x: i32, z: i32, height: i32)
        requires
            old(self).wf(),
            0 <= x < 16,
            0 <= z < 16,
            0 <= height < 512,
        ensures
            final(self).wf(),
            final(self).heights() == old(self).heights().update(z * 16 + x, height),
    {
        let i = (z * 16 + x) as usize;
        self.data.set(i, height);
        proof {
            vstd::arithmetic::power2::lemma2_to64();
            assert forall|k: int| 0 <= k < self.data@.len() implies 0 <= #[trigger] self.data@[k] && self.data@[k]
                < pow2(9) by {
                if k != i {
                    assert(old(self).data@[k] == self.data@[k]);
                }
            }
        }
    }

    pub fn get_height(&self, x: i32, z: i32) -> (r: i32)
        requires
            self.wf(),
            0 <= x < 16,
            0 <= z < 16,
        ensures
            r == self.heights()[z * 16 + x],
    {
        self.data[(z * 16 + x) as usize]
    }

    /// The heights packed nine bits each, as a long-array tag.
    pub fn generate_data(&self) -> (r: NBTTag)
        requires
            self.wf(),
        ensures
            r.model() == crate::nbt::NbtValue::LongArray(packed_words(self.heights(), 9)),
    {
        NBTTag::LongArray(pack_entries(self.data.as_slice(), HM_BITS_PER_ENTRY))
    }
}

/// The index of a block in a section: `(y * 16 + z) * 16 + x`.
pub open spec fn block_index(x: int, y: int, z: int) -> int {
    (y * 16 + z) * 16 + x
}

/// How many entries of `b` are not air (0).
pub open spec fn non_air(b: Seq<u8>) -> nat
    decreases b.len(),
{
    if b.len() == 0 {
        0
    } else {
        non_air(b.drop_last()) + if b.last() != 0 { 1nat } else { 0nat }
    }
}

/// All entries of `b` are `v`.
pub open spec fn all_are(b: Seq<u8>, v: u8) -> bool {
    forall|i: int| 0 <= i < b.len() ==> #[trigger] b[i] == v
}

pub open spec fn as_entries(b: Seq<u8>) -> Seq<i32> {
    b.map_values(|x: u8| x as i32)
}

pub open spec fn longs_be(a: Seq<i64>) -> Seq<u8> {
    crate::nbt::i64s_be(a)
}

/// The wire form of a section: the count of non-air blocks, then either one palette entry
/// (when the section is empty or of one block throughout) or 15-bit entries packed in longs,
/// then a single-valued biome palette.
pub open spec fn section_bytes(b: Seq<u8>) -> Seq<u8> {
    crate::codec::u16_be(non_air(b) as u16) + (if non_air(b) == 0 || all_are(b, b[0]) {
        seq![0u8] + crate::varint::varint_wire(if non_air(b) == 0 { 0 } else { b[0] as i32 }) + crate::varint::varint_wire(0)
    } else {
        seq![15u8] + crate::varint::varint_wire(packed_words(as_entries(b), 15).len() as i32) + longs_be(
            packed_words(as_entries(b), 15),
        )
    }) + seq![0u8] + crate::varint::varint_wire(0) + crate::varint::varint_wire(0)
}

/// One 16 x 16 x 16 section of block ids; 0 is air.
pub struct ChunkSection {
    blocks: Vec<u8>,
}

impl ChunkSection {
    pub closed spec fn block_ids(&self) -> Seq<u8> {
        self.blocks@
    }

    pub open spec fn wf(&self) -> bool {
        self.block_ids().len() == 4096
    }

    /// A section of air.
    pub fn empty() -> (r: ChunkSection)
        ensures
            r.wf(),
            all_are(r.block_ids(), 0),
    {
        let mut blocks: Vec<u8> = Vec::new();
        let mut i: usize = 0;
        while i < SECTION_VOLUME
            invariant
                i <= 4096,
                blocks@.len() == i,
                all_are(blocks@, 0),
            decreases 4096 - i,
        {
            blocks.push(0);
            i = i + 1;
        }
        ChunkSection { blocks }
    }

    pub fn set_block(&mut self, x: i32, y: i32, z: i32, block: u8)
        requires
            old(self).wf(),
            0 <= x < 16,
            0 <= y < 16,
            0 <= z < 16,
        ensures
            final(self).wf(),
            final(self).block_ids() == old(self).block_ids().update(block_index(x as int, y as int, z as int), block),
    {
        let i = ((y * 16 + z) * 16 + x) as usize;
        self.blocks.set(i, block);
    }

    pub fn get_block(&self, x: i32, y: i32, z: i32) -> (r: u8)
        requires
            self.wf(),
            0 <= x < 16,
            0 <= y < 16,
            0 <= z < 16,
        ensures
            r == self.block_ids()[block_index(x as int, y as int, z as int)],
    {
        self.blocks[((y * 16 + z) * 16 + x) as usize]
    }

    /// The section's wire form.
    pub fn to_bytes(&self) -> (r: Vec<u8>)
        requires
            self.wf(),
        ensures
            r@ == section_bytes(self.block_ids()),
    {
        let mut count: u16 = 0;
        let mut same = true;
        let first = self.blocks[0];
        let mut entries: Vec<i32> = Vec::new();
        let mut i: usize = 0;
        while i < SECTION_VOLUME
            invariant
                i <= 4096,
                self.wf(),
                first == self.blocks@[0],
                count == non_air(self.blocks@.take(i as int)),
                count <= i,
                same == all_are(self.blocks@.take(i as int), first),
                entries@ == as_entries(self.blocks@.take(i as int)),
            decreases 4096 - i,
        {
            let b = self.blocks[i];
            proof {
                assert(self.blocks@.take(i + 1).drop_last() =~= self.blocks@.take(i as int));
                assert(as_entries(self.blocks@.take(i + 1)) =~= as_entries(self.blocks@.take(i as int)).push(b as i32));
                if same && b != first {
                    assert(self.blocks@.take(i + 1)[i as int] == b);
                }
                if !same {
                    let k = choose|k: int| 0 <= k < i && #[trigger] self.blocks@.take(i as int)[k] != first;
                    assert(self.blocks@.take(i + 1)[k] != first);
                }
            }
            if b != 0 {
                count = count + 1;
            }
            if b != first {
                same = false;
            }
            entries.push(b as i32);
            i = i + 1;
        }
        assert(self.blocks@.take(4096) =~= self.blocks@);
        let mut out: Vec<u8> = Vec::new();
        push_u16(&mut out, count);
        if count == 0 || same {
            out.push(0u8);
            let single: i32 = if count == 0 {
                0
            } else {
                first as i32
            };
            VarInt(single).serialize(&mut out);
            VarInt(0).serialize(&mut out);
        } else {
            out.push(15u8);
            proof {
                vstd::arithmetic::power2::lemma2_to64();
                assert forall|k: int| 0 <= k < entries@.len() implies 0 <= #[trigger] entries@[k] && entries@[k]
                    < pow2(15) by {}
            }
            let words = pack_entries(entries.as_slice(), SECTION_BITS_PER_ENTRY);
            VarInt(words.len() as i32).serialize(&mut out);
            let ghost before = out@;
            let mut k: usize = 0;
            while k < words.len()
                invariant
                    k <= words@.len(),
                    out@ == before + crate::nbt::i64s_be(words@.take(k as int)),
                decreases words@.len() - k,
            {
                words[k].serialize(&mut out);
                proof {
                    assert(words@.take(k + 1).drop_last() =~= words@.take(k as int));
                }
                k = k + 1;
            }
            assert(words@.take(words@.len() as int) =~= words@);
        }
        out.push(0u8);
        VarInt(0).serialize(&mut out);
        VarInt(0).serialize(&mut out);
        assert(out@ =~= section_bytes(self.block_ids()));
        out
    }
}

/// The block of the flat world's section at index 4, by layer.
pub open spec fn flat_layer(l: int) -> u8 {
    if l == 0 {
        79
    } else if 1 <= l <= 3 {
        10
    } else if l == 4 {
        9
    } else {
        0
    }
}

pub proof fn lemma_block_index(x: int, l: int, z: int)
    requires
        0 <= x < 16,
        0 <= l < 16,
        0 <= z < 16,
    ensures
        0 <= block_index(x, l, z) < 4096,
        block_index(x, l, z) % 16 == x,
        (block_index(x, l, z) / 16) % 16 == z,
        block_index(x, l, z) / 256 == l,
        (l + 64) / 16 == 4 ==> (l + 64) % 16 == l,
        z * 16 + x < 256,
        (z * 16 + x) % 16 == x,
        (z * 16 + x) / 16 == z,
{
    assert(block_index(x, l, z) == l * 256 + z * 16 + x) by (nonlinear_arith);
    assert(0 <= block_index(x, l, z) < 4096) by (nonlinear_arith)
        requires
            block_index(x, l, z) == l * 256 + z * 16 + x,
            0 <= x < 16,
            0 <= l < 16,
            0 <= z < 16,
    ;
}

/// A section index determines its column and layer, and those determine it.
pub proof fn lemma_index_parts(k: int)
    requires
        0 <= k < 4096,
    ensures
        k == block_index(k % 16, k / 256, (k / 16) % 16),
        0 <= k % 16 < 16,
        0 <= (k / 16) % 16 < 16,
        0 <= k / 256 < 16,
{
}

pub proof fn lemma_column_parts(c: int)
    requires
        0 <= c < 256,
    ensures
        c == (c / 16) * 16 + c % 16,
        0 <= c % 16 < 16,
        0 <= c / 16 < 16,
{
}

/// A chunk column: 24 sections from y = -64 up, and two height maps.
pub struct Chunk {
    chunk_sections: Vec<ChunkSection>,
    hm_motion_blocking: HeightMap,
    hm_world_surface: HeightMap,
}

/// The bytes of the sections, one after another.
pub open spec fn sections_bytes(s: Seq<Seq<u8>>) -> Seq<u8>
    decreases s.len(),
{
    if s.len() == 0 {
        Seq::empty()
    } else {
        sections_bytes(s.drop_last()) + section_bytes(s.last())
    }
}

pub proof fn lemma_chunk_lens(c: &Chunk)
    requires
        c.wf(),
    ensures
        c.sections().len() == 24,
        forall|i: int| 0 <= i < 24 ==> (#[trigger] c.sections()[i]).len() == 4096,
        c.world_surface().len() == 256,
        c.motion_blocking().len() == 256,
{
    assert forall|i: int| 0 <= i < 24 implies (#[trigger] c.sections()[i]).len() == 4096 by {
        assert(c.chunk_sections@[i].wf());
    }
}

impl Chunk {
    /// The block ids of each section, bottom first.
    pub closed spec fn sections(&self) -> Seq<Seq<u8>> {
        self.chunk_sections@.map_values(|c: ChunkSection| c.block_ids())
    }

    pub closed spec fn world_surface(&self) -> Seq<i32> {
        self.hm_world_surface.heights()
    }

    pub closed spec fn motion_blocking(&self) -> Seq<i32> {
        self.hm_motion_blocking.heights()
    }

    pub closed spec fn wf(&self) -> bool {
        &&& self.chunk_sections@.len() == 24
        &&& forall|i: int| 0 <= i < 24 ==> (#[trigger] self.chunk_sections@[i]).wf()
        &&& self.hm_motion_blocking.wf()
        &&& self.hm_world_surface.wf()
    }

    /// A column of air.
    pub fn empty() -> (r: Chunk)
        ensures
            r.wf(),
            r.sections().len() == 24,
            forall|i: int| 0 <= i < 24 ==> all_are(#[trigger] r.sections()[i], 0),
            forall|c: int| 0 <= c < 256 ==> #[trigger] r.world_surface()[c] == 0,
            forall|c: int| 0 <= c < 256 ==> #[trigger] r.motion_blocking()[c] == 0,
    {
        let mut chunk_sections: Vec<ChunkSection> = Vec::new();
        let mut i: usize = 0;
        while i < SECTIONS_PER_CHUNK
            invariant
                i <= 24,
                chunk_sections@.len() == i,
                forall|k: int| 0 <= k < i ==> (#[trigger] chunk_sections@[k]).wf() && all_are(chunk_sections@[k].block_ids(), 0),
            decreases 24 - i,
        {
            chunk_sections.push(ChunkSection::empty());
            i = i + 1;
        }
        Chunk { chunk_sections, hm_motion_blocking: HeightMap::new(), hm_world_surface: HeightMap::new() }
    }

    /// Sets the block at column `(x, z)` and height `y` (-64 up to 319). The world-surface
    /// height of the column rises to `y + 64` where that is higher.
    pub fn set_block(&mut self, x: i32, y: i32, z: i32, block: u8)
        requires
            old(self).wf(),
            0 <= x < 16,
            0 <= z < 16,
            -64 <= y < 320,
        ensures
            final(self).wf(),
            final(self).sections() == old(self).sections().update(
                (y + 64) / 16,
                old(self).sections()[(y + 64) / 16].update(block_index(x as int, (y + 64) % 16, z as int), block),
            ),
            final(self).world_surface() == if y + 64 > old(self).world_surface()[z * 16 + x] {
                old(self).world_surface().update(z * 16 + x, (y + 64) as i32)
            } else {
                old(self).world_surface()
            },
            final(self).motion_blocking() == old(self).motion_blocking(),
    {
        let yi = y + 64;
        if yi > self.hm_world_surface.get_height(x, z) {
            self.hm_world_surface.set_height(x, z, yi);
        }
        let sec = (yi / 16) as usize;
        let mut section = self.chunk_sections.remove(sec);
        section.set_block(x, yi % 16, z, block);
        self.chunk_sections.insert(sec, section);
        proof {
            assert(self.sections() =~= old(self).sections().update(
                (y + 64) / 16,
                old(self).sections()[(y + 64) / 16].update(block_index(x as int, (y + 64) % 16, z as int), block),
            ));
        }
    }

    /// The flat world's column: block 79 at y = 0, block 10 from y = 1 to 3, block 9 at
    /// y = 4 (all in the section at index 4, its layers 0 to 4), air elsewhere; every
    /// column's world-surface height is 68 (y = 4, counted from y = -64).
    pub fn flat_generation() -> (r: Chunk)
        ensures
            r.wf(),
            r.sections().len() == 24,
            forall|i: int| 0 <= i < 24 && i != 4 ==> all_are(#[trigger] r.sections()[i], 0),
            r.sections()[4].len() == 4096,
            forall|k: int| 0 <= k < 4096 ==> #[trigger] r.sections()[4][k] == flat_layer(k / 256),
            forall|c: int| 0 <= c < 256 ==> #[trigger] r.world_surface()[c] == 68,
            r.motion_blocking().len() == 256,
            forall|c: int| 0 <= c < 256 ==> #[trigger] r.motion_blocking()[c] == 0,
    {
        let mut out = Chunk::empty();
        proof {
            lemma_chunk_lens(&out);
        }
        let mut x: i32 = 0;
        while x < 16
            invariant
                0 <= x <= 16,
                out.wf(),
                out.sections().len() == 24,
                out.sections()[4].len() == 4096,
                out.world_surface().len() == 256,
                forall|c: int| 0 <= c < 256 ==> #[trigger] out.motion_blocking()[c] == 0,
                forall|i: int| 0 <= i < 24 && i != 4 ==> all_are(#[trigger] out.sections()[i], 0),
                forall|k: int| 0 <= k < 4096 ==> #[trigger] out.sections()[4][k] == if k % 16 < x { flat_layer(k / 256) } else { 0u8 },
                forall|c: int| 0 <= c < 256 ==> #[trigger] out.world_surface()[c] == if c % 16 < x { 68i32 } else { 0i32 },
            decreases 16 - x,
        {
            let mut z: i32 = 0;
            while z < 16
                invariant
                    0 <= x < 16,
                    0 <= z <= 16,
                    out.wf(),
                    out.sections().len() == 24,
                    out.sections()[4].len() == 4096,
                    out.world_surface().len() == 256,
                forall|c: int| 0 <= c < 256 ==> #[trigger] out.motion_blocking()[c] == 0,
                    forall|i: int| 0 <= i < 24 && i != 4 ==> all_are(#[trigger] out.sections()[i], 0),
                    forall|k: int| 0 <= k < 4096 ==> #[trigger] out.sections()[4][k] == if k % 16 < x || (k % 16 == x && (k / 16) % 16 < z) { flat_layer(k / 256) } else { 0u8 },
                    forall|c: int| 0 <= c < 256 ==> #[trigger] out.world_surface()[c] == if c % 16 < x || (c % 16 == x && c / 16 < z) { 68i32 } else { 0i32 },
                decreases 16 - z,
            {
                let mut y: i32 = 1;
                while y < 4
                    invariant
                        0 <= x < 16,
                        0 <= z < 16,
                        1 <= y <= 4,
                        out.wf(),
                        out.sections().len() == 24,
                        out.sections()[4].len() == 4096,
                        out.world_surface().len() == 256,
                forall|c: int| 0 <= c < 256 ==> #[trigger] out.motion_blocking()[c] == 0,
                        forall|i: int| 0 <= i < 24 && i != 4 ==> all_are(#[trigger] out.sections()[i], 0),
                        forall|k: int| 0 <= k < 4096 ==> #[trigger] out.sections()[4][k] == if k % 16 < x || (k % 16 == x && (k / 16) % 16 < z) {
                            flat_layer(k / 256)
                        } else if k % 16 == x && (k / 16) % 16 == z && 1 <= k / 256 < y {
                            10u8
                        } else {
                            0u8
                        },
                        forall|c: int| 0 <= c < 256 ==> #[trigger] out.world_surface()[c] == if c % 16 < x || (c % 16 == x && c / 16 < z) {
                            68i32
                        } else if c == z * 16 + x && y > 1 {
                            (63 + y) as i32
                        } else {
                            0i32
                        },
                    decreases 4 - y,
                {
                    let ghost before = out.sections();
                    out.set_block(x, y, z, 10);
                    proof {
                        lemma_block_index(x as int, y as int, z as int);
                        lemma_chunk_lens(&out);
                        assert forall|i: int| 0 <= i < 24 && i != 4 implies all_are(#[trigger] out.sections()[i], 0) by {
                            assert(out.sections()[i] == before[i]);
                        }
                    }
                    y = y + 1;
                }
                let ghost before = out.sections();
                out.set_block(x, 4, z, 9);
                proof {
                    lemma_block_index(x as int, 4, z as int);
                    lemma_chunk_lens(&out);
                    assert forall|i: int| 0 <= i < 24 && i != 4 implies all_are(#[trigger] out.sections()[i], 0) by {
                        assert(out.sections()[i] == before[i]);
                    }
                }
                let ghost before2 = out.sections();
                out.set_block(x, 0, z, 79);
                proof {
                    lemma_block_index(x as int, 0, z as int);
                    lemma_chunk_lens(&out);
                    assert forall|i: int| 0 <= i < 24 && i != 4 implies all_are(#[trigger] out.sections()[i], 0) by {
                        assert(out.sections()[i] == before2[i]);
                    }
                    assert forall|k: int| 0 <= k < 4096 implies #[trigger] out.sections()[4][k] == if k % 16 < x || (k % 16 == x && (k / 16) % 16 < z + 1) { flat_layer(k / 256) } else { 0u8 } by {
                        lemma_index_parts(k);
                    }
                    assert forall|c: int| 0 <= c < 256 implies #[trigger] out.world_surface()[c] == if c % 16 < x || (c % 16 == x && c / 16 < z + 1) { 68i32 } else { 0i32 } by {
                        lemma_column_parts(c);
                    }
                }
                z = z + 1;
            }
            proof {
                assert forall|k: int| 0 <= k < 4096 implies #[trigger] out.sections()[4][k] == if k % 16 < x + 1 { flat_layer(k / 256) } else { 0u8 } by {
                    lemma_index_parts(k);
                }
                assert forall|c: int| 0 <= c < 256 implies #[trigger] out.world_surface()[c] == if c % 16 < x + 1 { 68i32 } else { 0i32 } by {
                    lemma_column_parts(c);
                }
            }
            x = x + 1;
        }
        out
    }

    /// The sections' wire forms, bottom first.
    pub fn data_bytes(&self) -> (r: Vec<u8>)
        requires
            self.wf(),
        ensures
            r@ == sections_bytes(self.sections()),
    {
        let mut out: Vec<u8> = Vec::new();
        let mut i: usize = 0;
        while i < SECTIONS_PER_CHUNK
            invariant
                i <= 24,
                self.wf(),
                out@ == sections_bytes(self.sections().take(i as int)),
            decreases 24 - i,
        {
            let b = self.chunk_sections[i].to_bytes();
            crate::codec::push_all(&mut out, b.as_slice());
            proof {
                assert(self.sections().take(i + 1).drop_last() =~= self.sections().take(i as int));
            }
            i = i + 1;
        }
        assert(self.sections().take(24) =~= self.sections());
        out
    }

    /// The two height maps as a network-form compound.
    pub fn get_heightmap_nbt(&self) -> (r: NBT)
        requires
            self.wf(),
        ensures
            r.root_name is None,
            r.root_tag.model() == crate::nbt::NbtValue::Compound(
                seq![
                    (world_surface_chars(), crate::nbt::NbtValue::LongArray(packed_words(self.world_surface(), 9))),
                    (motion_blocking_chars(), crate::nbt::NbtValue::LongArray(packed_words(self.motion_blocking(), 9))),
                ],
            ),
    {
        proof {
            reveal_strlit("WORLD_SURFACE");
            reveal_strlit("MOTION_BLOCKING");
            assert("WORLD_SURFACE"@ =~= world_surface_chars());
            assert("MOTION_BLOCKING"@ =~= motion_blocking_chars());
        }
        let mut entries: Vec<(String, NBTTag)> = Vec::new();
        entries.push((String::from_str("WORLD_SURFACE"), self.hm_world_surface.generate_data()));
        entries.push((String::from_str("MOTION_BLOCKING"), self.hm_motion_blocking.generate_data()));
        let r = NBT::new_network(NBTTag::Compound(entries));
        proof {
            crate::nbt::lemma_entries_model(entries@);
            assert(self.world_surface() == self.hm_world_surface.heights());
            assert(crate::nbt::entries_model(entries@) =~= seq![
                (world_surface_chars(), crate::nbt::NbtValue::LongArray(packed_words(self.world_surface(), 9))),
                (motion_blocking_chars(), crate::nbt::NbtValue::LongArray(packed_words(self.motion_blocking(), 9))),
            ]);
        }
        r
    }
}

pub open spec fn world_surface_chars() -> Seq<char> {
    seq!['W', 'O', 'R', 'L', 'D', '_', 'S', 'U', 'R', 'F', 'A', 'C', 'E']
}

pub open spec fn motion_blocking_chars() -> Seq<char> {
    seq!['M', 'O', 'T', 'I', 'O', 'N', '_', 'B', 'L', 'O', 'C', 'K', 'I', 'N', 'G']
}

/// A chunk's position in chunk coordinates.
#[derive(Debug, Clone, Copy, PartialEq, Eq, Hash, Structural)]
pub struct ChunkPosition {
    pub x: i32,
    pub z: i32,
}

/// The loaded chunk columns of a world, by position.
pub struct ChunkManager {
    chunks: Vec<(ChunkPosition, Chunk)>,
}

impl ChunkManager {
    pub closed spec fn positions(&self) -> Seq<ChunkPosition> {
        self.chunks@.map_values(|e: (ChunkPosition, Chunk)| e.0)
    }

    /// No chunks loaded.
    pub fn new() -> (r: ChunkManager)
        ensures
            r.positions().len() == 0,
    {
        ChunkManager { chunks: Vec::new() }
    }
}

/// A world: its identifier.
pub struct World {
    pub identifier: Identifier,
}

/// The worlds the server holds.
pub struct WorldHandler {
    worlds: Vec<World>,
}

impl WorldHandler {
    pub closed spec fn world_count(&self) -> nat {
        self.worlds@.len()
    }

    /// A handler with no worlds.
    pub fn new() -> (r: WorldHandler)
        ensures
            r.world_count() == 0,
    {
        WorldHandler { worlds: Vec::new() }
    }
}

/// The heightmap compound of a chunk, as a value.
pub open spec fn heightmaps_value(world_surface: Seq<i32>, motion_blocking: Seq<i32>) -> crate::nbt::NbtValue {
    crate::nbt::NbtValue::Compound(
        seq![
            (world_surface_chars(), crate::nbt::NbtValue::LongArray(packed_words(world_surface, 9))),
            (motion_blocking_chars(), crate::nbt::NbtValue::LongArray(packed_words(motion_blocking, 9))),
        ],
    )
}

/// The payload of the packet that sends chunk `(x, z)`: its coordinates, the height maps as
/// a network-form document, the section data with its length, then empty block-entity and
/// light lists.
pub open spec fn chunk_payload(x: i32, z: i32, sections: Seq<Seq<u8>>, world_surface: Seq<i32>, motion_blocking: Seq<i32>) -> Seq<u8> {
    crate::codec::i32_be(x) + crate::codec::i32_be(z) + crate::nbt::document_bytes(
        None,
        heightmaps_value(world_surface, motion_blocking),
    ) + crate::varint::varint_wire(sections_bytes(sections).len() as i32) + sections_bytes(sections)
        + seq![0u8, 0u8, 0u8, 0u8, 0u8, 0u8, 0u8]
}

/// The height-map compound can be written and read back.
pub proof fn lemma_heightmaps_value_wf(ws: Seq<i32>, mb: Seq<i32>)
    requires
        ws.len() == 256,
        mb.len() == 256,
    ensures
        crate::nbt::sizes_fit(heightmaps_value(ws, mb)),
        crate::nbt::homogeneous(heightmaps_value(ws, mb)),
{
    let c = heightmaps_value(ws, mb)->Compound_0;
    assert(c.drop_last().drop_last() =~= Seq::<(Seq<char>, crate::nbt::NbtValue)>::empty());
    assert(c.drop_last() =~= seq![c[0]]);
    crate::nbt::lemma_encode_utf8_len(world_surface_chars());
    crate::nbt::lemma_encode_utf8_len(motion_blocking_chars());
    assert(64nat / 9nat == 7nat);
    assert((256int + 7 - 1) / 7int == 37int);
    assert(packed_words(ws, 9).len() == 37);
    assert(packed_words(mb, 9).len() == 37);
    let c1 = c.drop_last();
    assert(c1.last() == c[0]);
    assert(crate::nbt::sizes_fit(c[0].1));
    assert(crate::nbt::sizes_fit(c[1].1));
    assert(crate::nbt::entries_sizes_fit(c1.drop_last()));
    assert(crate::nbt::entries_sizes_fit(c1));
    assert(crate::nbt::entries_sizes_fit(c));
    assert(crate::nbt::homogeneous(c[0].1));
    assert(crate::nbt::homogeneous(c[1].1));
    assert(crate::nbt::entries_homogeneous(c1.drop_last()));
    assert(crate::nbt::entries_homogeneous(c1));
    assert(crate::nbt::entries_homogeneous(c));
}

impl Chunk {
    /// The payload of the packet that sends this column as chunk `(x, z)`.
    pub fn packet_payload(&self, x: i32, z: i32) -> (r: Vec<u8>)
        requires
            self.wf(),
        ensures
            r@ == chunk_payload(x, z, self.sections(), self.world_surface(), self.motion_blocking()),
    {
        let mut out: Vec<u8> = Vec::new();
        crate::codec::push_i32(&mut out, x);
        crate::codec::push_i32(&mut out, z);
        let hm = self.get_heightmap_nbt();
        proof {
            lemma_heightmaps_value_wf(self.world_surface(), self.motion_blocking());
        }
        match hm.as_bytes() {
            Ok(b) => crate::codec::push_all(&mut out, b.as_slice()),
            Err(_) => {},
        }
        let data = self.data_bytes();
        VarInt(#[verifier::truncate] (data.len() as i32)).serialize(&mut out);
        crate::codec::push_all(&mut out, data.as_slice());
        out.push(0u8);
        out.push(0u8);
        out.push(0u8);
        out.push(0u8);
        out.push(0u8);
        out.push(0u8);
        out.push(0u8);
        assert(out@ =~= chunk_payload(x, z, self.sections(), self.world_surface(), self.motion_blocking()));
        out
    }
}

} // verus!
