//! Worlds, and the level data that they are read from and written to.
//!
//! A level stores a height and a meta byte per texel. Meta bits 3 to 5 hold
//! the terrain type, bit 6 marks a double-level texel, bits 0 and 1 hold one
//! half of the 4-bit distance between two levels of a double-level texel, and
//! bits 2 and 7 are baked shadows. A double level spans two horizontally
//! adjacent texels: the first holds the lower level, the second the upper one.

use vstd::prelude::*;

verus! {

/// Number of terrain types.
pub const NUM_TERRAINS: u8 = 8;

/// Bits of a terrain type.
pub const MAT_BITS: usize = 3;

/// Meta bit of a double-level texel.
pub const DOUBLE_LEVEL: u8 = 64;

/// Meta bits of one half of a delta.
pub const DELTA_MASK: u8 = 3;

/// Number of bits of one half of a delta.
pub const DELTA_BITS: u8 = 2;

/// Lowest meta bit of the terrain type.
pub const TERRAIN_SHIFT: u8 = 3;

/// A raw level: row by row, a height and a meta byte per texel.
pub struct LevelData {
    pub size: (i32, i32),
    pub height: Vec<u8>,
    pub meta: Vec<u8>,
}

/// Lossless per-texel decoding of a level, without the baked shadow bits,
/// which are dropped deliberately: lighting is recomputed.
///
/// Dual cells whose delta is 0 are kept apart from single ones by `dual`.
pub struct World {
    pub name: String,
    pub width: usize,
    pub height: usize,
    pub h0: Vec<u8>,
    pub h1: Vec<u8>,
    /// Raw 4-bit delta (0..=15), unscaled.
    pub delta: Vec<u8>,
    /// 1 where the texel belongs to a double-level pair.
    pub dual: Vec<u8>,
    pub m0: Vec<u8>,
    pub m1: Vec<u8>,
    /// Meta bits 0 and 1 of single texels, which carry no delta there; 0 on
    /// double-level ones.
    pub spare: Vec<u8>,
}

/// What a world holds of one texel.
pub struct Texel {
    pub h0: u8,
    pub h1: u8,
    pub delta: u8,
    pub dual: u8,
    pub m0: u8,
    pub m1: u8,
    pub spare: u8,
}

impl World {
    /// Every plane has one entry per texel.
    pub open spec fn wf(&self) -> bool {
        let total = self.width * self.height;
        &&& self.h0@.len() == total
        &&& self.h1@.len() == total
        &&& self.delta@.len() == total
        &&& self.dual@.len() == total
        &&& self.m0@.len() == total
        &&& self.m1@.len() == total
        &&& self.spare@.len() == total
    }

    /// The texels of the world, row by row.
    pub open spec fn texels(&self) -> Seq<Texel> {
        Seq::new(self.h0@.len(), |i: int| texel_at(*self, i))
    }
}

/// The entries of the planes of `w` at index `i`.
pub open spec fn texel_at(w: World, i: int) -> Texel {
    Texel {
        h0: w.h0@[i],
        h1: w.h1@[i],
        delta: w.delta@[i],
        dual: w.dual@[i],
        m0: w.m0@[i],
        m1: w.m1@[i],
        spare: w.spare@[i],
    }
}

/// The first texel of the pair that texel `i` belongs to.
pub open spec fn pair_of(i: int) -> int {
    i - i % 2
}

/// Terrain type of a meta byte.
pub open spec fn terrain_of(meta: u8) -> u8 {
    ((meta / 8) % 8) as u8
}

/// Whether a meta byte marks a double level.
pub open spec fn is_double(meta: u8) -> bool {
    (meta / 64) % 2 == 1
}

/// The half of a delta that a meta byte holds: its bits 0 and 1.
pub open spec fn half_delta(meta: u8) -> u8 {
    (meta % 4) as u8
}

/// What a level says of texel `i`.
pub open spec fn decode_texel(height: Seq<u8>, meta: Seq<u8>, i: int) -> Texel {
    let p = pair_of(i);
    if is_double(meta[p]) {
        Texel {
            h0: height[p],
            h1: height[p + 1],
            delta: (half_delta(meta[p]) * 4 + half_delta(meta[p + 1])) as u8,
            dual: 1,
            m0: terrain_of(meta[p]),
            m1: terrain_of(meta[p + 1]),
            spare: 0,
        }
    } else {
        Texel {
            h0: height[i],
            h1: height[i],
            delta: 0,
            dual: 0,
            m0: terrain_of(meta[i]),
            m1: terrain_of(meta[i]),
            spare: half_delta(meta[i]),
        }
    }
}

/// The height byte that a level stores for texel `i`.
pub open spec fn encode_height(texels: Seq<Texel>, i: int) -> u8 {
    let first = texels[pair_of(i)];
    if first.dual == 0 {
        texels[i].h0
    } else if i % 2 == 0 {
        first.h0
    } else {
        first.h1
    }
}

/// The meta byte that a level stores for texel `i`.
pub open spec fn encode_meta(texels: Seq<Texel>, i: int) -> u8 {
    let first = texels[pair_of(i)];
    if first.dual == 0 {
        (texels[i].m0 * 8 + texels[i].spare % 4) as u8
    } else if i % 2 == 0 {
        (64 + first.m0 * 8 + (first.delta / 4) % 4) as u8
    } else {
        (64 + first.m1 * 8 + first.delta % 4) as u8
    }
}

/// Every stored terrain type is in range, and a double-level texel is followed
/// by its other half.
pub open spec fn encodable(texels: Seq<Texel>) -> bool {
    &&& texels.len() % 2 == 0
    &&& forall|i: int|
        #![trigger texels[i]]
        0 <= i < texels.len() && i % 2 == 0 ==> {
            &&& texels[i].m0 < NUM_TERRAINS
            &&& texels[i].dual != 0 ==> texels[i].m1 < NUM_TERRAINS && texels[i + 1].dual == 1
            &&& texels[i].dual == 0 ==> texels[i + 1].m0 < NUM_TERRAINS
        }
}

/// The constraints that every decoded world meets: both texels of a
/// double-level pair say the same, and a single texel repeats its one level.
pub open spec fn valid_texels(texels: Seq<Texel>) -> bool {
    &&& texels.len() % 2 == 0
    &&& forall|i: int| 0 <= i < texels.len() ==> valid_texel(#[trigger] texels[i])
    &&& forall|i: int|
        #![trigger texels[i]]
        0 <= i < texels.len() && i % 2 == 0 ==> {
            &&& texels[i].dual == texels[i + 1].dual
            &&& texels[i].dual == 1 ==> texels[i] == texels[i + 1]
        }
}

/// A texel is double or single, in range, and single texels have one level.
pub open spec fn valid_texel(t: Texel) -> bool {
    &&& t.dual == 0 || t.dual == 1
    &&& t.delta < 16
    &&& t.m0 < NUM_TERRAINS
    &&& t.m1 < NUM_TERRAINS
    &&& t.dual == 0 ==> t.h1 == t.h0 && t.m1 == t.m0 && t.delta == 0
    &&& t.spare < 4
    &&& t.dual == 1 ==> t.spare == 0
}

/// Terrain type of a meta byte.
fn read_terrain(meta: u8) -> (t: u8)
    ensures
        t == terrain_of(meta),
        t < NUM_TERRAINS,
{
    assert((meta >> 3u8) & 7u8 == (meta / 8) % 8) by (bit_vector);
    (meta >> TERRAIN_SHIFT) & (NUM_TERRAINS - 1)
}

/// Meta bits of a terrain type.
fn write_terrain(t: u8) -> (meta: u8)
    requires
        t < NUM_TERRAINS,
    ensures
        meta == t * 8,
{
    assert(t << 3u8 == t * 8) by (bit_vector)
        requires
            t < 8,
    ;
    t << TERRAIN_SHIFT
}

/// The meta byte of one half of a double level.
fn double_meta(terrain: u8, half: u8) -> (meta: u8)
    requires
        terrain < NUM_TERRAINS,
        half < 4,
    ensures
        meta == 64 + terrain * 8 + half,
{
    let bits = write_terrain(terrain);
    assert(64u8 | bits | half == 64 + bits + half) by (bit_vector)
        requires
            bits % 8 == 0,
            bits < 64,
            half < 4,
    ;
    DOUBLE_LEVEL | bits | half
}

/// The meta byte of a single texel.
fn single_meta(terrain: u8, spare: u8) -> (meta: u8)
    requires
        terrain < NUM_TERRAINS,
    ensures
        meta == terrain * 8 + spare % 4,
{
    let bits = write_terrain(terrain);
    assert(bits | (spare & 3u8) == bits + spare % 4) by (bit_vector)
        requires
            bits % 8 == 0,
            bits < 64,
    ;
    bits | (spare & DELTA_MASK)
}

/// The delta that the meta bytes of a pair hold.
fn read_delta(ma: u8, mb: u8) -> (d: u8)
    ensures
        d == half_delta(ma) * 4 + half_delta(mb),
        d < 16,
{
    assert(((ma & 3u8) << 2u8) | (mb & 3u8) == (ma % 4) * 4 + mb % 4) by (bit_vector);
    ((ma & DELTA_MASK) << DELTA_BITS) | (mb & DELTA_MASK)
}

impl World {
    /// Decodes a level.
    pub fn from_level_data(name: &str, data: &LevelData) -> (w: World)
        requires
            0 <= data.size.0,
            0 <= data.size.1,
            data.size.0 * data.size.1 <= usize::MAX,
            (data.size.0 * data.size.1) % 2 == 0,
            data.size.0 * data.size.1 <= data.height@.len(),
            data.size.0 * data.size.1 <= data.meta@.len(),
        ensures
            w.name@ == name@,
            w.width == data.size.0,
            w.height == data.size.1,
            w.wf(),
            w.texels() == decoded_texels(
                data.height@,
                data.meta@,
                (data.size.0 * data.size.1) as nat,
            ),
            valid_texels(w.texels()),
            // A texel of a pair whose first meta byte has bit 6 set: the first height
            // of the pair is the lower level, the second the upper one.
            forall|i: int|
                #![trigger w.h0@[i]]
                0 <= i < w.h0@.len() && (data.meta@[i - i % 2] / 64) % 2 == 1 ==> {
                    let p = i - i % 2;
                    &&& w.h0@[i] == data.height@[p] && w.h1@[i] == data.height@[p + 1]
                    &&& w.m0@[i] == (data.meta@[p] / 8) % 8 && w.m1@[i] == (data.meta@[p + 1] / 8) % 8
                    &&& w.delta@[i] == (data.meta@[p] % 4) * 4 + data.meta@[p + 1] % 4
                    &&& w.dual@[i] == 1 && w.spare@[i] == 0
                },
            // A texel of any other pair: its own height and terrain.
            forall|i: int|
                #![trigger w.h0@[i]]
                0 <= i < w.h0@.len() && (data.meta@[i - i % 2] / 64) % 2 == 0 ==> {
                    &&& w.h0@[i] == data.height@[i] && w.h1@[i] == data.height@[i]
                    &&& w.m0@[i] == (data.meta@[i] / 8) % 8 && w.m1@[i] == (data.meta@[i] / 8) % 8
                    &&& w.delta@[i] == 0 && w.dual@[i] == 0 && w.spare@[i] == data.meta@[i] % 4
                },
    {
        let w = World::decode_level(name, data);
        proof {
            lemma_decoded_planes(w, data.height@, data.meta@);
        }
        w
    }

    /// Decodes a level, texel by texel.
    fn decode_level(name: &str, data: &LevelData) -> (w: World)
        requires
            0 <= data.size.0,
            0 <= data.size.1,
            data.size.0 * data.size.1 <= usize::MAX,
            (data.size.0 * data.size.1) % 2 == 0,
            data.size.0 * data.size.1 <= data.height@.len(),
            data.size.0 * data.size.1 <= data.meta@.len(),
        ensures
            w.name@ == name@,
            w.width == data.size.0,
            w.height == data.size.1,
            w.wf(),
            w.texels() == decoded_texels(
                data.height@,
                data.meta@,
                (data.size.0 * data.size.1) as nat,
            ),
            valid_texels(w.texels()),
    {
        let width = data.size.0 as usize;
        let height = data.size.1 as usize;
        let total = width * height;
        let mut w = World {
            name: name.to_string(),
            width,
            height,
            h0: Vec::new(),
            h1: Vec::new(),
            delta: Vec::new(),
            dual: Vec::new(),
            m0: Vec::new(),
            m1: Vec::new(),
            spare: Vec::new(),
        };
        let mut i: usize = 0;
        while i < total
            invariant
                i <= total,
                i % 2 == 0,
                total % 2 == 0,
                total == width * height,
                total <= data.height@.len(),
                total <= data.meta@.len(),
                w.name@ == name@,
                w.width == width,
                w.height == height,
                w.h0@.len() == i,
                w.h1@.len() == i,
                w.delta@.len() == i,
                w.dual@.len() == i,
                w.m0@.len() == i,
                w.m1@.len() == i,
                w.spare@.len() == i,
                forall|j: int|
                    0 <= j < i ==> #[trigger] texel_at(w, j) == decode_texel(
                        data.height@,
                        data.meta@,
                        j,
                    ),
            decreases total - i,
        {
            let ma = data.meta[i];
            let mb = data.meta[i + 1];
            let ghost before = w;
            assert(ma & 64u8 != 0 <==> (ma / 64) % 2 == 1) by (bit_vector);
            if ma & DOUBLE_LEVEL != 0 {
                let d = read_delta(ma, mb);
                let m0 = read_terrain(ma);
                let m1 = read_terrain(mb);
                w.push_texel(data.height[i], data.height[i + 1], d, 1, m0, m1, 0);
                w.push_texel(data.height[i], data.height[i + 1], d, 1, m0, m1, 0);
            } else {
                assert(ma & 3u8 == ma % 4 && mb & 3u8 == mb % 4) by (bit_vector);
                let m = read_terrain(ma);
                w.push_texel(data.height[i], data.height[i], 0, 0, m, m, ma & DELTA_MASK);
                let m = read_terrain(mb);
                w.push_texel(data.height[i + 1], data.height[i + 1], 0, 0, m, m, mb & DELTA_MASK);
            }
            proof {
                assert(pair_of(i as int) == i && pair_of(i + 1) == i);
                assert forall|j: int| 0 <= j < i + 2 implies #[trigger] texel_at(w, j)
                    == decode_texel(data.height@, data.meta@, j) by {
                    if j < i {
                        assert(texel_at(w, j) == texel_at(before, j));
                    }
                }
            }
            i = i + 2;
        }
        proof {
            assert forall|j: int| 0 <= j < total implies #[trigger] w.texels()[j] == decode_texel(
                data.height@,
                data.meta@,
                j,
            ) by {
                assert(w.texels()[j] == texel_at(w, j));
            }
            assert(w.texels() =~= decoded_texels(data.height@, data.meta@, total as nat));
            lemma_decoded_valid(data.height@, data.meta@, w.texels());
        }
        w
    }

    /// Appends one texel to every plane.
    pub(crate) fn push_texel(
        &mut self,
        h0: u8,
        h1: u8,
        delta: u8,
        dual: u8,
        m0: u8,
        m1: u8,
        spare: u8,
    )
        ensures
            final(self).name == old(self).name,
            final(self).width == old(self).width,
            final(self).height == old(self).height,
            final(self).h0@ == old(self).h0@.push(h0),
            final(self).h1@ == old(self).h1@.push(h1),
            final(self).delta@ == old(self).delta@.push(delta),
            final(self).dual@ == old(self).dual@.push(dual),
            final(self).m0@ == old(self).m0@.push(m0),
            final(self).m1@ == old(self).m1@.push(m1),
            final(self).spare@ == old(self).spare@.push(spare),
    {
        self.h0.push(h0);
        self.h1.push(h1);
        self.delta.push(delta);
        self.dual.push(dual);
        self.m0.push(m0);
        self.m1.push(m1);
        self.spare.push(spare);
    }

    /// Encodes the world as a level; undoes [`World::from_level_data`].
    pub fn to_level_data(&self) -> (data: LevelData)
        requires
            self.wf(),
            encodable(self.texels()),
        ensures
            data.size == (self.width as i32, self.height as i32),
            data.height@ == encoded_heights(self.texels()),
            data.meta@ == encoded_metas(self.texels()),
            data.height@.len() == self.h0@.len(),
            data.meta@.len() == self.h0@.len(),
            // A texel of a dual pair: the lower level first, the upper one second.
            forall|i: int|
                #![trigger data.height@[i]]
                0 <= i < self.dual@.len() && self.dual@[i - i % 2] != 0 ==> {
                    let p = i - i % 2;
                    if i == p {
                        &&& data.height@[i] == self.h0@[p]
                        &&& data.meta@[i] == 64 + self.m0@[p] * 8 + (self.delta@[p] / 4) % 4
                    } else {
                        &&& data.height@[i] == self.h1@[p]
                        &&& data.meta@[i] == 64 + self.m1@[p] * 8 + self.delta@[p] % 4
                    }
                },
            // Any other pair: each texel by itself.
            forall|i: int|
                #![trigger data.height@[i]]
                0 <= i < self.dual@.len() && self.dual@[i - i % 2] == 0 ==> {
                    &&& data.height@[i] == self.h0@[i]
                    &&& data.meta@[i] == self.m0@[i] * 8 + self.spare@[i] % 4
                },
    {
        let ghost texels = self.texels();
        let total = self.h0.len();
        let mut height: Vec<u8> = Vec::new();
        let mut meta: Vec<u8> = Vec::new();
        let mut i: usize = 0;
        while i < total
            invariant
                i <= total,
                i % 2 == 0,
                total % 2 == 0,
                total == texels.len(),
                texels == self.texels(),
                self.wf(),
                encodable(texels),
                total == self.h0@.len(),
                height@.len() == i,
                meta@.len() == i,
                forall|j: int| 0 <= j < i ==> #[trigger] height@[j] == encode_height(texels, j),
                forall|j: int| 0 <= j < i ==> #[trigger] meta@[j] == encode_meta(texels, j),
            decreases total - i,
        {
            assert(pair_of(i as int) == i && pair_of(i + 1) == i);
            assert(texels[i as int] == texel_at(*self, i as int));
            assert(texels[i + 1] == texel_at(*self, i + 1));
            if self.dual[i] != 0 {
                let d = self.delta[i];
                assert((d >> 2u8) & 3u8 == (d / 4) % 4 && d & 3u8 == d % 4) by (bit_vector);
                height.push(self.h0[i]);
                height.push(self.h1[i]);
                let lower = double_meta(self.m0[i], (d >> DELTA_BITS) & DELTA_MASK);
                let upper = double_meta(self.m1[i], d & DELTA_MASK);
                meta.push(lower);
                meta.push(upper);
            } else {
                height.push(self.h0[i]);
                height.push(self.h0[i + 1]);
                let first = single_meta(self.m0[i], self.spare[i]);
                let second = single_meta(self.m0[i + 1], self.spare[i + 1]);
                meta.push(first);
                meta.push(second);
            }
            i = i + 2;
        }
        assert(height@ =~= encoded_heights(texels));
        assert(meta@ =~= encoded_metas(texels));
        proof {
            assert forall|i: int|
                #![trigger height@[i]]
                0 <= i < total && self.dual@[i - i % 2] != 0 implies {
                let p = i - i % 2;
                if i == p {
                    &&& height@[i] == self.h0@[p]
                    &&& meta@[i] == 64 + self.m0@[p] * 8 + (self.delta@[p] / 4) % 4
                } else {
                    &&& height@[i] == self.h1@[p]
                    &&& meta@[i] == 64 + self.m1@[p] * 8 + self.delta@[p] % 4
                }
            } by {
                assert(texels[i - i % 2] == texel_at(*self, i - i % 2));
                law_encoded_pair(texels, i - i % 2);
            }
            assert forall|i: int|
                #![trigger height@[i]]
                0 <= i < total && self.dual@[i - i % 2] == 0 implies {
                &&& height@[i] == self.h0@[i]
                &&& meta@[i] == self.m0@[i] * 8 + self.spare@[i] % 4
            } by {
                assert(texels[i] == texel_at(*self, i));
                assert(texels[i - i % 2] == texel_at(*self, i - i % 2));
                law_encoded_single(texels, i);
            }
        }
        LevelData { size: (self.width as i32, self.height as i32), height, meta }
    }
}

/// The planes of a decoded world, in terms of the bytes of the level.
proof fn lemma_decoded_planes(w: World, height: Seq<u8>, meta: Seq<u8>)
    requires
        w.wf(),
        w.h0@.len() % 2 == 0,
        w.texels() == decoded_texels(height, meta, w.h0@.len()),
    ensures
        forall|i: int|
            #![trigger w.h0@[i]]
            0 <= i < w.h0@.len() && (meta[i - i % 2] / 64) % 2 == 1 ==> {
                let p = i - i % 2;
                &&& w.h0@[i] == height[p] && w.h1@[i] == height[p + 1]
                &&& w.m0@[i] == (meta[p] / 8) % 8 && w.m1@[i] == (meta[p + 1] / 8) % 8
                &&& w.delta@[i] == (meta[p] % 4) * 4 + meta[p + 1] % 4
                &&& w.dual@[i] == 1 && w.spare@[i] == 0
            },
        forall|i: int|
            #![trigger w.h0@[i]]
            0 <= i < w.h0@.len() && (meta[i - i % 2] / 64) % 2 == 0 ==> {
                &&& w.h0@[i] == height[i] && w.h1@[i] == height[i]
                &&& w.m0@[i] == (meta[i] / 8) % 8 && w.m1@[i] == (meta[i] / 8) % 8
                &&& w.delta@[i] == 0 && w.dual@[i] == 0 && w.spare@[i] == meta[i] % 4
            },
{
    let total = w.h0@.len();
    assert forall|i: int|
        #![trigger w.h0@[i]]
        0 <= i < total && (meta[i - i % 2] / 64) % 2 == 1 implies {
        let p = i - i % 2;
        &&& w.h0@[i] == height[p] && w.h1@[i] == height[p + 1]
        &&& w.m0@[i] == (meta[p] / 8) % 8 && w.m1@[i] == (meta[p + 1] / 8) % 8
        &&& w.delta@[i] == (meta[p] % 4) * 4 + meta[p + 1] % 4
        &&& w.dual@[i] == 1 && w.spare@[i] == 0
    } by {
        law_decoded_pair(height, meta, total, i - i % 2);
        assert(w.texels()[i] == texel_at(w, i));
    }
    assert forall|i: int|
        #![trigger w.h0@[i]]
        0 <= i < total && (meta[i - i % 2] / 64) % 2 == 0 implies {
        &&& w.h0@[i] == height[i] && w.h1@[i] == height[i]
        &&& w.m0@[i] == (meta[i] / 8) % 8 && w.m1@[i] == (meta[i] / 8) % 8
        &&& w.delta@[i] == 0 && w.dual@[i] == 0 && w.spare@[i] == meta[i] % 4
    } by {
        law_decoded_single(height, meta, total, i);
        assert(w.texels()[i] == texel_at(w, i));
    }
}

/// Decoded texels meet the constraints of a world.
proof fn lemma_decoded_valid(height: Seq<u8>, meta: Seq<u8>, texels: Seq<Texel>)
    requires
        texels.len() % 2 == 0,
        forall|i: int|
            0 <= i < texels.len() ==> #[trigger] texels[i] == decode_texel(height, meta, i),
    ensures
        valid_texels(texels),
{
    assert forall|i: int|
        #![trigger texels[i]]
        0 <= i < texels.len() && i % 2 == 0 implies texels[i].dual == texels[i + 1].dual && (
    texels[i].dual == 1 ==> texels[i] == texels[i + 1]) by {
        assert(texels[i + 1] == decode_texel(height, meta, i + 1));
        assert(pair_of(i) == i && pair_of(i + 1) == i);
    }
}

/// The height bytes that a level stores for some texels.
pub open spec fn encoded_heights(texels: Seq<Texel>) -> Seq<u8> {
    Seq::new(texels.len(), |i: int| encode_height(texels, i))
}

/// The meta bytes that a level stores for some texels.
pub open spec fn encoded_metas(texels: Seq<Texel>) -> Seq<u8> {
    Seq::new(texels.len(), |i: int| encode_meta(texels, i))
}

/// The texels that a level of `total` texels decodes to.
pub open spec fn decoded_texels(height: Seq<u8>, meta: Seq<u8>, total: nat) -> Seq<Texel> {
    Seq::new(total, |i: int| decode_texel(height, meta, i))
}

/// Both texels of every pair are marked as double-level, or neither is.
pub open spec fn marks_agree(meta: Seq<u8>) -> bool {
    forall|i: int|
        0 <= i < meta.len() ==> is_double(#[trigger] meta[i]) == is_double(meta[pair_of(i)])
}

/// A meta byte without its shadow bits 2 and 7.
pub open spec fn unshadowed(meta: u8) -> u8 {
    meta & 0x7b
}

/// The meta byte of texel `i` without its shadow bits, marked as the first
/// texel of its pair is.
pub open spec fn kept_meta(meta: Seq<u8>, i: int) -> u8 {
    ((if is_double(meta[pair_of(i)]) {
        64int
    } else {
        0
    }) + terrain_of(meta[i]) * 8 + half_delta(meta[i])) as u8
}

/// What a level says of a pair whose first meta byte has bit 6 set, whatever
/// its other bits: the first texel's height is the lower level of both texels
/// and the second's the upper one, and so with the terrain types. The delta has
/// its upper half in the first meta byte.
pub proof fn law_decoded_pair(height: Seq<u8>, meta: Seq<u8>, total: nat, i: int)
    requires
        0 <= i,
        i % 2 == 0,
        i + 1 < total,
        (meta[i] / 64) % 2 == 1,
    ensures
        ({
            let t = decoded_texels(height, meta, total);
            &&& t[i] == t[i + 1]
            &&& t[i].h0 == height[i]
            &&& t[i].h1 == height[i + 1]
            &&& t[i].m0 == (meta[i] / 8) % 8
            &&& t[i].m1 == (meta[i + 1] / 8) % 8
            &&& t[i].delta == (meta[i] % 4) * 4 + meta[i + 1] % 4
            &&& t[i].dual == 1
            &&& t[i].spare == 0
        }),
{
    assert(pair_of(i) == i && pair_of(i + 1) == i);
}

/// What a level says of a texel of any other pair: its own height and terrain
/// type, once for both levels.
pub proof fn law_decoded_single(height: Seq<u8>, meta: Seq<u8>, total: nat, i: int)
    requires
        0 <= i < total,
        (meta[i - i % 2] / 64) % 2 == 0,
    ensures
        ({
            let t = decoded_texels(height, meta, total)[i];
            &&& t.h0 == height[i] && t.h1 == height[i]
            &&& t.m0 == (meta[i] / 8) % 8 && t.m1 == (meta[i] / 8) % 8
            &&& t.delta == 0 && t.dual == 0
            &&& t.spare == meta[i] % 4
        }),
{
}

/// What a level stores of a dual pair: both bytes of both texels come from the
/// pair's first texel, the lower level and the upper half of the delta first.
pub proof fn law_encoded_pair(texels: Seq<Texel>, i: int)
    requires
        encodable(texels),
        0 <= i,
        i % 2 == 0,
        i + 1 < texels.len(),
        texels[i].dual != 0,
    ensures
        encoded_heights(texels)[i] == texels[i].h0,
        encoded_heights(texels)[i + 1] == texels[i].h1,
        encoded_metas(texels)[i] == 64 + texels[i].m0 * 8 + (texels[i].delta / 4) % 4,
        encoded_metas(texels)[i + 1] == 64 + texels[i].m1 * 8 + texels[i].delta % 4,
{
    assert(pair_of(i) == i && pair_of(i + 1) == i);
}

/// What a level stores of a texel of any other pair: its own level and terrain
/// type, and its spare bits.
pub proof fn law_encoded_single(texels: Seq<Texel>, i: int)
    requires
        encodable(texels),
        0 <= i < texels.len(),
        texels[i - i % 2].dual == 0,
    ensures
        encoded_heights(texels)[i] == texels[i].h0,
        encoded_metas(texels)[i] == texels[i].m0 * 8 + texels[i].spare % 4,
{
    assert(texels[i - i % 2].m0 < NUM_TERRAINS);
    if i % 2 == 1 {
        assert(i - 1 == i - i % 2);
        assert(texels[i - 1 + 1].m0 < NUM_TERRAINS);
    }
}

/// Every valid world can be encoded.
pub proof fn law_valid_is_encodable(texels: Seq<Texel>)
    requires
        valid_texels(texels),
    ensures
        encodable(texels),
{
    assert forall|i: int| #![trigger texels[i]] 0 <= i < texels.len() && i % 2 == 0 implies {
        &&& texels[i].m0 < NUM_TERRAINS
        &&& texels[i].dual != 0 ==> texels[i].m1 < NUM_TERRAINS && texels[i + 1].dual == 1
        &&& texels[i].dual == 0 ==> texels[i + 1].m0 < NUM_TERRAINS
    } by {
        assert(valid_texel(texels[i]));
        assert(valid_texel(texels[i + 1]));
    }
}

/// The fields of a meta byte that is put together from them.
proof fn lemma_meta_fields(double: bool, terrain: int, half: int)
    requires
        0 <= terrain < 8,
        0 <= half < 4,
    ensures
        ({
            let meta = ((if double {
                64int
            } else {
                0
            }) + terrain * 8 + half) as u8;
            is_double(meta) == double && terrain_of(meta) == terrain && half_delta(meta) == half
        }),
{
}

/// Decoding what a valid world encodes to gives the world back.
pub proof fn law_decode_undoes_encode(texels: Seq<Texel>)
    requires
        valid_texels(texels),
    ensures
        decoded_texels(encoded_heights(texels), encoded_metas(texels), texels.len()) == texels,
{
    let heights = encoded_heights(texels);
    let metas = encoded_metas(texels);
    assert forall|i: int| 0 <= i < texels.len() implies #[trigger] decode_texel(heights, metas, i)
        == texels[i] by {
        let p = pair_of(i);
        assert(pair_of(p) == p && pair_of(p + 1) == p);
        let first = texels[p];
        let t = texels[i];
        assert(valid_texel(first) && valid_texel(t));
        assert(first.dual == texels[p + 1].dual);
        assert(metas[p] == encode_meta(texels, p) && metas[p + 1] == encode_meta(texels, p + 1));
        assert(metas[i] == encode_meta(texels, i) && heights[i] == encode_height(texels, i));
        if first.dual == 0 {
            lemma_meta_fields(false, first.m0 as int, first.spare as int);
            lemma_meta_fields(false, t.m0 as int, t.spare as int);
        } else {
            lemma_meta_fields(true, first.m0 as int, first.delta as int / 4);
            lemma_meta_fields(true, first.m1 as int, first.delta as int % 4);
            assert(t == first);
        }
    }
    assert(decoded_texels(heights, metas, texels.len()) =~= texels);
}

/// A meta byte without its shadow bits, in terms of its fields.
proof fn lemma_unshadowed(m: u8)
    ensures
        unshadowed(m) == (if is_double(m) {
            64int
        } else {
            0
        }) + terrain_of(m) * 8 + half_delta(m),
{
    assert(m & 0x7b == ((m / 64) % 2) * 64 + ((m / 8) % 8) * 8 + m % 4) by (bit_vector);
}

/// Encoding what a level decodes to gives the level back, but for the shadow
/// bits: where the texels of every pair are marked alike, nothing else is lost.
/// Where they are not, the mark of the first texel counts.
pub proof fn law_encode_undoes_decode(height: Seq<u8>, meta: Seq<u8>)
    requires
        height.len() == meta.len(),
        meta.len() % 2 == 0,
    ensures
        encoded_heights(decoded_texels(height, meta, meta.len())) == height,
        encoded_metas(decoded_texels(height, meta, meta.len())) == Seq::new(
            meta.len(),
            |i: int| kept_meta(meta, i),
        ),
        marks_agree(meta) ==> encoded_metas(decoded_texels(height, meta, meta.len())) == Seq::new(
            meta.len(),
            |i: int| unshadowed(meta[i]),
        ),
{
    let texels = decoded_texels(height, meta, meta.len());
    assert forall|i: int| 0 <= i < meta.len() implies #[trigger] encode_meta(texels, i)
        == kept_meta(meta, i) && encode_height(texels, i) == height[i] by {
        let p = pair_of(i);
        assert(pair_of(p) == p && pair_of(p + 1) == p);
        assert(texels[p] == decode_texel(height, meta, p));
        assert(texels[p + 1] == decode_texel(height, meta, p + 1));
    }
    assert(encoded_heights(texels) =~= height);
    assert(encoded_metas(texels) =~= Seq::new(meta.len(), |i: int| kept_meta(meta, i)));
    if marks_agree(meta) {
        assert forall|i: int| 0 <= i < meta.len() implies #[trigger] kept_meta(meta, i)
            == unshadowed(meta[i]) by {
            lemma_unshadowed(meta[i]);
            assert(is_double(meta[i]) == is_double(meta[pair_of(i)]));
        }
        assert(encoded_metas(texels) =~= Seq::new(meta.len(), |i: int| unshadowed(meta[i])));
    }
}

} // verus!
