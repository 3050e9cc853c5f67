//! Training patches cut out of worlds.

use crate::draws::{draw_bool, draw_u64, draw_usize};
use crate::planes::{chw, lemma_chw_bound, lemma_chw_distinct, lemma_square_place};
use crate::world::{texel_at, Texel, World, MAT_BITS, NUM_TERRAINS};
use rand::rngs::StdRng;
use vstd::arithmetic::power2::pow2;
use vstd::prelude::*;

verus! {

/// Channels of a full-resolution patch, each from nothing to full scale, which
/// stand for -1 and 1: 0: h0, 1: h1 - h0 (nothing where h1 lies below h0), 2:
/// delta, 3: dual mask, 4..7: bits of m0, 7..10: bits of m1.
pub const FULL_CHANNELS: usize = 4 + 2 * MAT_BITS;

/// Channels of a coarse patch: 0: mean h0, 1..4: bits of the most common m0.
pub const COARSE_CHANNELS: usize = 1 + MAT_BITS;

/// Side of the block that a coarse texel is pooled from.
pub const POOL: usize = 8;

/// A square part of a world, which may be mirrored along each axis.
#[derive(Copy, Clone, Debug)]
pub struct Crop {
    pub world: usize,
    pub x: usize,
    pub y: usize,
    pub flip_x: bool,
    pub flip_y: bool,
}

/// Cuts patches out of worlds.
pub struct Sampler<'a> {
    worlds: &'a [World],
    cumulative_area: Vec<u64>,
}

/// Number of texels of the first `n` worlds.
pub open spec fn area_of(worlds: Seq<World>, n: int) -> int
    decreases n,
{
    if n <= 0 {
        0
    } else {
        area_of(worlds, n - 1) + worlds[n - 1].width * worlds[n - 1].height
    }
}

/// `a` taken into the range below `n` by masking.
pub open spec fn wrap(a: int, n: int) -> int {
    ((a as usize) & ((n - 1) as usize)) as int
}

/// Index of the texel of `w` at column `dx` and row `dy` of a crop.
pub open spec fn texel_index(w: World, crop: Crop, dx: int, dy: int, size: int) -> int {
    let fx = if crop.flip_x {
        size - 1 - dx
    } else {
        dx
    };
    let fy = if crop.flip_y {
        size - 1 - dy
    } else {
        dy
    };
    wrap(crop.y + fy, w.height as int) * w.width + wrap(crop.x + fx, w.width as int)
}

/// A crop of a world can be cut: the world has texels and the positions fit a
/// machine word.
pub open spec fn crop_fits(w: World, crop: Crop, size: int) -> bool {
    &&& w.wf()
    &&& 1 <= w.width
    &&& 1 <= w.height
    &&& crop.x + size <= usize::MAX
    &&& crop.y + size <= usize::MAX
}

/// Masking stays within the range.
proof fn lemma_wrap_bound(a: int, n: int)
    requires
        1 <= n <= usize::MAX,
    ensures
        0 <= wrap(a, n) < n,
{
    let x = a as usize;
    let m = (n - 1) as usize;
    assert(x & m <= m) by (bit_vector);
}

/// On a power of two, masking is the remainder: the axis is a circle.
pub proof fn law_wrap_is_remainder(a: int, n: int, bits: nat)
    requires
        0 <= a <= usize::MAX,
        n == pow2(bits),
        n <= usize::MAX,
    ensures
        wrap(a, n) == a % n,
{
    vstd::arithmetic::power2::lemma_pow2_pos(bits);
    if bits >= usize::BITS {
        if bits > usize::BITS {
            vstd::arithmetic::power2::lemma_pow2_strictly_increases(usize::BITS as nat, bits);
        }
        vstd::arithmetic::power2::lemma2_to64();
        vstd::arithmetic::power2::lemma2_to64_rest();
    }
    vstd::bits::lemma_usize_low_bits_mask_is_mod(a as usize, bits);
    assert(vstd::bits::low_bits_mask(bits) == n - 1);
}

/// An index of a crop lies within its world.
pub proof fn lemma_texel_bound(w: World, crop: Crop, dx: int, dy: int, size: int)
    requires
        crop_fits(w, crop, size),
    ensures
        0 <= texel_index(w, crop, dx, dy, size) < w.width * w.height <= usize::MAX,
        wrap(
            crop.y + (if crop.flip_y {
                size - 1 - dy
            } else {
                dy
            }),
            w.height as int,
        ) * w.width <= usize::MAX,
{
    let fx = if crop.flip_x {
        size - 1 - dx
    } else {
        dx
    };
    let fy = if crop.flip_y {
        size - 1 - dy
    } else {
        dy
    };
    let row = wrap(crop.y + fy, w.height as int);
    let col = wrap(crop.x + fx, w.width as int);
    lemma_wrap_bound(crop.y + fy, w.height as int);
    lemma_wrap_bound(crop.x + fx, w.width as int);
    lemma_chw_bound(w.height as int, w.width as int, row, col);
    assert(w.height * w.width == w.width * w.height) by (nonlinear_arith);
    assert(w.h0@.len() == w.h0.len());
}

/// The areas of more worlds add up to no less.
proof fn lemma_area_monotonic(worlds: Seq<World>, i: int, j: int)
    requires
        0 <= i <= j,
    ensures
        0 <= area_of(worlds, i) <= area_of(worlds, j),
    decreases j,
{
    if j > 0 {
        let w = worlds[j - 1];
        assert(0 <= w.width * w.height) by (nonlinear_arith)
            requires
                0 <= w.width,
                0 <= w.height,
        ;
        if i < j {
            lemma_area_monotonic(worlds, i, j - 1);
        } else {
            lemma_area_monotonic(worlds, j - 1, j - 1);
        }
    }
}

impl<'a> Sampler<'a> {
    /// The worlds that patches are cut out of.
    pub closed spec fn worlds(&self) -> Seq<World> {
        self.worlds@
    }

    /// The running totals of the areas are right.
    pub closed spec fn wf(&self) -> bool {
        &&& self.cumulative_area@.len() == self.worlds@.len()
        &&& forall|i: int|
            0 <= i < self.worlds@.len() ==> #[trigger] self.cumulative_area@[i] == area_of(
                self.worlds@,
                i + 1,
            )
    }

    /// Number of texels of all worlds.
    pub open spec fn total_area(&self) -> int {
        area_of(self.worlds(), self.worlds().len() as int)
    }

    /// A sampler over some worlds.
    pub fn new(worlds: &'a [World]) -> (s: Sampler<'a>)
        requires
            area_of(worlds@, worlds@.len() as int) <= u64::MAX,
            forall|i: int|
                #![trigger worlds@[i]]
                0 <= i < worlds@.len() ==> worlds@[i].width * worlds@[i].height <= usize::MAX,
        ensures
            s.wf(),
            s.worlds() == worlds@,
    {
        let mut acc: u64 = 0;
        let mut cumulative_area: Vec<u64> = Vec::new();
        let mut i: usize = 0;
        while i < worlds.len()
            invariant
                i <= worlds@.len(),
                area_of(worlds@, worlds@.len() as int) <= u64::MAX,
                forall|j: int|
                    #![trigger worlds@[j]]
                    0 <= j < worlds@.len() ==> worlds@[j].width * worlds@[j].height <= usize::MAX,
                acc == area_of(worlds@, i as int),
                cumulative_area@.len() == i,
                forall|j: int|
                    0 <= j < i ==> #[trigger] cumulative_area@[j] == area_of(worlds@, j + 1),
            decreases worlds@.len() - i,
        {
            proof {
                lemma_area_monotonic(worlds@, i + 1, worlds@.len() as int);
            }
            let area: usize = worlds[i].width * worlds[i].height;
            acc = acc + area as u64;
            cumulative_area.push(acc);
            i = i + 1;
        }
        Sampler { worlds, cumulative_area }
    }

    /// The world that holds texel number `pick`, counting through all worlds.
    pub fn world_of(&self, pick: u64) -> (world: usize)
        requires
            self.wf(),
            pick < self.total_area(),
        ensures
            world < self.worlds().len(),
            area_of(self.worlds(), world as int) <= pick < area_of(self.worlds(), world + 1),
    {
        let mut i: usize = 0;
        while i < self.cumulative_area.len() && self.cumulative_area[i] <= pick
            invariant
                self.wf(),
                i <= self.worlds@.len(),
                area_of(self.worlds@, i as int) <= pick,
            decreases self.worlds@.len() - i,
        {
            i = i + 1;
        }
        i
    }

    /// Number of texels of all worlds.
    pub fn total(&self) -> (t: u64)
        requires
            self.wf(),
            0 < self.total_area(),
        ensures
            t == self.total_area(),
    {
        self.cumulative_area[self.cumulative_area.len() - 1]
    }

    /// The crop that some draws give: texel number `pick`, counting through all
    /// worlds, chooses the world, and the others are taken as they are.
    pub fn crop_of(&self, pick: u64, x: usize, y: usize, flip_x: bool, flip_y: bool) -> (crop: Crop)
        requires
            self.wf(),
            pick < self.total_area(),
        ensures
            crop.world < self.worlds().len(),
            area_of(self.worlds(), crop.world as int) <= pick < area_of(
                self.worlds(),
                crop.world + 1,
            ),
            crop.x == x,
            crop.y == y,
            crop.flip_x == flip_x,
            crop.flip_y == flip_y,
    {
        Crop { world: self.world_of(pick), x, y, flip_x, flip_y }
    }

    /// A random crop, its world chosen in proportion to its area: the first
    /// draw is below [`Sampler::total`], and [`Sampler::crop_of`] makes the crop.
    pub fn sample_crop(&self, rng: &mut StdRng) -> (crop: Crop)
        requires
            self.wf(),
            0 < self.total_area(),
        ensures
            crop_within(self.worlds(), crop),
    {
        let pick = draw_u64(rng, self.total());
        let world = self.world_of(pick);
        let w = &self.worlds[world];
        assert(w.width > 0 && w.height > 0) by (nonlinear_arith)
            requires
                0 < w.width * w.height,
        ;
        let x = draw_usize(rng, w.width);
        let y = draw_usize(rng, w.height);
        let flip_x = draw_bool(rng);
        let flip_y = draw_bool(rng);
        let crop = self.crop_of(pick, x, y, flip_x, flip_y);
        proof {
            law_pick_has_one_world(
                self.worlds(),
                pick as int,
                world as int,
                crop.world as int,
            );
        }
        crop
    }

    /// Index, within its world, of the texel at column `dx` and row `dy` of a
    /// crop of the given size. Both axes wrap.
    pub fn texel(&self, crop: &Crop, dx: usize, dy: usize, size: usize) -> (i: usize)
        requires
            crop.world < self.worlds().len(),
            crop_fits(self.worlds()[crop.world as int], *crop, size as int),
            dx < size,
            dy < size,
        ensures
            i == texel_index(
                self.worlds()[crop.world as int],
                *crop,
                dx as int,
                dy as int,
                size as int,
            ),
            i < self.worlds()[crop.world as int].h0@.len(),
    {
        let w = &self.worlds[crop.world];
        proof {
            lemma_texel_bound(*w, *crop, dx as int, dy as int, size as int);
        }
        let fx = if crop.flip_x {
            size - 1 - dx
        } else {
            dx
        };
        let fy = if crop.flip_y {
            size - 1 - dy
        } else {
            dy
        };
        let row: usize = (crop.y + fy) & (w.height - 1);
        let col: usize = (crop.x + fx) & (w.width - 1);
        row * w.width + col
    }
}

/// Bit `b` of `v`.
pub open spec fn bit_of(v: u8, b: nat) -> bool {
    (v as nat / pow2(b)) % 2 == 1
}

/// Bit `b` of `v`.
pub fn bit(v: u8, b: usize) -> (r: bool)
    requires
        b < 8,
    ensures
        r == bit_of(v, b as nat),
{
    let shift = b as u8;
    proof {
        vstd::bits::lemma_u8_shr_is_div(v, shift);
    }
    let x: u8 = v >> shift;
    assert(x & 1u8 == x % 2) by (bit_vector);
    x & 1 != 0
}

/// The terrain type with the given bits.
pub open spec fn material(b0: bool, b1: bool, b2: bool) -> u8 {
    ((if b0 {
        1int
    } else {
        0
    }) + (if b1 {
        2int
    } else {
        0
    }) + (if b2 {
        4int
    } else {
        0
    })) as u8
}

/// The terrain type with the given bits, lowest first.
pub fn decode_material(bits: [bool; MAT_BITS]) -> (m: u8)
    ensures
        m == material(bits@[0], bits@[1], bits@[2]),
{
    let mut m: u8 = 0;
    if bits[0] {
        m = m + 1;
    }
    if bits[1] {
        m = m + 2;
    }
    if bits[2] {
        m = m + 4;
    }
    m
}

/// Decoding the bits of a terrain type gives the terrain type.
pub proof fn law_material_bits(t: u8)
    requires
        t < NUM_TERRAINS,
    ensures
        material(bit_of(t, 0), bit_of(t, 1), bit_of(t, 2)) == t,
{
    vstd::arithmetic::power2::lemma2_to64();
}

/// A flag as a channel level: 0 or 1.
pub open spec fn flag_code(flag: bool) -> (i32, i32) {
    (
        if flag {
            1i32
        } else {
            0i32
        },
        1i32,
    )
}

/// How far the upper height lies above the lower one.
pub open spec fn rise(h0: u8, h1: u8) -> int {
    if h1 > h0 {
        h1 - h0
    } else {
        0
    }
}

/// What channel `c` of a full-resolution patch says of a texel: a level, and
/// the level that stands for full scale.
pub open spec fn full_code(t: Texel, c: int) -> (i32, i32) {
    if c == 0 {
        (t.h0 as i32, 255i32)
    } else if c == 1 {
        (rise(t.h0, t.h1) as i32, 255i32)
    } else if c == 2 {
        (t.delta as i32, 15i32)
    } else if c == 3 {
        flag_code(t.dual != 0)
    } else if c < 4 + MAT_BITS {
        flag_code(bit_of(t.m0, (c - 4) as nat))
    } else {
        flag_code(bit_of(t.m1, (c - 4 - MAT_BITS) as nat))
    }
}

/// A flag as a channel level.
fn flag(v: bool) -> (r: (i32, i32))
    ensures
        r == flag_code(v),
{
    if v {
        (1, 1)
    } else {
        (0, 1)
    }
}

/// What the channels of a full-resolution patch say of texel `i`.
fn full_codes(w: &World, i: usize) -> (codes: Vec<(i32, i32)>)
    requires
        w.wf(),
        i < w.h0@.len(),
    ensures
        codes@.len() == FULL_CHANNELS,
        forall|c: int|
            0 <= c < FULL_CHANNELS ==> #[trigger] codes@[c] == full_code(
                texel_at(*w, i as int),
                c,
            ),
{
    let mut codes: Vec<(i32, i32)> = Vec::new();
    codes.push((w.h0[i] as i32, 255));
    let above: i32 = w.h1[i] as i32 - w.h0[i] as i32;
    codes.push((if above > 0 { above } else { 0 }, 255));
    codes.push((w.delta[i] as i32, 15));
    let dual = flag(w.dual[i] != 0);
    codes.push(dual);
    let mut b: usize = 0;
    while b < MAT_BITS
        invariant
            w.wf(),
            i < w.h0@.len(),
            b <= MAT_BITS,
            codes@.len() == 4 + b,
            forall|c: int|
                0 <= c < 4 + b ==> #[trigger] codes@[c] == full_code(texel_at(*w, i as int), c),
        decreases MAT_BITS - b,
    {
        let v = flag(bit(w.m0[i], b));
        codes.push(v);
        b = b + 1;
    }
    let mut b: usize = 0;
    while b < MAT_BITS
        invariant
            w.wf(),
            i < w.h0@.len(),
            b <= MAT_BITS,
            codes@.len() == 4 + MAT_BITS + b,
            forall|c: int|
                0 <= c < 4 + MAT_BITS + b ==> #[trigger] codes@[c] == full_code(
                    texel_at(*w, i as int),
                    c,
                ),
        decreases MAT_BITS - b,
    {
        let v = flag(bit(w.m1[i], b));
        codes.push(v);
        b = b + 1;
    }
    codes
}

/// The first `done` entries of every channel are what `analog` makes of the
/// levels that `cells` gives by entry and channel.
pub open spec fn packed<T, E: Fn(i32, i32) -> T>(
    out: Seq<T>,
    channels: int,
    plane: int,
    cells: spec_fn(int, int) -> (i32, i32),
    analog: E,
    done: int,
) -> bool {
    &&& out.len() == channels * plane
    &&& forall|c: int, d: int|
        0 <= c < channels && 0 <= d < done ==> call_ensures(
            analog,
            cells(d, c),
            #[trigger] chw(out, plane, c, d),
        )
}

/// Writes entry `d` of every channel.
fn pack_column<T, E: Fn(i32, i32) -> T>(
    out: &mut [T],
    plane: usize,
    d: usize,
    codes: &Vec<(i32, i32)>,
    analog: &E,
    Ghost(cells): Ghost<spec_fn(int, int) -> (i32, i32)>,
)
    requires
        d < plane,
        packed(old(out)@, codes@.len() as int, plane as int, cells, *analog, d as int),
        forall|c: int| 0 <= c < codes@.len() ==> #[trigger] codes@[c] == cells(d as int, c),
        forall|code: i32, span: i32| call_requires(*analog, (code, span)),
    ensures
        packed(final(out)@, codes@.len() as int, plane as int, cells, *analog, d + 1),
{
    let channels = codes.len();
    let ghost before = out@;
    let mut c: usize = 0;
    while c < channels
        invariant
            d < plane,
            channels == codes@.len(),
            c <= channels,
            packed(out@, channels as int, plane as int, cells, *analog, d as int),
            forall|e: int| 0 <= e < channels ==> #[trigger] codes@[e] == cells(d as int, e),
            forall|e: int|
                0 <= e < c ==> call_ensures(
                    *analog,
                    cells(d as int, e),
                    #[trigger] chw(out@, plane as int, e, d as int),
                ),
            forall|code: i32, span: i32| call_requires(*analog, (code, span)),
        decreases channels - c,
    {
        let (code, span) = codes[c];
        let value = analog(code, span);
        proof {
            lemma_chw_bound(channels as int, plane as int, c as int, d as int);
            assert(0 <= c * plane) by (nonlinear_arith)
                requires
                    0 <= c,
                    0 <= plane,
            ;
        }
        assert(out.len() == out@.len());
        let at: usize = c * plane + d;
        let ghost prior = out@;
        out[at] = value;
        proof {
            assert forall|e: int, f: int|
                0 <= e < channels && 0 <= f < d implies call_ensures(
                *analog,
                cells(f, e),
                #[trigger] chw(out@, plane as int, e, f),
            ) by {
                lemma_chw_bound(channels as int, plane as int, e, f);
                if e * plane + f == at {
                    lemma_chw_distinct(plane as int, e, f, c as int, d as int);
                }
                assert(chw(out@, plane as int, e, f) == chw(prior, plane as int, e, f));
            }
            assert forall|e: int| 0 <= e < c + 1 implies call_ensures(
                *analog,
                cells(d as int, e),
                #[trigger] chw(out@, plane as int, e, d as int),
            ) by {
                lemma_chw_bound(channels as int, plane as int, e, d as int);
                if e < c {
                    if e * plane + d == at {
                        lemma_chw_distinct(plane as int, e, d as int, c as int, d as int);
                    }
                    assert(chw(out@, plane as int, e, d as int) == chw(
                        prior,
                        plane as int,
                        e,
                        d as int,
                    ));
                } else {
                    assert(codes@[c as int] == cells(d as int, c as int));
                }
            }
        }
        c = c + 1;
    }
}

/// The levels of a full-resolution patch, by entry and channel.
pub open spec fn full_cells(w: World, crop: Crop, size: int) -> spec_fn(int, int) -> (i32, i32) {
    |d: int, c: int|
        full_code(texel_at(w, texel_index(w, crop, d % size, d / size, size)), c)
}

impl<'a> Sampler<'a> {
    /// Packs a `size` x `size` full-resolution patch, plane by plane, into
    /// `out`. `analog` turns a level and the level of full scale into a value.
    pub fn pack_full<T, E: Fn(i32, i32) -> T>(
        &self,
        crop: &Crop,
        size: usize,
        out: &mut [T],
        analog: &E,
    )
        requires
            crop.world < self.worlds().len(),
            crop_fits(self.worlds()[crop.world as int], *crop, size as int),
            old(out)@.len() == FULL_CHANNELS * (size * size),
            forall|code: i32, span: i32| call_requires(*analog, (code, span)),
        ensures
            packed(
                final(out)@,
                FULL_CHANNELS as int,
                size * size,
                full_cells(self.worlds()[crop.world as int], *crop, size as int),
                *analog,
                size * size,
            ),
    {
        let w = &self.worlds[crop.world];
        let ghost cells = full_cells(*w, *crop, size as int);
        assert(out.len() == out@.len() && FULL_CHANNELS == 10);
        assert(0 <= size * size) by (nonlinear_arith)
            requires
                0 <= size,
        ;
        assert(10 * (size * size) == FULL_CHANNELS * (size * size));
        let plane: usize = size * size;
        let mut d: usize = 0;
        while d < plane
            invariant
                crop.world < self.worlds().len(),
                *w == self.worlds()[crop.world as int],
                crop_fits(*w, *crop, size as int),
                plane == size * size,
                d <= plane,
                cells == full_cells(*w, *crop, size as int),
                packed(out@, FULL_CHANNELS as int, plane as int, cells, *analog, d as int),
                forall|code: i32, span: i32| call_requires(*analog, (code, span)),
            decreases plane - d,
        {
            proof {
                lemma_square_place(size as int, d as int);
            }
            let src = self.texel(crop, d % size, d / size, size);
            let codes = full_codes(w, src);
            pack_column(out, plane, d, &codes, analog, Ghost(cells));
            d = d + 1;
        }
    }
}

/// Index of texel `j` of the block that entry `d` of a coarse patch is pooled
/// from.
pub open spec fn block_index(w: World, crop: Crop, size: int, d: int, j: int) -> int {
    texel_index(
        w,
        crop,
        (d % size) * POOL + j % (POOL as int),
        (d / size) * POOL + j / (POOL as int),
        size * POOL,
    )
}

/// Sum of the heights of the first `n` texels of a block.
pub open spec fn block_sum(w: World, crop: Crop, size: int, d: int, n: int) -> int
    decreases n,
{
    if n <= 0 {
        0
    } else {
        block_sum(w, crop, size, d, n - 1) + w.h0@[block_index(w, crop, size, d, n - 1)]
    }
}

/// How many of the first `n` texels of a block are of terrain type `t`.
pub open spec fn block_count(w: World, crop: Crop, size: int, d: int, t: int, n: int) -> int
    decreases n,
{
    if n <= 0 {
        0
    } else {
        block_count(w, crop, size, d, t, n - 1) + (if w.m0@[block_index(w, crop, size, d, n - 1)]
            == t {
            1int
        } else {
            0
        })
    }
}

/// The number below `n` with the highest count, the last of several.
pub open spec fn majority(counts: spec_fn(int) -> int, n: int) -> int
    decreases n,
{
    if n <= 1 {
        0
    } else {
        let best = majority(counts, n - 1);
        if counts(n - 1) >= counts(best) {
            n - 1
        } else {
            best
        }
    }
}

/// No other count is higher, and none after it is as high.
pub proof fn law_majority(counts: spec_fn(int) -> int, n: int)
    requires
        1 <= n,
    ensures
        0 <= majority(counts, n) < n,
        forall|t: int| 0 <= t < n ==> #[trigger] counts(t) <= counts(majority(counts, n)),
        forall|t: int|
            majority(counts, n) < t < n ==> #[trigger] counts(t) < counts(majority(counts, n)),
    decreases n,
{
    if n > 1 {
        law_majority(counts, n - 1);
    }
}

/// The most common terrain type of a block.
pub open spec fn block_majority(w: World, crop: Crop, size: int, d: int) -> int {
    majority(
        |t: int| block_count(w, crop, size, d, t, (POOL * POOL) as int),
        NUM_TERRAINS as int,
    )
}

/// What channel `c` of a coarse patch says of entry `d`.
pub open spec fn coarse_code(w: World, crop: Crop, size: int, d: int, c: int) -> (i32, i32) {
    if c == 0 {
        (block_sum(w, crop, size, d, (POOL * POOL) as int) as i32, (255 * POOL * POOL) as i32)
    } else {
        flag_code(bit_of(block_majority(w, crop, size, d) as u8, (c - 1) as nat))
    }
}

/// The levels of a coarse patch, by entry and channel.
pub open spec fn coarse_cells(w: World, crop: Crop, size: int) -> spec_fn(int, int) -> (i32, i32) {
    |d: int, c: int| coarse_code(w, crop, size, d, c)
}

/// The terrain types within a crop are in range.
pub open spec fn crop_terrains_ok(w: World, crop: Crop, size: int) -> bool {
    forall|dx: int, dy: int|
        0 <= dx < size && 0 <= dy < size ==> w.m0@[#[trigger] texel_index(w, crop, dx, dy, size)]
            < NUM_TERRAINS
}

impl<'a> Sampler<'a> {
    /// Sum of heights and most common terrain type of a block.
    fn pool_block(&self, crop: &Crop, size: usize, d: usize) -> (r: (u32, u8))
        requires
            crop.world < self.worlds().len(),
            crop_fits(self.worlds()[crop.world as int], *crop, size * POOL),
            crop_terrains_ok(self.worlds()[crop.world as int], *crop, size * POOL),
            d < size * size,
        ensures
            r.0 == block_sum(
                self.worlds()[crop.world as int],
                *crop,
                size as int,
                d as int,
                (POOL * POOL) as int,
            ),
            r.0 <= 255 * POOL * POOL,
            r.1 == block_majority(
                self.worlds()[crop.world as int],
                *crop,
                size as int,
                d as int,
            ),
            r.1 < NUM_TERRAINS,
    {
        let w = &self.worlds[crop.world];
        proof {
            lemma_square_place(size as int, d as int);
        }
        let side: usize = size * POOL;
        let x0: usize = (d % size) * POOL;
        let y0: usize = (d / size) * POOL;
        let mut h_sum: u32 = 0;
        let mut counts: Vec<u32> = vec![0, 0, 0, 0, 0, 0, 0, 0];
        let mut j: usize = 0;
        while j < POOL * POOL
            invariant
                crop.world < self.worlds().len(),
                *w == self.worlds()[crop.world as int],
                crop_fits(*w, *crop, size * POOL),
                crop_terrains_ok(*w, *crop, size * POOL),
                0 < size,
                side == size * POOL,
                x0 == (d as int % size as int) * POOL,
                y0 == (d as int / size as int) * POOL,
                x0 + POOL <= side,
                y0 + POOL <= side,
                j <= POOL * POOL,
                h_sum == block_sum(*w, *crop, size as int, d as int, j as int),
                h_sum <= 255 * j,
                counts@.len() == NUM_TERRAINS,
                forall|t: int|
                    0 <= t < NUM_TERRAINS ==> #[trigger] counts@[t] == block_count(
                        *w,
                        *crop,
                        size as int,
                        d as int,
                        t,
                        j as int,
                    ) && counts@[t] <= j,
            decreases POOL * POOL - j,
        {
            let src = self.texel(crop, x0 + j % POOL, y0 + j / POOL, side);
            assert(src == block_index(*w, *crop, size as int, d as int, j as int));
            h_sum = h_sum + w.h0[src] as u32;
            let m = w.m0[src] as usize;
            let n = counts[m] + 1;
            counts.set(m, n);
            j = j + 1;
        }
        let mut best: usize = 0;
        let mut t: usize = 1;
        let ghost f = |t: int| block_count(*w, *crop, size as int, d as int, t, 64);
        while t < NUM_TERRAINS as usize
            invariant
                1 <= t <= NUM_TERRAINS,
                best < t,
                counts@.len() == NUM_TERRAINS,
                forall|i: int| 0 <= i < NUM_TERRAINS ==> #[trigger] counts@[i] == f(i),
                best == majority(f, t as int),
            decreases NUM_TERRAINS - t,
        {
            if counts[t] >= counts[best] {
                best = t;
            }
            t = t + 1;
        }
        (h_sum, best as u8)
    }

    /// Packs a coarse patch, plane by plane, into `out`: `size` x `size`
    /// entries, each pooled from a POOL x POOL block of the crop, which covers
    /// `size * POOL` texels on each axis.
    pub fn pack_coarse<T, E: Fn(i32, i32) -> T>(
        &self,
        crop: &Crop,
        size: usize,
        out: &mut [T],
        analog: &E,
    )
        requires
            crop.world < self.worlds().len(),
            crop_fits(self.worlds()[crop.world as int], *crop, size * POOL),
            crop_terrains_ok(self.worlds()[crop.world as int], *crop, size * POOL),
            old(out)@.len() == COARSE_CHANNELS * (size * size),
            forall|code: i32, span: i32| call_requires(*analog, (code, span)),
        ensures
            packed(
                final(out)@,
                COARSE_CHANNELS as int,
                size * size,
                coarse_cells(self.worlds()[crop.world as int], *crop, size as int),
                *analog,
                size * size,
            ),
    {
        let w = &self.worlds[crop.world];
        let ghost cells = coarse_cells(*w, *crop, size as int);
        assert(out.len() == out@.len() && COARSE_CHANNELS == 4);
        assert(0 <= size * size) by (nonlinear_arith)
            requires
                0 <= size,
        ;
        assert(4 * (size * size) == COARSE_CHANNELS * (size * size));
        let plane: usize = size * size;
        let mut d: usize = 0;
        while d < plane
            invariant
                crop.world < self.worlds().len(),
                *w == self.worlds()[crop.world as int],
                crop_fits(*w, *crop, size * POOL),
                crop_terrains_ok(*w, *crop, size * POOL),
                plane == size * size,
                d <= plane,
                cells == coarse_cells(*w, *crop, size as int),
                packed(out@, COARSE_CHANNELS as int, plane as int, cells, *analog, d as int),
                forall|code: i32, span: i32| call_requires(*analog, (code, span)),
            decreases plane - d,
        {
            let codes = self.coarse_codes(crop, size, d);
            pack_column(out, plane, d, &codes, analog, Ghost(cells));
            d = d + 1;
        }
    }

    /// What the channels of a coarse patch say of entry `d`.
    fn coarse_codes(&self, crop: &Crop, size: usize, d: usize) -> (codes: Vec<(i32, i32)>)
        requires
            crop.world < self.worlds().len(),
            crop_fits(self.worlds()[crop.world as int], *crop, size * POOL),
            crop_terrains_ok(self.worlds()[crop.world as int], *crop, size * POOL),
            d < size * size,
        ensures
            codes@.len() == COARSE_CHANNELS,
            forall|c: int|
                0 <= c < COARSE_CHANNELS ==> #[trigger] codes@[c] == coarse_code(
                    self.worlds()[crop.world as int],
                    *crop,
                    size as int,
                    d as int,
                    c,
                ),
    {
        let ghost w = self.worlds()[crop.world as int];
        let (h_sum, major) = self.pool_block(crop, size, d);
        let mut codes: Vec<(i32, i32)> = Vec::new();
        codes.push((h_sum as i32, 16320));
        let mut b: usize = 0;
        while b < MAT_BITS
            invariant
                b <= MAT_BITS,
                codes@.len() == 1 + b,
                major == block_majority(w, *crop, size as int, d as int),
                forall|c: int|
                    0 <= c < 1 + b ==> #[trigger] codes@[c] == coarse_code(
                        w,
                        *crop,
                        size as int,
                        d as int,
                        c,
                    ),
            decreases MAT_BITS - b,
        {
            let v = flag(bit(major, b));
            codes.push(v);
            b = b + 1;
        }
        codes
    }
}

/// The entry of the coarse patch that covers entry `d` of a full patch.
pub open spec fn covering(size: int, d: int) -> int {
    let pool = POOL as int;
    (d / size / pool) * (size / pool) + (d % size) / pool
}

/// The levels of a full patch followed by its own coarse patch, repeated to
/// full resolution.
pub open spec fn pair_cells(w: World, crop: Crop, size: int) -> spec_fn(int, int) -> (i32, i32) {
    |d: int, c: int|
        if c < FULL_CHANNELS {
            full_cells(w, crop, size)(d, c)
        } else {
            coarse_cells(w, crop, size / (POOL as int))(covering(size, d), c - FULL_CHANNELS)
        }
}

/// The coarse entry that covers a full one exists.
proof fn lemma_covering(size: int, d: int)
    requires
        0 <= size,
        size % (POOL as int) == 0,
        0 <= d < size * size,
    ensures
        0 <= d / size / 8 < size / 8,
        0 <= (d % size) / 8 < size / 8,
        0 <= covering(size, d) < (size / 8) * (size / 8),
        (d / size / 8) * (size / 8) <= (size / 8) * (size / 8),
{
    lemma_square_place(size, d);
    lemma_chw_bound(size / 8, size / 8, d / size / 8, (d % size) / 8);
    assert(0 <= (d / size / 8) * (size / 8)) by (nonlinear_arith)
        requires
            0 <= d / size / 8,
            0 <= size / 8,
    ;
}

/// What a patch holds.
#[derive(Copy, Clone, Debug, PartialEq, Eq, Structural)]
pub enum PatchKind {
    /// Full resolution.
    Full,
    /// Pooled by POOL along each axis.
    Coarse,
    /// Full resolution, with the pooled patch of the same texels.
    Pair,
}

/// Channels of a patch.
pub open spec fn patch_channels(kind: PatchKind) -> int {
    match kind {
        PatchKind::Full => FULL_CHANNELS as int,
        PatchKind::Coarse => COARSE_CHANNELS as int,
        PatchKind::Pair => FULL_CHANNELS + COARSE_CHANNELS,
    }
}

/// The levels of a patch, by entry and channel.
pub open spec fn patch_cells(kind: PatchKind, w: World, crop: Crop, size: int) -> spec_fn(
    int,
    int,
) -> (i32, i32) {
    match kind {
        PatchKind::Full => full_cells(w, crop, size),
        PatchKind::Coarse => coarse_cells(w, crop, size),
        PatchKind::Pair => pair_cells(w, crop, size),
    }
}

/// A patch can be cut out of a world.
pub open spec fn patch_fits(kind: PatchKind, w: World, crop: Crop, size: int) -> bool {
    match kind {
        PatchKind::Full => crop_fits(w, crop, size),
        PatchKind::Coarse => {
            &&& crop_fits(w, crop, size * POOL)
            &&& crop_terrains_ok(w, crop, size * POOL)
        },
        PatchKind::Pair => {
            &&& size % (POOL as int) == 0
            &&& crop_fits(w, crop, size)
            &&& crop_terrains_ok(w, crop, size)
        },
    }
}

impl<'a> Sampler<'a> {
    /// Packs a full patch and, after it, its own coarse patch repeated to full
    /// resolution, plane by plane, into `out`.
    pub fn pack_pair<T, E: Fn(i32, i32) -> T>(
        &self,
        crop: &Crop,
        size: usize,
        out: &mut [T],
        analog: &E,
    )
        requires
            crop.world < self.worlds().len(),
            patch_fits(
                PatchKind::Pair,
                self.worlds()[crop.world as int],
                *crop,
                size as int,
            ),
            old(out)@.len() == (FULL_CHANNELS + COARSE_CHANNELS) * (size * size),
            forall|code: i32, span: i32| call_requires(*analog, (code, span)),
        ensures
            packed(
                final(out)@,
                FULL_CHANNELS + COARSE_CHANNELS,
                size * size,
                pair_cells(self.worlds()[crop.world as int], *crop, size as int),
                *analog,
                size * size,
            ),
    {
        let w = &self.worlds[crop.world];
        let ghost cells = pair_cells(*w, *crop, size as int);
        assert(out.len() == out@.len());
        assert(0 <= size * size) by (nonlinear_arith)
            requires
                0 <= size,
        ;
        assert(14 * (size * size) == (FULL_CHANNELS + COARSE_CHANNELS) * (size * size));
        let plane: usize = size * size;
        let half: usize = size / POOL;
        assert(half * half <= size * size) by (nonlinear_arith)
            requires
                0 <= half <= size,
        ;
        let mut table: Vec<Vec<(i32, i32)>> = Vec::new();
        let mut e: usize = 0;
        while e < half * half
            invariant
                crop.world < self.worlds().len(),
                *w == self.worlds()[crop.world as int],
                half * POOL == size,
                half * half <= plane,
                crop_fits(*w, *crop, size as int),
                crop_terrains_ok(*w, *crop, size as int),
                table@.len() == e,
                e <= half * half,
                forall|i: int|
                    #![trigger table@[i]]
                    0 <= i < e ==> table@[i]@.len() == COARSE_CHANNELS && forall|c: int|
                        0 <= c < COARSE_CHANNELS ==> #[trigger] table@[i]@[c] == coarse_code(
                            *w,
                            *crop,
                            half as int,
                            i,
                            c,
                        ),
            decreases half * half - e,
        {
            let codes = self.coarse_codes(crop, half, e);
            table.push(codes);
            e = e + 1;
        }
        let mut d: usize = 0;
        while d < plane
            invariant
                crop.world < self.worlds().len(),
                *w == self.worlds()[crop.world as int],
                size % POOL == 0,
                half == size / POOL,
                half * half <= plane,
                crop_fits(*w, *crop, size as int),
                plane == size * size,
                d <= plane,
                table@.len() == half * half,
                forall|i: int|
                    #![trigger table@[i]]
                    0 <= i < half * half ==> table@[i]@.len() == COARSE_CHANNELS && forall|c: int|
                        0 <= c < COARSE_CHANNELS ==> #[trigger] table@[i]@[c] == coarse_code(
                            *w,
                            *crop,
                            half as int,
                            i,
                            c,
                        ),
                cells == pair_cells(*w, *crop, size as int),
                packed(
                    out@,
                    FULL_CHANNELS + COARSE_CHANNELS,
                    plane as int,
                    cells,
                    *analog,
                    d as int,
                ),
                forall|code: i32, span: i32| call_requires(*analog, (code, span)),
            decreases plane - d,
        {
            proof {
                lemma_square_place(size as int, d as int);
                lemma_covering(size as int, d as int);
            }
            let src = self.texel(crop, d % size, d / size, size);
            let mut codes = full_codes(w, src);
            let from: usize = (d / size / POOL) * half + (d % size) / POOL;
            assert(from == covering(size as int, d as int));
            let mut c: usize = 0;
            while c < COARSE_CHANNELS
                invariant
                    c <= COARSE_CHANNELS,
                    from < table@.len(),
                    table@[from as int]@.len() == COARSE_CHANNELS,
                    codes@.len() == FULL_CHANNELS + c,
                    half == size / POOL,
                    from == covering(size as int, d as int),
                    src == texel_index(
                        *w,
                        *crop,
                        d as int % size as int,
                        d as int / size as int,
                        size as int,
                    ),
                    cells == pair_cells(*w, *crop, size as int),
                    forall|i: int|
                        0 <= i < COARSE_CHANNELS ==> #[trigger] table@[from as int]@[i]
                            == coarse_code(*w, *crop, half as int, from as int, i),
                    forall|i: int|
                        0 <= i < FULL_CHANNELS + c ==> #[trigger] codes@[i] == cells(d as int, i),
                decreases COARSE_CHANNELS - c,
            {
                let v = table[from][c];
                codes.push(v);
                c = c + 1;
            }
            pack_column(out, plane, d, &codes, analog, Ghost(cells));
            d = d + 1;
        }
    }

    /// Packs a patch of any kind.
    pub fn pack_patch<T, E: Fn(i32, i32) -> T>(
        &self,
        kind: PatchKind,
        crop: &Crop,
        size: usize,
        out: &mut [T],
        analog: &E,
    )
        requires
            crop.world < self.worlds().len(),
            patch_fits(kind, self.worlds()[crop.world as int], *crop, size as int),
            old(out)@.len() == patch_channels(kind) * (size * size),
            forall|code: i32, span: i32| call_requires(*analog, (code, span)),
        ensures
            packed(
                final(out)@,
                patch_channels(kind),
                size * size,
                patch_cells(kind, self.worlds()[crop.world as int], *crop, size as int),
                *analog,
                size * size,
            ),
    {
        match kind {
            PatchKind::Full => self.pack_full(crop, size, out, analog),
            PatchKind::Coarse => self.pack_coarse(crop, size, out, analog),
            PatchKind::Pair => self.pack_pair(crop, size, out, analog),
        }
    }
}

/// The patches of some crops lie one after the other in `out`.
pub open spec fn batch_packed<T, E: Fn(i32, i32) -> T>(
    out: Seq<T>,
    worlds: Seq<World>,
    crops: Seq<Crop>,
    kind: PatchKind,
    size: int,
    analog: E,
) -> bool {
    let sample = patch_channels(kind) * (size * size);
    &&& out.len() == crops.len() * sample
    &&& forall|i: int|
        #![trigger crops[i]]
        0 <= i < crops.len() ==> patch_packed(out, worlds, crops, kind, size, analog, i)
}

/// Patch `i` of a batch is that of crop `i`.
pub open spec fn patch_packed<T, E: Fn(i32, i32) -> T>(
    out: Seq<T>,
    worlds: Seq<World>,
    crops: Seq<Crop>,
    kind: PatchKind,
    size: int,
    analog: E,
    i: int,
) -> bool {
    let sample = patch_channels(kind) * (size * size);
    packed(
        out.subrange(i * sample, (i + 1) * sample),
        patch_channels(kind),
        size * size,
        patch_cells(kind, worlds[crops[i].world as int], crops[i], size),
        analog,
        size * size,
    )
}

/// A crop starts within its world.
pub open spec fn crop_within(worlds: Seq<World>, crop: Crop) -> bool {
    &&& crop.world < worlds.len()
    &&& crop.x < worlds[crop.world as int].width
    &&& crop.y < worlds[crop.world as int].height
}

/// Some crops, each within its world, were packed and labelled.
pub open spec fn some_batch<T, E: Fn(i32, i32) -> T>(
    out: Seq<T>,
    labels: Seq<u32>,
    worlds: Seq<World>,
    kind: PatchKind,
    batch: int,
    size: int,
    analog: E,
) -> bool {
    exists|crops: Seq<Crop>|
        {
            &&& crops.len() == batch
            &&& labels.len() == batch
            &&& forall|i: int| #![trigger crops[i]] 0 <= i < batch ==> crop_within(worlds, crops[i])
            &&& forall|i: int|
                #![trigger crops[i]]
                0 <= i < batch ==> labels[i] == crops[i].world as u32
            &&& kind == PatchKind::Pair ==> forall|i: int|
                #![trigger crops[i]]
                0 <= i < batch ==> crops[i] == aligned(crops[i])
            &&& #[trigger] batch_packed(out, worlds, crops, kind, size, analog)
        }
}

/// Every world that a crop can be drawn from suits the kind of patch.
pub open spec fn worlds_fit(worlds: Seq<World>, kind: PatchKind, size: int) -> bool {
    forall|i: int|
        #![trigger worlds[i]]
        0 <= i < worlds.len() && 0 < worlds[i].width && 0 < worlds[i].height ==> world_fits(
            kind,
            worlds[i],
            size,
        )
}

/// A crop with its corner moved back to a multiple of POOL.
pub open spec fn aligned(crop: Crop) -> Crop {
    let pool = POOL as int;
    Crop {
        x: (crop.x - crop.x as int % pool) as usize,
        y: (crop.y - crop.y as int % pool) as usize,
        ..crop
    }
}

impl Crop {
    /// The crop with its corner moved back to a multiple of POOL.
    pub fn align(&self) -> (c: Crop)
        ensures
            c == aligned(*self),
    {
        Crop {
            world: self.world,
            x: self.x - self.x % POOL,
            y: self.y - self.y % POOL,
            flip_x: self.flip_x,
            flip_y: self.flip_y,
        }
    }
}

/// Texels along each axis that a patch covers.
pub open spec fn patch_side(kind: PatchKind, size: int) -> int {
    if kind == PatchKind::Coarse {
        size * POOL
    } else {
        size
    }
}

/// Every crop that can be drawn from a world can be packed.
pub open spec fn world_fits(kind: PatchKind, w: World, size: int) -> bool {
    &&& w.wf()
    &&& w.width + patch_side(kind, size) <= usize::MAX
    &&& w.height + patch_side(kind, size) <= usize::MAX
    &&& kind == PatchKind::Pair ==> size % (POOL as int) == 0
    &&& kind != PatchKind::Full ==> forall|i: int|
        0 <= i < w.m0@.len() ==> #[trigger] w.m0@[i] < NUM_TERRAINS
}

/// A crop that starts within a suitable world can be packed.
proof fn lemma_world_fits(kind: PatchKind, w: World, crop: Crop, size: int)
    requires
        0 <= size,
        world_fits(kind, w, size),
        crop.x < w.width,
        crop.y < w.height,
    ensures
        patch_fits(kind, w, crop, size),
{
    if kind != PatchKind::Full {
        let side = patch_side(kind, size);
        assert forall|dx: int, dy: int|
            0 <= dx < side && 0 <= dy < side implies w.m0@[#[trigger] texel_index(
            w,
            crop,
            dx,
            dy,
            side,
        )] < NUM_TERRAINS by {
            lemma_texel_bound(w, crop, dx, dy, side);
        }
    }
}

impl<'a> Sampler<'a> {
    /// Draws `batch` crops.
    fn draw_crops(&self, rng: &mut StdRng, batch: usize) -> (crops: Vec<Crop>)
        requires
            self.wf(),
            0 < batch ==> 0 < self.total_area(),
        ensures
            crops@.len() == batch,
            forall|i: int|
                #![trigger crops@[i]]
                0 <= i < batch ==> crop_within(self.worlds(), crops@[i]),
    {
        let mut crops: Vec<Crop> = Vec::new();
        while crops.len() < batch
            invariant
                self.wf(),
                0 < batch ==> 0 < self.total_area(),
                crops@.len() <= batch,
                forall|i: int|
                    #![trigger crops@[i]]
                    0 <= i < crops@.len() ==> crop_within(self.worlds(), crops@[i]),
            decreases batch - crops@.len(),
        {
            let crop = self.sample_crop(rng);
            crops.push(crop);
        }
        crops
    }

    /// Packs the patches of some crops one after the other, with the index of
    /// its world as the label of each.
    pub fn pack_batch<T: Copy, E: Fn(i32, i32) -> T>(
        &self,
        kind: PatchKind,
        crops: &Vec<Crop>,
        size: usize,
        out: &mut Vec<T>,
        labels: &mut Vec<u32>,
        zero: T,
        analog: &E,
    )
        requires
            crops@.len() * (patch_channels(kind) * (size * size)) <= usize::MAX,
            patch_channels(kind) * (size * size) <= usize::MAX,
            forall|i: int|
                #![trigger crops@[i]]
                0 <= i < crops@.len() ==> {
                    &&& crops@[i].world < self.worlds().len()
                    &&& patch_fits(
                        kind,
                        self.worlds()[crops@[i].world as int],
                        crops@[i],
                        size as int,
                    )
                },
            forall|code: i32, span: i32| call_requires(*analog, (code, span)),
        ensures
            batch_packed(final(out)@, self.worlds(), crops@, kind, size as int, *analog),
            final(labels)@.len() == crops@.len(),
            forall|i: int|
                #![trigger crops@[i]]
                0 <= i < crops@.len() ==> final(labels)@[i] == crops@[i].world as u32,
    {
        let channels: usize = match kind {
            PatchKind::Full => FULL_CHANNELS,
            PatchKind::Coarse => COARSE_CHANNELS,
            PatchKind::Pair => FULL_CHANNELS + COARSE_CHANNELS,
        };
        assert(0 <= size * size) by (nonlinear_arith)
            requires
                0 <= size,
        ;
        assert(channels * (size * size) <= usize::MAX && size * size <= usize::MAX)
            by (nonlinear_arith)
            requires
                channels == 10 || channels == 4 || channels == 14,
                0 <= size * size,
                channels * (size * size) <= usize::MAX,
        ;
        let sample: usize = channels * (size * size);
        let batch = crops.len();
        out.resize(batch * sample, zero);
        labels.clear();
        let mut i: usize = 0;
        while i < batch
            invariant
                batch == crops@.len(),
                i <= batch,
                sample == patch_channels(kind) * (size * size),
                out@.len() == batch * sample,
                batch * sample <= usize::MAX,
                forall|j: int|
                    #![trigger crops@[j]]
                    0 <= j < crops@.len() ==> {
                        &&& crops@[j].world < self.worlds().len()
                        &&& patch_fits(
                            kind,
                            self.worlds()[crops@[j].world as int],
                            crops@[j],
                            size as int,
                        )
                    },
                forall|code: i32, span: i32| call_requires(*analog, (code, span)),
                labels@.len() == i,
                forall|j: int|
                    #![trigger crops@[j]]
                    0 <= j < i ==> labels@[j] == crops@[j].world as u32,
                forall|j: int|
                    #![trigger crops@[j]]
                    0 <= j < i ==> patch_packed(
                        out@,
                        self.worlds(),
                        crops@,
                        kind,
                        size as int,
                        *analog,
                        j,
                    ),
            decreases batch - i,
        {
            assert(0 <= i * sample && i * sample + sample <= batch * sample && (i + 1) * sample
                == i * sample + sample) by (nonlinear_arith)
                requires
                    0 <= i < batch,
                    0 <= sample,
            ;
            let ghost before = out@;
            let ghost mut written: Seq<T> = Seq::empty();
            let crop = crops[i];
            {
                let (_, rest) = out.as_mut_slice().split_at_mut(i * sample);
                let (patch, _) = rest.split_at_mut(sample);
                self.pack_patch(kind, &crop, size, patch, analog);
                proof {
                    written = patch@;
                }
            }
            proof {
                let lo = i * sample;
                assert(out@.subrange(0, lo) =~= before.subrange(0, lo));
                assert(out@.subrange(lo, (i + 1) * sample) =~= written);
                assert forall|j: int| #![trigger crops@[j]] 0 <= j < i + 1 implies patch_packed(
                    out@,
                    self.worlds(),
                    crops@,
                    kind,
                    size as int,
                    *analog,
                    j,
                ) by {
                    if j < i {
                        assert(0 <= j * sample && (j + 1) * sample <= i * sample && j * sample
                            <= (j + 1) * sample) by (nonlinear_arith)
                            requires
                                0 <= j < i,
                                0 <= sample,
                        ;
                        assert(out@.subrange(j * sample, (j + 1) * sample) =~= before.subrange(
                            j * sample,
                            (j + 1) * sample,
                        ));
                    }
                }
            }
            labels.push(crop.world as u32);
            i = i + 1;
        }
    }

    /// Fills a training batch with random full or coarse patches; the labels
    /// are the indices of the worlds.
    pub fn fill_batch<T: Copy, E: Fn(i32, i32) -> T>(
        &self,
        rng: &mut StdRng,
        batch: usize,
        size: usize,
        coarse: bool,
        out: &mut Vec<T>,
        labels: &mut Vec<u32>,
        zero: T,
        analog: &E,
    )
        requires
            self.wf(),
            0 < batch ==> 0 < self.total_area(),
            batch * (patch_channels(batch_kind(coarse)) * (size * size)) <= usize::MAX,
            patch_channels(batch_kind(coarse)) * (size * size) <= usize::MAX,
            worlds_fit(self.worlds(), batch_kind(coarse), size as int),
            forall|code: i32, span: i32| call_requires(*analog, (code, span)),
        ensures
            some_batch(
                final(out)@,
                final(labels)@,
                self.worlds(),
                batch_kind(coarse),
                batch as int,
                size as int,
                *analog,
            ),
    {
        let crops = self.draw_crops(rng, batch);
        let kind = if coarse {
            PatchKind::Coarse
        } else {
            PatchKind::Full
        };
        proof {
            assert forall|i: int| #![trigger crops@[i]] 0 <= i < batch implies patch_fits(
                kind,
                self.worlds()[crops@[i].world as int],
                crops@[i],
                size as int,
            ) by {
                lemma_world_fits(
                    kind,
                    self.worlds()[crops@[i].world as int],
                    crops@[i],
                    size as int,
                );
            }
        }
        self.pack_batch(kind, &crops, size, out, labels, zero, analog);
    }

    /// Fills a training batch with random full patches, each at a multiple of
    /// POOL and paired with its own coarse patch; the labels are the indices
    /// of the worlds.
    pub fn fill_batch_pair<T: Copy, E: Fn(i32, i32) -> T>(
        &self,
        rng: &mut StdRng,
        batch: usize,
        size: usize,
        out: &mut Vec<T>,
        labels: &mut Vec<u32>,
        zero: T,
        analog: &E,
    )
        requires
            self.wf(),
            0 < batch ==> 0 < self.total_area(),
            batch * (patch_channels(PatchKind::Pair) * (size * size)) <= usize::MAX,
            patch_channels(PatchKind::Pair) * (size * size) <= usize::MAX,
            worlds_fit(self.worlds(), PatchKind::Pair, size as int),
            forall|code: i32, span: i32| call_requires(*analog, (code, span)),
        ensures
            some_batch(
                final(out)@,
                final(labels)@,
                self.worlds(),
                PatchKind::Pair,
                batch as int,
                size as int,
                *analog,
            ),
    {
        let drawn = self.draw_crops(rng, batch);
        let mut crops: Vec<Crop> = Vec::new();
        let mut i: usize = 0;
        while i < batch
            invariant
                i <= batch,
                drawn@.len() == batch,
                crops@.len() == i,
                forall|j: int|
                    #![trigger drawn@[j]]
                    0 <= j < batch ==> crop_within(self.worlds(), drawn@[j]),
                forall|j: int|
                    #![trigger crops@[j]]
                    0 <= j < i ==> crop_within(self.worlds(), crops@[j]) && crops@[j] == aligned(
                        crops@[j],
                    ),
            decreases batch - i,
        {
            let crop = drawn[i].align();
            assert(drawn@[i as int].x as int % 8 <= drawn@[i as int].x);
            crops.push(crop);
            i = i + 1;
        }
        proof {
            assert forall|i: int| #![trigger crops@[i]] 0 <= i < batch implies patch_fits(
                PatchKind::Pair,
                self.worlds()[crops@[i].world as int],
                crops@[i],
                size as int,
            ) by {
                lemma_world_fits(
                    PatchKind::Pair,
                    self.worlds()[crops@[i].world as int],
                    crops@[i],
                    size as int,
                );
            }
        }
        self.pack_batch(PatchKind::Pair, &crops, size, out, labels, zero, analog);
    }
}

/// The kind of patch of a single-stage batch.
pub open spec fn batch_kind(coarse: bool) -> PatchKind {
    if coarse {
        PatchKind::Coarse
    } else {
        PatchKind::Full
    }
}

/// Every channel of a full-resolution patch lies between nothing and full
/// scale, whichever of a texel's heights is the greater.
pub proof fn law_full_levels_in_range(t: Texel, c: int)
    requires
        t.delta <= 15,
        0 <= c < FULL_CHANNELS,
    ensures
        0 <= full_code(t, c).0 <= full_code(t, c).1,
        0 < full_code(t, c).1,
{
}

/// A sum of heights lies within its bounds.
proof fn lemma_block_sum_bound(w: World, crop: Crop, size: int, d: int, n: int)
    requires
        0 <= n,
    ensures
        0 <= block_sum(w, crop, size, d, n) <= 255 * n,
    decreases n,
{
    if n > 0 {
        lemma_block_sum_bound(w, crop, size, d, n - 1);
    }
}

/// Every channel of a coarse patch lies between nothing and full scale.
pub proof fn law_coarse_levels_in_range(w: World, crop: Crop, size: int, d: int, c: int)
    requires
        0 <= c < COARSE_CHANNELS,
    ensures
        0 <= coarse_code(w, crop, size, d, c).0 <= coarse_code(w, crop, size, d, c).1,
        0 < coarse_code(w, crop, size, d, c).1,
{
    lemma_block_sum_bound(w, crop, size, d, (POOL * POOL) as int);
}

/// Counting through all worlds, every texel number belongs to one world: a
/// world is picked by as many numbers as it has texels.
pub proof fn law_pick_has_one_world(worlds: Seq<World>, pick: int, i: int, j: int)
    requires
        0 <= i < worlds.len(),
        0 <= j < worlds.len(),
        area_of(worlds, i) <= pick < area_of(worlds, i + 1),
        area_of(worlds, j) <= pick < area_of(worlds, j + 1),
    ensures
        i == j,
        area_of(worlds, i + 1) - area_of(worlds, i) == worlds[i].width * worlds[i].height,
{
    if i < j {
        lemma_area_monotonic(worlds, i + 1, j);
    } else if j < i {
        lemma_area_monotonic(worlds, j + 1, i);
    }
}

/// Where the sides of a world are powers of two, crops wrap around its edges.
pub proof fn law_crops_wrap(
    w: World,
    crop: Crop,
    dx: int,
    dy: int,
    size: int,
    wbits: nat,
    hbits: nat,
)
    requires
        crop_fits(w, crop, size),
        w.width == pow2(wbits),
        w.height == pow2(hbits),
        0 <= dx < size,
        0 <= dy < size,
    ensures
        texel_index(w, crop, dx, dy, size) == ((crop.y + (if crop.flip_y {
            size - 1 - dy
        } else {
            dy
        })) % w.height as int) * w.width + (crop.x + (if crop.flip_x {
            size - 1 - dx
        } else {
            dx
        })) % w.width as int,
{
    let fx = if crop.flip_x {
        size - 1 - dx
    } else {
        dx
    };
    let fy = if crop.flip_y {
        size - 1 - dy
    } else {
        dy
    };
    law_wrap_is_remainder(crop.x + fx, w.width as int, wbits);
    law_wrap_is_remainder(crop.y + fy, w.height as int, hbits);
}

/// The coarse patch of a pair is its own: the entry that covers a texel is
/// pooled from a block that holds the texel, mirrored or not.
pub proof fn law_pooled_from_own_block(w: World, crop: Crop, size: int, d: int) -> (j: int)
    requires
        0 <= size,
        size % (POOL as int) == 0,
        0 <= d < size * size,
    ensures
        0 <= j < POOL * POOL,
        block_index(w, crop, size / (POOL as int), covering(size, d), j) == texel_index(
            w,
            crop,
            d % size,
            d / size,
            size,
        ),
{
    lemma_square_place(size, d);
    lemma_covering(size, d);
    let x = d % size;
    let y = d / size;
    let half = size / 8;
    let j = (y % 8) * 8 + x % 8;
    assert(j % 8 == x % 8 && j / 8 == y % 8);
    vstd::arithmetic::div_mod::lemma_fundamental_div_mod_converse(
        covering(size, d),
        half,
        y / 8,
        x / 8,
    );
    assert((x / 8) * POOL + j % 8 == x && (y / 8) * POOL + j / 8 == y && half * POOL == size);
    j
}

} // verus!
