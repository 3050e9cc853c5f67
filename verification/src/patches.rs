//! What a packed patch holds, entry by entry, in terms of the planes of its
//! world.

use crate::planes::{chw, lemma_chw_bound, lemma_row_column};
use crate::sampler::{
    aligned, area_of, batch_kind, batch_packed, bit_of, block_count, block_index, block_majority,
    block_sum, coarse_cells, crop_within, flag_code, full_cells, full_code, law_majority,
    majority, material, packed, pair_cells, patch_cells, patch_channels, patch_fits, patch_packed,
    some_batch, texel_index, Crop, PatchKind, Sampler, POOL,
};
use crate::world::{texel_at, World};
use vstd::prelude::*;

verus! {

/// The lowest bits of a byte as remainders.
proof fn lemma_low_bits(v: u8)
    ensures
        flag_code(bit_of(v, 0)) == ((v % 2) as i32, 1i32),
        flag_code(bit_of(v, 1)) == ((v / 2 % 2) as i32, 1i32),
        flag_code(bit_of(v, 2)) == ((v / 4 % 2) as i32, 1i32),
{
    vstd::arithmetic::power2::lemma2_to64();
    assert(v as nat / 1 == v);
}

/// The value of channel `c` at entry `d` of packed data is at `c * plane + d`,
/// and is made of the levels of that channel and entry.
pub proof fn law_packed_values<T, E: Fn(i32, i32) -> T>(
    out: Seq<T>,
    channels: int,
    plane: int,
    cells: spec_fn(int, int) -> (i32, i32),
    analog: E,
    c: int,
    d: int,
)
    requires
        packed(out, channels, plane, cells, analog, plane),
        0 <= c < channels,
        0 <= d < plane,
    ensures
        out.len() == channels * plane,
        call_ensures(analog, cells(d, c), out[c * plane + d]),
{
    assert(call_ensures(analog, cells(d, c), chw(out, plane, c, d)));
}

/// The levels of the entry at column `dx` and row `dy` of a full patch are those
/// of the texel that lies that far from the crop's corner, or, along an axis
/// that is flipped, that far from its other end; both axes are taken into the
/// world by masking.
pub proof fn law_full_entry(w: World, crop: Crop, n: int, dx: int, dy: int)
    requires
        0 <= dx < n,
        0 <= dy < n,
    ensures
        ({
            let x = crop.x + (if crop.flip_x {
                n - 1 - dx
            } else {
                dx
            });
            let y = crop.y + (if crop.flip_y {
                n - 1 - dy
            } else {
                dy
            });
            let column = (x as usize) & ((w.width - 1) as usize);
            let row = (y as usize) & ((w.height - 1) as usize);
            let i = row * w.width + column;
            let levels = full_cells(w, crop, n);
            let d = dy * n + dx;
            &&& levels(d, 0) == (w.h0@[i] as i32, 255i32)
            &&& w.h0@[i] <= w.h1@[i] ==> levels(d, 1) == ((w.h1@[i] - w.h0@[i]) as i32, 255i32)
            &&& w.h1@[i] <= w.h0@[i] ==> levels(d, 1) == (0i32, 255i32)
            &&& levels(d, 2) == (w.delta@[i] as i32, 15i32)
            &&& w.dual@[i] == 0 ==> levels(d, 3) == (0i32, 1i32)
            &&& w.dual@[i] != 0 ==> levels(d, 3) == (1i32, 1i32)
            &&& levels(d, 4) == ((w.m0@[i] % 2) as i32, 1i32)
            &&& levels(d, 5) == ((w.m0@[i] / 2 % 2) as i32, 1i32)
            &&& levels(d, 6) == ((w.m0@[i] / 4 % 2) as i32, 1i32)
            &&& levels(d, 7) == ((w.m1@[i] % 2) as i32, 1i32)
            &&& levels(d, 8) == ((w.m1@[i] / 2 % 2) as i32, 1i32)
            &&& levels(d, 9) == ((w.m1@[i] / 4 % 2) as i32, 1i32)
        }),
{
    lemma_row_column(n, dx, dy);
    let t = texel_at(w, texel_index(w, crop, dx, dy, n));
    lemma_low_bits(t.m0);
    lemma_low_bits(t.m1);
    assert(full_code(t, 4) == flag_code(bit_of(t.m0, 0)));
    assert(full_code(t, 7) == flag_code(bit_of(t.m1, 0)));
}

/// The texel at column `dx` and row `dy` of a crop lies that far from its
/// corner, or, along an axis that is flipped, that far from its other end; both
/// axes are taken into the world by masking.
pub proof fn law_texel_of_crop(w: World, crop: Crop, n: int, dx: int, dy: int)
    ensures
        ({
            let x = crop.x + (if crop.flip_x {
                n - 1 - dx
            } else {
                dx
            });
            let y = crop.y + (if crop.flip_y {
                n - 1 - dy
            } else {
                dy
            });
            texel_index(w, crop, dx, dy, n) == ((y as usize) & ((w.height - 1) as usize)) * w.width
                + ((x as usize) & ((w.width - 1) as usize))
        }),
{
}

/// The block is the one that packing uses.
proof fn lemma_block_texel(w: World, crop: Crop, n: int, dx: int, dy: int, j: int)
    requires
        0 <= dx < n,
        0 <= dy < n,
    ensures
        block_index(w, crop, n, dy * n + dx, j) == texel_index(
            w,
            crop,
            dx * 8 + j % 8,
            dy * 8 + j / 8,
            n * 8,
        ),
{
    lemma_row_column(n, dx, dy);
}

/// Channel 0 of a coarse entry is the sum of the lower levels `h0` of the 64
/// texels of its block, where 64 times 255 is full scale.
pub proof fn law_coarse_mean(w: World, crop: Crop, n: int, dx: int, dy: int)
    requires
        0 <= dx < n,
        0 <= dy < n,
    ensures
        coarse_cells(w, crop, n)(dy * n + dx, 0) == (
            Seq::new(
                64,
                |j: int| w.h0@[texel_index(w, crop, dx * 8 + j % 8, dy * 8 + j / 8, n * 8)] as int,
            ).fold_left(0int, |sum: int, h: int| sum + h) as i32,
            16320i32,
        ),
{
    let s = Seq::new(
        64,
        |j: int| w.h0@[texel_index(w, crop, dx * 8 + j % 8, dy * 8 + j / 8, n * 8)] as int,
    );
    lemma_sum_folded(w, crop, n, dx, dy, s, 64);
    assert(s.take(64) =~= s);
}

/// A sum of heights as a fold.
proof fn lemma_sum_folded(
    w: World,
    crop: Crop,
    n: int,
    dx: int,
    dy: int,
    s: Seq<int>,
    k: int,
)
    requires
        0 <= dx < n,
        0 <= dy < n,
        0 <= k <= 64,
        s == Seq::new(
            64,
            |j: int| w.h0@[texel_index(w, crop, dx * 8 + j % 8, dy * 8 + j / 8, n * 8)] as int,
        ),
    ensures
        block_sum(w, crop, n, dy * n + dx, k) == s.take(k).fold_left(
            0int,
            |sum: int, h: int| sum + h,
        ),
    decreases k,
{
    if k > 0 {
        lemma_sum_folded(w, crop, n, dx, dy, s, k - 1);
        lemma_block_texel(w, crop, n, dx, dy, k - 1);
        assert(s.take(k).drop_last() =~= s.take(k - 1));
        assert(s.take(k).last() == s[k - 1]);
    }
}

/// Channel 0 of a coarse entry depends on the lower levels alone: worlds of the
/// same size with the same `h0` have the same one, whatever their other planes.
pub proof fn law_coarse_mean_of_h0_alone(w: World, v: World, crop: Crop, n: int, d: int)
    requires
        w.width == v.width,
        w.height == v.height,
        w.h0@ == v.h0@,
    ensures
        coarse_cells(w, crop, n)(d, 0) == coarse_cells(v, crop, n)(d, 0),
{
    lemma_same_sums(w, v, crop, n, d, 64);
}

proof fn lemma_same_sums(w: World, v: World, crop: Crop, n: int, d: int, k: int)
    requires
        w.width == v.width,
        w.height == v.height,
        w.h0@ == v.h0@,
    ensures
        block_sum(w, crop, n, d, k) == block_sum(v, crop, n, d, k),
    decreases k,
{
    if k > 0 {
        lemma_same_sums(w, v, crop, n, d, k - 1);
    }
}

/// Where the lower level is `h` at every texel of a block, its sum is 64 times
/// `h`.
pub proof fn law_coarse_mean_of_flat_block(
    w: World,
    crop: Crop,
    n: int,
    dx: int,
    dy: int,
    h: u8,
)
    requires
        0 <= dx < n,
        0 <= dy < n,
        forall|px: int, py: int|
            0 <= px < 8 && 0 <= py < 8 ==> w.h0@[#[trigger] texel_index(
                w,
                crop,
                dx * 8 + px,
                dy * 8 + py,
                n * 8,
            )] == h,
    ensures
        coarse_cells(w, crop, n)(dy * n + dx, 0) == ((64 * h) as i32, 16320i32),
{
    lemma_flat_sum(w, crop, n, dx, dy, h, 64);
}

proof fn lemma_flat_sum(w: World, crop: Crop, n: int, dx: int, dy: int, h: u8, k: int)
    requires
        0 <= dx < n,
        0 <= dy < n,
        0 <= k <= 64,
        forall|px: int, py: int|
            0 <= px < 8 && 0 <= py < 8 ==> w.h0@[#[trigger] texel_index(
                w,
                crop,
                dx * 8 + px,
                dy * 8 + py,
                n * 8,
            )] == h,
    ensures
        block_sum(w, crop, n, dy * n + dx, k) == k * h,
    decreases k,
{
    if k > 0 {
        lemma_flat_sum(w, crop, n, dx, dy, h, k - 1);
        lemma_block_texel(w, crop, n, dx, dy, k - 1);
        let (px, py) = ((k - 1) % 8, (k - 1) / 8);
        assert(w.h0@[texel_index(w, crop, dx * 8 + px, dy * 8 + py, n * 8)] == h);
        assert(k * h == (k - 1) * h + h) by (nonlinear_arith);
    } else {
        assert(0 * h == 0);
    }
}

/// Those of the first `k` texels of a block that are of terrain type `t`.
spec fn texels_of_terrain(
    w: World,
    crop: Crop,
    n: int,
    dx: int,
    dy: int,
    t: int,
    k: int,
) -> Set<int> {
    Set::new(
        |j: int|
            0 <= j < k && w.m0@[texel_index(
                w,
                crop,
                dx * 8 + j % 8,
                dy * 8 + j / 8,
                n * 8,
            )] == t,
    )
}

proof fn lemma_count_is_len(w: World, crop: Crop, n: int, dx: int, dy: int, t: int, k: int)
    requires
        0 <= dx < n,
        0 <= dy < n,
        0 <= k,
    ensures
        texels_of_terrain(w, crop, n, dx, dy, t, k).finite(),
        texels_of_terrain(w, crop, n, dx, dy, t, k).len() == block_count(
            w,
            crop,
            n,
            dy * n + dx,
            t,
            k,
        ),
    decreases k,
{
    let all = texels_of_terrain(w, crop, n, dx, dy, t, k);
    if k > 0 {
        lemma_count_is_len(w, crop, n, dx, dy, t, k - 1);
        lemma_block_texel(w, crop, n, dx, dy, k - 1);
        let rest = texels_of_terrain(w, crop, n, dx, dy, t, k - 1);
        if w.m0@[texel_index(w, crop, dx * 8 + (k - 1) % 8, dy * 8 + (k - 1) / 8, n * 8)] == t {
            assert(all =~= rest.insert(k - 1));
        } else {
            assert(all =~= rest);
        }
    } else {
        assert(all =~= Set::<int>::empty());
    }
}

/// Channels 1 to 3 of a coarse entry are the bits of a terrain type that no
/// other type of the lower level outnumbers in its block, the highest of
/// several.
pub proof fn law_coarse_terrain(w: World, crop: Crop, n: int, dx: int, dy: int) -> (m: int)
    requires
        0 <= dx < n,
        0 <= dy < n,
    ensures
        0 <= m < 8,
        ({
            let count = |t: int|
                Set::new(
                    |j: int|
                        0 <= j < 64 && w.m0@[texel_index(
                            w,
                            crop,
                            dx * 8 + j % 8,
                            dy * 8 + j / 8,
                            n * 8,
                        )] == t,
                ).len();
            &&& forall|t: int| 0 <= t < 8 ==> #[trigger] count(t) <= count(m)
            &&& forall|t: int| m < t < 8 ==> #[trigger] count(t) < count(m)
        }),
        coarse_cells(w, crop, n)(dy * n + dx, 1) == ((m % 2) as i32, 1i32),
        coarse_cells(w, crop, n)(dy * n + dx, 2) == ((m / 2 % 2) as i32, 1i32),
        coarse_cells(w, crop, n)(dy * n + dx, 3) == ((m / 4 % 2) as i32, 1i32),
{
    let d = dy * n + dx;
    let counts = |t: int| block_count(w, crop, n, d, t, (POOL * POOL) as int);
    law_majority(counts, 8);
    let m = block_majority(w, crop, n, d);
    assert(m == majority(counts, 8));
    let count = |t: int|
        Set::new(
            |j: int|
                0 <= j < 64 && w.m0@[texel_index(
                    w,
                    crop,
                    dx * 8 + j % 8,
                    dy * 8 + j / 8,
                    n * 8,
                )] == t,
        ).len();
    assert forall|t: int| 0 <= t < 8 implies #[trigger] count(t) == counts(t) by {
        lemma_count_is_len(w, crop, n, dx, dy, t, 64);
        assert(Set::new(
            |j: int|
                0 <= j < 64 && w.m0@[texel_index(
                    w,
                    crop,
                    dx * 8 + j % 8,
                    dy * 8 + j / 8,
                    n * 8,
                )] == t,
        ) =~= texels_of_terrain(w, crop, n, dx, dy, t, 64));
    }
    assert(count(m) == counts(m));
    assert forall|t: int| 0 <= t < 8 implies #[trigger] count(t) <= count(m) && (m < t ==> count(t)
        < count(m)) by {
        assert(counts(t) <= counts(m));
    }
    lemma_low_bits(m as u8);
    m
}

/// Channels 1 to 3 of a coarse entry depend on the terrain types of the lower
/// level alone: worlds of the same size with the same `m0` have the same ones.
pub proof fn law_coarse_terrain_of_m0_alone(w: World, v: World, crop: Crop, n: int, d: int, c: int)
    requires
        w.width == v.width,
        w.height == v.height,
        w.m0@ == v.m0@,
        1 <= c,
    ensures
        coarse_cells(w, crop, n)(d, c) == coarse_cells(v, crop, n)(d, c),
{
    let f = |t: int| block_count(w, crop, n, d, t, (POOL * POOL) as int);
    let g = |t: int| block_count(v, crop, n, d, t, (POOL * POOL) as int);
    assert forall|t: int| #[trigger] f(t) == g(t) by {
        lemma_same_counts(w, v, crop, n, d, t, 64);
    }
    assert(f =~= g);
}

proof fn lemma_same_counts(w: World, v: World, crop: Crop, n: int, d: int, t: int, k: int)
    requires
        w.width == v.width,
        w.height == v.height,
        w.m0@ == v.m0@,
    ensures
        block_count(w, crop, n, d, t, k) == block_count(v, crop, n, d, t, k),
    decreases k,
{
    if k > 0 {
        lemma_same_counts(w, v, crop, n, d, t, k - 1);
    }
}

/// Pooling: the sum of a coarse entry is that of the first channel of the 64
/// entries of the full patch of the same crop that it covers.
pub proof fn law_coarse_pools_full(w: World, crop: Crop, n: int, dx: int, dy: int)
    requires
        0 <= dx < n,
        0 <= dy < n,
    ensures
        coarse_cells(w, crop, n)(dy * n + dx, 0).0 == Seq::new(
            64,
            |j: int|
                full_cells(w, crop, n * 8)(
                    (dy * 8 + j / 8) * (n * 8) + (dx * 8 + j % 8),
                    0,
                ).0 as int,
        ).fold_left(0int, |sum: int, h: int| sum + h) as i32,
{
    law_coarse_mean(w, crop, n, dx, dy);
    let a = Seq::new(
        64,
        |j: int|
            full_cells(w, crop, n * 8)(
                (dy * 8 + j / 8) * (n * 8) + (dx * 8 + j % 8),
                0,
            ).0 as int,
    );
    let b = Seq::new(
        64,
        |j: int|
            w.h0@[texel_index(w, crop, dx * 8 + j % 8, dy * 8 + j / 8, n * 8)] as int,
    );
    assert forall|j: int| 0 <= j < 64 implies a[j] == b[j] by {
        lemma_row_column(n * 8, dx * 8 + j % 8, dy * 8 + j / 8);
    }
    assert(a =~= b);
}

/// A patch of a pair: its first ten channels are those of the full patch, and
/// the other four are those of the coarse patch of the same crop, at the entry
/// of it that covers eight by eight entries.
pub proof fn law_pair_entry(w: World, crop: Crop, n: int, dx: int, dy: int, c: int)
    requires
        0 <= dx < n,
        0 <= dy < n,
        n % 8 == 0,
    ensures
        c < 10 ==> pair_cells(w, crop, n)(dy * n + dx, c) == full_cells(w, crop, n)(
            dy * n + dx,
            c,
        ),
        10 <= c ==> pair_cells(w, crop, n)(dy * n + dx, c) == coarse_cells(w, crop, n / 8)(
            (dy / 8) * (n / 8) + dx / 8,
            c - 10,
        ),
{
    lemma_row_column(n, dx, dy);
}

/// The channels and the levels of each kind of patch: ten of a full one, four of
/// a coarse one, and both of a pair.
pub proof fn law_patch_kinds(w: World, crop: Crop, n: int, d: int, c: int)
    ensures
        patch_channels(PatchKind::Full) == 10,
        patch_channels(PatchKind::Coarse) == 4,
        patch_channels(PatchKind::Pair) == 14,
        patch_cells(PatchKind::Full, w, crop, n)(d, c) == full_cells(w, crop, n)(d, c),
        patch_cells(PatchKind::Coarse, w, crop, n)(d, c) == coarse_cells(w, crop, n)(d, c),
        patch_cells(PatchKind::Pair, w, crop, n)(d, c) == pair_cells(w, crop, n)(d, c),
        batch_kind(false) == PatchKind::Full,
        batch_kind(true) == PatchKind::Coarse,
{
}

/// Patch `i` of a batch is that of crop `i`, cut out of the world that the crop
/// names: the value of its channel `c` at entry `d` lies at
/// `(i * channels + c) * n * n + d`.
pub proof fn law_batch_values<T, E: Fn(i32, i32) -> T>(
    out: Seq<T>,
    worlds: Seq<World>,
    crops: Seq<Crop>,
    kind: PatchKind,
    n: int,
    analog: E,
    i: int,
    c: int,
    d: int,
)
    requires
        batch_packed(out, worlds, crops, kind, n, analog),
        0 <= i < crops.len(),
        0 <= c < patch_channels(kind),
        0 <= d < n * n,
    ensures
        out.len() == crops.len() * (patch_channels(kind) * (n * n)),
        call_ensures(
            analog,
            patch_cells(kind, worlds[crops[i].world as int], crops[i], n)(d, c),
            out[(i * patch_channels(kind) + c) * (n * n) + d],
        ),
{
    let channels = patch_channels(kind);
    let plane = n * n;
    let sample = channels * plane;
    assert(patch_packed(out, worlds, crops, kind, n, analog, i)) by {
        let crop = crops[i];
    }
    let part = out.subrange(i * sample, (i + 1) * sample);
    let cells = patch_cells(kind, worlds[crops[i].world as int], crops[i], n);
    law_packed_values(part, channels, plane, cells, analog, c, d);
    lemma_chw_bound(channels, plane, c, d);
    lemma_chw_bound(crops.len() as int, sample, i, c * plane + d);
    assert((i + 1) * sample == i * sample + sample && 0 <= i * sample && (i + 1) * sample
        <= crops.len() * sample) by (nonlinear_arith)
        requires
            0 <= i < crops.len(),
            0 <= sample,
    ;
    assert((i * channels + c) * plane + d == i * sample + (c * plane + d)) by (nonlinear_arith)
        requires
            sample == channels * plane,
    ;
}

/// A filled batch holds the patches of some crops that start within their
/// worlds, each with the index of its world as its label. The crops of pairs
/// start at multiples of eight.
pub proof fn law_filled_batch<T, E: Fn(i32, i32) -> T>(
    out: Seq<T>,
    labels: Seq<u32>,
    worlds: Seq<World>,
    kind: PatchKind,
    batch: int,
    n: int,
    analog: E,
) -> (crops: Seq<Crop>)
    requires
        some_batch(out, labels, worlds, kind, batch, n, analog),
    ensures
        crops.len() == batch,
        labels.len() == batch,
        batch_packed(out, worlds, crops, kind, n, analog),
        forall|i: int|
            #![trigger crops[i]]
            0 <= i < batch ==> {
                &&& crops[i].world < worlds.len()
                &&& crops[i].x < worlds[crops[i].world as int].width
                &&& crops[i].y < worlds[crops[i].world as int].height
                &&& labels[i] == crops[i].world as u32
                &&& kind == PatchKind::Pair ==> crops[i].x % 8 == 0 && crops[i].y % 8 == 0
            },
{
    let crops = choose|crops: Seq<Crop>|
        {
            &&& crops.len() == batch
            &&& labels.len() == batch
            &&& forall|i: int| #![trigger crops[i]] 0 <= i < batch ==> crop_within(worlds, crops[i])
            &&& forall|i: int|
                #![trigger crops[i]]
                0 <= i < batch ==> labels[i] == crops[i].world as u32
            &&& kind == PatchKind::Pair ==> forall|i: int|
                #![trigger crops[i]]
                0 <= i < batch ==> crops[i] == aligned(crops[i])
            &&& #[trigger] batch_packed(out, worlds, crops, kind, n, analog)
        };
    crops
}

/// Aligning a crop moves its corner back, by less than eight along each axis,
/// to a multiple of eight, and changes nothing else.
pub proof fn law_aligned(crop: Crop)
    ensures
        aligned(crop).x % 8 == 0,
        aligned(crop).y % 8 == 0,
        aligned(crop).x <= crop.x < aligned(crop).x + 8,
        aligned(crop).y <= crop.y < aligned(crop).y + 8,
        aligned(crop).world == crop.world,
        aligned(crop).flip_x == crop.flip_x,
        aligned(crop).flip_y == crop.flip_y,
{
}

/// No world has no texels, and each further world adds its width times its
/// height, up to all worlds.
pub proof fn law_areas_add_up(sampler: &Sampler, n: int)
    requires
        0 <= n < sampler.worlds().len(),
    ensures
        ({
            let worlds = sampler.worlds();
            &&& area_of(worlds, 0) == 0
            &&& area_of(worlds, n + 1) == area_of(worlds, n) + worlds[n].width * worlds[n].height
            &&& sampler.total_area() == area_of(worlds, worlds.len() as int)
        }),
{
}

/// A bit of a byte is what shifting it to the end leaves there, and three bits
/// make the terrain type whose binary digits they are.
pub proof fn law_bits_are_binary_digits(v: u8, b: nat, b0: bool, b1: bool, b2: bool)
    requires
        b < 8,
    ensures
        bit_of(v, b) == ((v >> (b as u8)) & 1 == 1),
        material(b0, b1, b2) & 1 == (if b0 {
            1u8
        } else {
            0
        }),
        material(b0, b1, b2) & 2 == (if b1 {
            2u8
        } else {
            0
        }),
        material(b0, b1, b2) & 4 == (if b2 {
            4u8
        } else {
            0
        }),
        material(b0, b1, b2) < 8,
{
    let shift = b as u8;
    vstd::bits::lemma_u8_shr_is_div(v, shift);
    let x: u8 = v >> shift;
    assert(x & 1u8 == x % 2) by (bit_vector);
    let m = material(b0, b1, b2);
    assert(0u8 & 1 == 0 && 1u8 & 1 == 1 && 2u8 & 1 == 0 && 3u8 & 1 == 1 && 4u8 & 1 == 0 && 5u8 & 1
        == 1 && 6u8 & 1 == 0 && 7u8 & 1 == 1) by (bit_vector);
    assert(0u8 & 2 == 0 && 1u8 & 2 == 0 && 2u8 & 2 == 2 && 3u8 & 2 == 2 && 4u8 & 2 == 0 && 5u8 & 2
        == 0 && 6u8 & 2 == 2 && 7u8 & 2 == 2) by (bit_vector);
    assert(0u8 & 4 == 0 && 1u8 & 4 == 0 && 2u8 & 4 == 0 && 3u8 & 4 == 0 && 4u8 & 4 == 4 && 5u8 & 4
        == 4 && 6u8 & 4 == 4 && 7u8 & 4 == 4) by (bit_vector);
}

/// Which patches can be cut: every plane of the world is there, it has texels,
/// and the positions fit a word. A patch that is pooled has to have terrain
/// types in range, and a pair a size that is a multiple of eight.
pub proof fn law_patches_that_fit(w: World, crop: Crop, n: int)
    requires
        0 <= n,
    ensures
        patch_fits(PatchKind::Full, w, crop, n) <==> w.wf() && 1 <= w.width && 1 <= w.height
            && crop.x + n <= usize::MAX && crop.y + n <= usize::MAX,
        patch_fits(PatchKind::Pair, w, crop, n) <==> n % 8 == 0 && patch_fits(
            PatchKind::Full,
            w,
            crop,
            n,
        ) && forall|dx: int, dy: int|
            0 <= dx < n && 0 <= dy < n ==> w.m0@[#[trigger] texel_index(w, crop, dx, dy, n)] < 8,
        patch_fits(PatchKind::Coarse, w, crop, n) <==> patch_fits(PatchKind::Full, w, crop, n * 8)
            && forall|dx: int, dy: int|
            0 <= dx < n * 8 && 0 <= dy < n * 8 ==> w.m0@[#[trigger] texel_index(
                w,
                crop,
                dx,
                dy,
                n * 8,
            )] < 8,
{
}

} // verus!
