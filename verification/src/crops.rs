//! Mirrored and moved crops: what packing makes of a crop that is flipped along
//! an axis, or that starts one side of its world further on.

use crate::planes::{chw, lemma_row_column, lemma_square_place};
use crate::sampler::{
    block_count, block_index, block_majority, block_sum, coarse_cells, coarse_code, crop_fits,
    full_cells, law_crops_wrap, majority, packed, texel_index, Crop, FULL_CHANNELS,
    POOL,
};
use crate::world::{World, NUM_TERRAINS};
use vstd::arithmetic::power2::pow2;
use vstd::prelude::*;

verus! {

/// The crop, flipped along its rows.
pub open spec fn mirrored_x(crop: Crop) -> Crop {
    Crop { flip_x: !crop.flip_x, ..crop }
}

/// The crop, flipped along its columns.
pub open spec fn mirrored_y(crop: Crop) -> Crop {
    Crop { flip_y: !crop.flip_y, ..crop }
}

/// The crop, with its corner moved by whole sides of its world, `i` to the right
/// and `j` down.
pub open spec fn moved_by(w: World, crop: Crop, i: int, j: int) -> Crop {
    Crop { x: (crop.x + i * w.width) as usize, y: (crop.y + j * w.height) as usize, ..crop }
}

/// Flipping a crop along an axis mirrors its full-resolution patch along that
/// axis: columns along its rows, rows along its columns.
pub proof fn law_mirrored_full(w: World, crop: Crop, n: int, dx: int, dy: int, c: int)
    requires
        0 <= dx < n,
        0 <= dy < n,
    ensures
        full_cells(w, mirrored_x(crop), n)(dy * n + dx, c) == full_cells(w, crop, n)(
            dy * n + (n - 1 - dx),
            c,
        ),
        full_cells(w, mirrored_y(crop), n)(dy * n + dx, c) == full_cells(w, crop, n)(
            (n - 1 - dy) * n + dx,
            c,
        ),
{
    lemma_row_column(n, dx, dy);
    lemma_row_column(n, n - 1 - dx, dy);
    lemma_row_column(n, dx, n - 1 - dy);
}

/// Where the sides of a world are powers of two, moving the corner of a crop by
/// whole sides of the world leaves its texels as they are.
pub proof fn law_moved_texels(
    w: World,
    crop: Crop,
    i: int,
    j: int,
    n: int,
    dx: int,
    dy: int,
    wbits: nat,
    hbits: nat,
)
    requires
        crop_fits(w, crop, n),
        w.width == pow2(wbits),
        w.height == pow2(hbits),
        0 <= crop.x + i * w.width <= usize::MAX - n,
        0 <= crop.y + j * w.height <= usize::MAX - n,
        0 <= dx < n,
        0 <= dy < n,
    ensures
        texel_index(w, moved_by(w, crop, i, j), dx, dy, n) == texel_index(w, crop, dx, dy, n),
{
    let moved = moved_by(w, crop, i, j);
    law_crops_wrap(w, crop, dx, dy, n, wbits, hbits);
    law_crops_wrap(w, moved, dx, dy, n, wbits, hbits);
    let fx = if crop.flip_x {
        n - 1 - dx
    } else {
        dx
    };
    let fy = if crop.flip_y {
        n - 1 - dy
    } else {
        dy
    };
    let width = w.width as int;
    let height = w.height as int;
    vstd::arithmetic::div_mod::lemma_mod_multiples_vanish(i, crop.x + fx, width);
    vstd::arithmetic::div_mod::lemma_mod_multiples_vanish(j, crop.y + fy, height);
    assert(width * i == i * width && height * j == j * height) by (nonlinear_arith);
}

/// Where the sides of a world are powers of two, moving the corner of a crop by
/// whole sides of the world leaves its full-resolution patch as it is.
pub proof fn law_moved_full(
    w: World,
    crop: Crop,
    i: int,
    j: int,
    n: int,
    d: int,
    c: int,
    wbits: nat,
    hbits: nat,
)
    requires
        crop_fits(w, crop, n),
        w.width == pow2(wbits),
        w.height == pow2(hbits),
        0 <= crop.x + i * w.width <= usize::MAX - n,
        0 <= crop.y + j * w.height <= usize::MAX - n,
        0 <= n,
        0 <= d < n * n,
    ensures
        full_cells(w, moved_by(w, crop, i, j), n)(d, c) == full_cells(w, crop, n)(d, c),
{
    lemma_square_place(n, d);
    law_moved_texels(w, crop, i, j, n, d % n, d / n, wbits, hbits);
}

/// `analog` is a function of its arguments.
pub open spec fn single_valued<T, E: Fn(i32, i32) -> T>(analog: E) -> bool {
    forall|code: (i32, i32), r: T, s: T| #[trigger]
        call_ensures(analog, code, r) && #[trigger] call_ensures(analog, code, s) ==> r == s
}

/// Two packed patches agree wherever the levels agree that they are packed from.
proof fn lemma_same_levels<T, E: Fn(i32, i32) -> T>(
    a: Seq<T>,
    b: Seq<T>,
    channels: int,
    plane: int,
    of_a: spec_fn(int, int) -> (i32, i32),
    of_b: spec_fn(int, int) -> (i32, i32),
    analog: E,
    d: int,
    e: int,
    c: int,
)
    requires
        single_valued(analog),
        packed(a, channels, plane, of_a, analog, plane),
        packed(b, channels, plane, of_b, analog, plane),
        0 <= c < channels,
        0 <= d < plane,
        0 <= e < plane,
        of_a(d, c) == of_b(e, c),
    ensures
        chw(a, plane, c, d) == chw(b, plane, c, e),
{
    assert(call_ensures(analog, of_a(d, c), chw(a, plane, c, d)));
    assert(call_ensures(analog, of_b(e, c), chw(b, plane, c, e)));
}

/// What is packed of a crop that is flipped along an axis is what is packed of
/// the crop, mirrored along that axis in every channel.
pub proof fn law_mirrored_full_patch<T, E: Fn(i32, i32) -> T>(
    w: World,
    crop: Crop,
    n: int,
    analog: E,
    a: Seq<T>,
    bx: Seq<T>,
    by: Seq<T>,
    dx: int,
    dy: int,
    c: int,
)
    requires
        single_valued(analog),
        packed(a, FULL_CHANNELS as int, n * n, full_cells(w, crop, n), analog, n * n),
        packed(bx, FULL_CHANNELS as int, n * n, full_cells(w, mirrored_x(crop), n), analog, n * n),
        packed(by, FULL_CHANNELS as int, n * n, full_cells(w, mirrored_y(crop), n), analog, n * n),
        0 <= dx < n,
        0 <= dy < n,
        0 <= c < FULL_CHANNELS,
    ensures
        chw(bx, n * n, c, dy * n + dx) == chw(a, n * n, c, dy * n + (n - 1 - dx)),
        chw(by, n * n, c, dy * n + dx) == chw(a, n * n, c, (n - 1 - dy) * n + dx),
{
    law_mirrored_full(w, crop, n, dx, dy, c);
    lemma_row_column(n, dx, dy);
    lemma_row_column(n, n - 1 - dx, dy);
    lemma_row_column(n, dx, n - 1 - dy);
    let channels = FULL_CHANNELS as int;
    let cells = full_cells(w, crop, n);
    let d = dy * n + dx;
    let ex = dy * n + (n - 1 - dx);
    let ey = (n - 1 - dy) * n + dx;
    let x_cells = full_cells(w, mirrored_x(crop), n);
    let y_cells = full_cells(w, mirrored_y(crop), n);
    lemma_same_levels(bx, a, channels, n * n, x_cells, cells, analog, d, ex, c);
    lemma_same_levels(by, a, channels, n * n, y_cells, cells, analog, d, ey, c);
}

/// What is packed of a crop whose corner is moved by whole sides of its world
/// is what is packed of the crop.
pub proof fn law_moved_full_patch<T, E: Fn(i32, i32) -> T>(
    w: World,
    crop: Crop,
    i: int,
    j: int,
    n: int,
    analog: E,
    a: Seq<T>,
    b: Seq<T>,
    wbits: nat,
    hbits: nat,
)
    requires
        single_valued(analog),
        crop_fits(w, crop, n),
        w.width == pow2(wbits),
        w.height == pow2(hbits),
        0 <= crop.x + i * w.width <= usize::MAX - n,
        0 <= crop.y + j * w.height <= usize::MAX - n,
        0 <= n,
        packed(a, FULL_CHANNELS as int, n * n, full_cells(w, crop, n), analog, n * n),
        packed(
            b,
            FULL_CHANNELS as int,
            n * n,
            full_cells(w, moved_by(w, crop, i, j), n),
            analog,
            n * n,
        ),
    ensures
        a == b,
{
    let plane = n * n;
    let channels = FULL_CHANNELS as int;
    let cells = full_cells(w, crop, n);
    let moved = full_cells(w, moved_by(w, crop, i, j), n);
    assert forall|k: int| 0 <= k < a.len() implies a[k] == b[k] by {
        let c = k / plane;
        let d = k % plane;
        lemma_plane_place(channels, plane, k);
        law_moved_full(w, crop, i, j, n, d, c, wbits, hbits);
        lemma_same_levels(a, b, channels, plane, cells, moved, analog, d, d, c);
    }
    assert(a =~= b);
}

/// An index of data laid out plane by plane is that of an entry of a channel.
proof fn lemma_plane_place(channels: int, plane: int, k: int)
    requires
        0 <= plane,
        0 <= k < channels * plane,
    ensures
        0 <= k / plane < channels,
        0 <= k % plane < plane,
        (k / plane) * plane + k % plane == k,
{
    assert(0 < plane) by (nonlinear_arith)
        requires
            0 <= plane,
            0 < channels * plane,
    ;
    vstd::arithmetic::div_mod::lemma_fundamental_div_mod(k, plane);
    vstd::arithmetic::div_mod::lemma_mod_bound(k, plane);
    assert((k / plane) * plane == plane * (k / plane)) by (nonlinear_arith);
    assert(0 <= k / plane < channels) by (nonlinear_arith)
        requires
            0 < plane,
            0 <= k < channels * plane,
            k == plane * (k / plane) + k % plane,
            0 <= k % plane < plane,
    ;
}

/// Sum of the first `n` values of `f`.
spec fn total(f: spec_fn(int) -> int, n: int) -> int
    decreases n,
{
    if n <= 0 {
        0
    } else {
        total(f, n - 1) + f(n - 1)
    }
}

/// One row of a block more.
proof fn lemma_row(f: spec_fn(int) -> int, k: int)
    requires
        0 <= k,
    ensures
        total(f, k + 8) == total(f, k) + f(k) + f(k + 1) + f(k + 2) + f(k + 3) + f(k + 4) + f(k + 5)
            + f(k + 6) + f(k + 7),
{
    reveal_with_fuel(total, 9);
}

/// The first `r` rows of a block, each from its end, have the same sum.
proof fn lemma_columns_reversed(f: spec_fn(int) -> int, g: spec_fn(int) -> int, r: int)
    requires
        0 <= r <= 8,
        forall|y: int, x: int|
            0 <= y < 8 && 0 <= x < 8 ==> #[trigger] g(8 * y + x) == f(8 * y + (7 - x)),
    ensures
        total(g, 8 * r) == total(f, 8 * r),
    decreases r,
{
    if r > 0 {
        let y = r - 1;
        lemma_columns_reversed(f, g, y);
        lemma_row(f, 8 * y);
        lemma_row(g, 8 * y);
        assert(g(8 * y + 0) == f(8 * y + (7 - 0)));
        assert(g(8 * y + 1) == f(8 * y + (7 - 1)));
        assert(g(8 * y + 2) == f(8 * y + (7 - 2)));
        assert(g(8 * y + 3) == f(8 * y + (7 - 3)));
        assert(g(8 * y + 4) == f(8 * y + (7 - 4)));
        assert(g(8 * y + 5) == f(8 * y + (7 - 5)));
        assert(g(8 * y + 6) == f(8 * y + (7 - 6)));
        assert(g(8 * y + 7) == f(8 * y + (7 - 7)));
    }
}

/// The first `r` rows of a block that is taken from its end have the sum of its
/// last `r` rows.
proof fn lemma_rows_reversed(f: spec_fn(int) -> int, g: spec_fn(int) -> int, r: int)
    requires
        0 <= r <= 8,
        forall|y: int, x: int|
            0 <= y < 8 && 0 <= x < 8 ==> #[trigger] g(8 * y + x) == f(8 * (7 - y) + x),
    ensures
        total(g, 8 * r) == total(f, 64) - total(f, 64 - 8 * r),
    decreases r,
{
    if r > 0 {
        let y = r - 1;
        lemma_rows_reversed(f, g, y);
        lemma_row(f, 64 - 8 * r);
        lemma_row(g, 8 * y);
        assert(g(8 * y + 0) == f(8 * (7 - y) + 0));
        assert(g(8 * y + 1) == f(8 * (7 - y) + 1));
        assert(g(8 * y + 2) == f(8 * (7 - y) + 2));
        assert(g(8 * y + 3) == f(8 * (7 - y) + 3));
        assert(g(8 * y + 4) == f(8 * (7 - y) + 4));
        assert(g(8 * y + 5) == f(8 * (7 - y) + 5));
        assert(g(8 * y + 6) == f(8 * (7 - y) + 6));
        assert(g(8 * y + 7) == f(8 * (7 - y) + 7));
    }
}

/// The height of texel `j` of a block.
spec fn height_in(w: World, crop: Crop, size: int, d: int) -> spec_fn(int) -> int {
    |j: int| w.h0@[block_index(w, crop, size, d, j)] as int
}

/// 1 where texel `j` of a block is of terrain type `t`, else 0.
spec fn terrain_in(w: World, crop: Crop, size: int, d: int, t: int) -> spec_fn(int) -> int {
    |j: int|
        if w.m0@[block_index(w, crop, size, d, j)] == t {
            1
        } else {
            0
        }
}

/// What is pooled of a block, as sums over its texels.
proof fn lemma_block_totals(w: World, crop: Crop, size: int, d: int, t: int, n: int)
    ensures
        block_sum(w, crop, size, d, n) == total(height_in(w, crop, size, d), n),
        block_count(w, crop, size, d, t, n) == total(terrain_in(w, crop, size, d, t), n),
    decreases n,
{
    if n > 0 {
        lemma_block_totals(w, crop, size, d, t, n - 1);
    }
}

/// Sums of the same values are the same.
proof fn lemma_same_totals(f: spec_fn(int) -> int, g: spec_fn(int) -> int, n: int)
    requires
        forall|j: int| 0 <= j < n ==> #[trigger] f(j) == g(j),
    ensures
        total(f, n) == total(g, n),
    decreases n,
{
    if n > 0 {
        lemma_same_totals(f, g, n - 1);
        assert(f(n - 1) == g(n - 1));
    }
}

/// The same counts have the same majority.
proof fn lemma_same_majority(f: spec_fn(int) -> int, g: spec_fn(int) -> int, n: int)
    requires
        forall|t: int| 0 <= t < n ==> #[trigger] f(t) == g(t),
    ensures
        majority(f, n) == majority(g, n),
        1 <= n ==> 0 <= majority(f, n) < n,
    decreases n,
{
    if n > 1 {
        lemma_same_majority(f, g, n - 1);
        assert(f(n - 1) == g(n - 1));
        assert(f(majority(f, n - 1)) == g(majority(f, n - 1)));
    }
}

/// Blocks with the same sums are pooled to the same levels.
proof fn lemma_same_pooled(w: World, a: Crop, b: Crop, n: int, d: int, e: int, c: int)
    requires
        total(height_in(w, a, n, d), 64) == total(height_in(w, b, n, e), 64),
        forall|t: int|
            0 <= t < NUM_TERRAINS ==> #[trigger] total(terrain_in(w, a, n, d, t), 64) == total(
                terrain_in(w, b, n, e, t),
                64,
            ),
    ensures
        coarse_code(w, a, n, d, c) == coarse_code(w, b, n, e, c),
{
    lemma_block_totals(w, a, n, d, 0, 64);
    lemma_block_totals(w, b, n, e, 0, 64);
    let f = |t: int| block_count(w, a, n, d, t, (POOL * POOL) as int);
    let g = |t: int| block_count(w, b, n, e, t, (POOL * POOL) as int);
    assert forall|t: int| 0 <= t < NUM_TERRAINS implies #[trigger] f(t) == g(t) by {
        lemma_block_totals(w, a, n, d, t, 64);
        lemma_block_totals(w, b, n, e, t, 64);
        assert(total(terrain_in(w, a, n, d, t), 64) == total(terrain_in(w, b, n, e, t), 64));
    }
    lemma_same_majority(f, g, NUM_TERRAINS as int);
    assert(block_majority(w, a, n, d) == majority(f, NUM_TERRAINS as int));
    assert(block_majority(w, b, n, e) == majority(g, NUM_TERRAINS as int));
}

/// The block of a flipped crop is a block of the crop, mirrored itself.
proof fn lemma_mirrored_block(w: World, crop: Crop, n: int, dx: int, dy: int, x: int, y: int)
    requires
        0 <= dx < n,
        0 <= dy < n,
        0 <= x < 8,
        0 <= y < 8,
    ensures
        block_index(w, mirrored_x(crop), n, dy * n + dx, 8 * y + x) == block_index(
            w,
            crop,
            n,
            dy * n + (n - 1 - dx),
            8 * y + (7 - x),
        ),
        block_index(w, mirrored_y(crop), n, dy * n + dx, 8 * y + x) == block_index(
            w,
            crop,
            n,
            (n - 1 - dy) * n + dx,
            8 * (7 - y) + x,
        ),
{
    lemma_row_column(n, dx, dy);
    lemma_row_column(n, n - 1 - dx, dy);
    lemma_row_column(n, dx, n - 1 - dy);
}

/// Flipping a crop along an axis mirrors its coarse patch along that axis: a
/// block is pooled to the same levels, mirrored or not.
pub proof fn law_mirrored_coarse(w: World, crop: Crop, n: int, dx: int, dy: int, c: int)
    requires
        0 <= dx < n,
        0 <= dy < n,
    ensures
        coarse_cells(w, mirrored_x(crop), n)(dy * n + dx, c) == coarse_cells(w, crop, n)(
            dy * n + (n - 1 - dx),
            c,
        ),
        coarse_cells(w, mirrored_y(crop), n)(dy * n + dx, c) == coarse_cells(w, crop, n)(
            (n - 1 - dy) * n + dx,
            c,
        ),
{
    let d = dy * n + dx;
    let ex = dy * n + (n - 1 - dx);
    let ey = (n - 1 - dy) * n + dx;
    let mx = mirrored_x(crop);
    let my = mirrored_y(crop);
    assert forall|y: int, x: int| 0 <= y < 8 && 0 <= x < 8 implies {
        &&& #[trigger] block_index(w, mx, n, d, 8 * y + x) == block_index(
            w,
            crop,
            n,
            ex,
            8 * y + (7 - x),
        )
        &&& block_index(w, my, n, d, 8 * y + x) == block_index(w, crop, n, ey, 8 * (7 - y) + x)
    } by {
        lemma_mirrored_block(w, crop, n, dx, dy, x, y);
    }
    lemma_columns_reversed(height_in(w, crop, n, ex), height_in(w, mx, n, d), 8);
    assert forall|y: int, x: int| 0 <= y < 8 && 0 <= x < 8 implies #[trigger] height_in(
        w,
        my,
        n,
        d,
    )(8 * y + x) == height_in(w, crop, n, ey)(8 * (7 - y) + x) by {
        lemma_mirrored_block(w, crop, n, dx, dy, x, y);
    }
    lemma_rows_reversed(height_in(w, crop, n, ey), height_in(w, my, n, d), 8);
    assert forall|t: int| 0 <= t < NUM_TERRAINS implies #[trigger] total(
        terrain_in(w, mx, n, d, t),
        64,
    ) == total(terrain_in(w, crop, n, ex, t), 64) by {
        lemma_columns_reversed(terrain_in(w, crop, n, ex, t), terrain_in(w, mx, n, d, t), 8);
    }
    assert forall|t: int| 0 <= t < NUM_TERRAINS implies #[trigger] total(
        terrain_in(w, my, n, d, t),
        64,
    ) == total(terrain_in(w, crop, n, ey, t), 64) by {
        assert forall|y: int, x: int| 0 <= y < 8 && 0 <= x < 8 implies #[trigger] terrain_in(
            w,
            my,
            n,
            d,
            t,
        )(8 * y + x) == terrain_in(w, crop, n, ey, t)(8 * (7 - y) + x) by {
            lemma_mirrored_block(w, crop, n, dx, dy, x, y);
        }
        lemma_rows_reversed(terrain_in(w, crop, n, ey, t), terrain_in(w, my, n, d, t), 8);
    }
    lemma_same_pooled(w, mx, crop, n, d, ex, c);
    lemma_same_pooled(w, my, crop, n, d, ey, c);
}

/// Where the sides of a world are powers of two, moving the corner of a crop by
/// whole sides of the world leaves its coarse patch as it is.
pub proof fn law_moved_coarse(
    w: World,
    crop: Crop,
    i: int,
    j: int,
    n: int,
    d: int,
    c: int,
    wbits: nat,
    hbits: nat,
)
    requires
        crop_fits(w, crop, n * POOL),
        w.width == pow2(wbits),
        w.height == pow2(hbits),
        0 <= crop.x + i * w.width <= usize::MAX - n * POOL,
        0 <= crop.y + j * w.height <= usize::MAX - n * POOL,
        0 <= n,
        0 <= d < n * n,
    ensures
        coarse_cells(w, moved_by(w, crop, i, j), n)(d, c) == coarse_cells(w, crop, n)(d, c),
{
    let moved = moved_by(w, crop, i, j);
    lemma_square_place(n, d);
    assert forall|k: int| 0 <= k < 64 implies #[trigger] block_index(w, moved, n, d, k)
        == block_index(w, crop, n, d, k) by {
        let dx = (d % n) * 8 + k % 8;
        let dy = (d / n) * 8 + k / 8;
        law_moved_texels(w, crop, i, j, n * 8, dx, dy, wbits, hbits);
    }
    lemma_same_totals(height_in(w, moved, n, d), height_in(w, crop, n, d), 64);
    assert forall|t: int| 0 <= t < NUM_TERRAINS implies #[trigger] total(
        terrain_in(w, moved, n, d, t),
        64,
    ) == total(terrain_in(w, crop, n, d, t), 64) by {
        lemma_same_totals(terrain_in(w, moved, n, d, t), terrain_in(w, crop, n, d, t), 64);
    }
    lemma_same_pooled(w, moved, crop, n, d, d, c);
}

} // verus!
