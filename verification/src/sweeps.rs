//! What one tile, and one step, of a generation does, texel by texel, in terms
//! of the data of its canvas.

use crate::generate::{
    accepted, advanced, cond_values, entry_of, generable, is_fresh, tile_values, Generation, Tile,
};
use crate::model::UNetConfig;
use crate::planes::{chw, lemma_chw_bound, lemma_chw_distinct};
use crate::tiled::{
    lemma_place, lemma_starts_bound, offset, place, positions, starts, Canvas,
};
use vstd::prelude::*;

verus! {

/// A canvas holds its channels one after the other, each row by row, and data
/// laid out plane by plane holds its planes one after the other.
pub proof fn law_row_by_row<T>(canvas: Canvas<T>, c: int, y: int, x: int, d: int)
    ensures
        canvas.at(c, y, x) == canvas.data@[(c * canvas.height + y) * canvas.width + x],
        place(canvas.height as int, canvas.width as int, c, y, x) == (c * canvas.height + y)
            * canvas.width + x,
        chw(canvas.data@, canvas.height * canvas.width, c, d) == canvas.data@[c * (canvas.height
            * canvas.width) + d],
        canvas.wf() <==> canvas.data@.len() == canvas.channels * canvas.height * canvas.width,
{
}

/// The starts of the tiles of an axis: one tile at its start where the axis is
/// no longer than a tile, else one every `tile - overlap` positions, as many as
/// start within the axis.
pub proof fn law_tile_starts(extent: int, tile: int, overlap: int, i: int)
    requires
        0 < tile <= extent,
        tile < extent ==> 0 <= overlap < tile,
        0 <= i < starts(extent, tile, overlap).len(),
    ensures
        extent == tile ==> starts(extent, tile, overlap) == seq![0int],
        tile < extent ==> starts(extent, tile, overlap)[i] == i * (tile - overlap),
        starts(extent, tile, overlap)[i] < extent,
        tile < extent ==> starts(extent, tile, overlap).len() * (tile - overlap) >= extent,
{
    lemma_starts_bound(extent, tile, overlap, i);
    if tile < extent {
        let stride = tile - overlap;
        let n = (extent + stride - 1) / stride;
        vstd::arithmetic::div_mod::lemma_fundamental_div_mod(extent + stride - 1, stride);
        vstd::arithmetic::div_mod::lemma_mod_bound(extent + stride - 1, stride);
        assert(stride * n == n * stride) by (nonlinear_arith);
        assert(0 <= n) by (nonlinear_arith)
            requires
                0 <= extent,
                0 < stride,
                stride * n + stride > extent + stride - 1,
        ;
    }
}

/// The tiles of a generation start where the tiles of its axes do.
pub proof fn law_tiles_of_axes<T>(g: Generation<T>, row: int, column: int)
    requires
        g.wf(),
        0 <= row < g.ys@.len(),
        0 <= column < g.xs@.len(),
    ensures
        g.tile_of(row, column).y == g.ys@[row],
        g.tile_of(row, column).x == g.xs@[column],
        g.ys@.len() == starts(g.canvas.height as int, g.side as int, g.overlap as int).len(),
        g.xs@.len() == starts(g.canvas.width as int, g.side as int, g.overlap as int).len(),
        g.ys@[row] == starts(g.canvas.height as int, g.side as int, g.overlap as int)[row],
        g.xs@[column] == starts(g.canvas.width as int, g.side as int, g.overlap as int)[column],
        g.ys@[row] < g.canvas.height,
        g.xs@[column] < g.canvas.width,
{
    lemma_starts_bound(g.canvas.height as int, g.side as int, g.overlap as int, row);
    lemma_starts_bound(g.canvas.width as int, g.side as int, g.overlap as int, column);
    assert(positions(g.ys@)[row] == g.ys@[row]);
    assert(positions(g.xs@)[column] == g.xs@[column]);
}

/// What lies `d` beyond a start on a circle, `d` beyond it is.
proof fn lemma_offset_of(extent: int, start: int, d: int)
    requires
        0 <= start < extent,
        0 <= d < extent,
    ensures
        offset(extent, start, (start + d) % extent) == d,
        0 <= (start + d) % extent < extent,
{
    vstd::arithmetic::div_mod::lemma_mod_bound(start + d, extent);
    vstd::arithmetic::div_mod::lemma_sub_mod_noop((start + d) % extent, start, extent);
    vstd::arithmetic::div_mod::lemma_mod_twice(start + d, extent);
    vstd::arithmetic::div_mod::lemma_sub_mod_noop(start + d, start, extent);
    vstd::arithmetic::div_mod::lemma_small_mod(d as nat, extent as nat);
}

/// The value of a tile at channel `c`, row `dy` and column `dx` is that of the
/// canvas `dy` below and `dx` to the right of where the tile starts, both axes
/// taken as circles.
pub proof fn law_tile_entry<T>(canvas: Canvas<T>, tile: Tile, side: int, c: int, dy: int, dx: int)
    requires
        0 <= c < canvas.channels,
        0 <= dy < side,
        0 <= dx < side,
    ensures
        tile_values(canvas, tile, side).len() == canvas.channels * side * side,
        0 <= (c * side + dy) * side + dx < canvas.channels * side * side,
        tile_values(canvas, tile, side)[(c * side + dy) * side + dx] == canvas.data@[(c
            * canvas.height + (tile.y + dy) % canvas.height as int) * canvas.width + (tile.x + dx)
            % canvas.width as int],
{
    lemma_place(canvas.channels as int, side, side, c, dy, dx);
    let k = (c * side + dy) * side + dx;
    vstd::arithmetic::div_mod::lemma_fundamental_div_mod_converse(k, side, c * side + dy, dx);
    vstd::arithmetic::div_mod::lemma_fundamental_div_mod_converse(c * side + dy, side, c, dy);
}

/// Values that each of the two samples of an input holds.
pub open spec fn sample_len<T>(canvas: Canvas<T>, cond: Option<&Canvas<T>>, side: int) -> int {
    match cond {
        Some(k) => (canvas.channels + k.channels) * side * side,
        None => canvas.channels * side * side,
    }
}

/// What the model is shown of a tile of the canvas, entry by entry: in both
/// samples, at channel `c`, row `dy` and column `dx`, the canvas's value `dy`
/// below and `dx` to the right of where the tile starts, around the edges.
pub proof fn law_shown_values<T>(
    canvas: Canvas<T>,
    cond: Option<&Canvas<T>>,
    tile: Tile,
    side: int,
    input: Seq<T>,
    c: int,
    dy: int,
    dx: int,
)
    requires
        0 <= c < canvas.channels,
        0 <= dy < side,
        0 <= dx < side,
        input == (tile_values(canvas, tile, side) + cond_values(cond, tile, side)) + (tile_values(
            canvas,
            tile,
            side,
        ) + cond_values(cond, tile, side)),
    ensures
        input.len() == 2 * sample_len(canvas, cond, side),
        ({
            let y = (tile.y + dy) % canvas.height as int;
            let x = (tile.x + dx) % canvas.width as int;
            let value = canvas.data@[(c * canvas.height + y) * canvas.width + x];
            &&& input[(c * side + dy) * side + dx] == value
            &&& input[sample_len(canvas, cond, side) + (c * side + dy) * side + dx] == value
        }),
{
    lemma_shown_len(canvas, cond, tile, side, input);
    law_tile_entry(canvas, tile, side, c, dy, dx);
    let own = tile_values(canvas, tile, side);
    let e = (c * side + dy) * side + dx;
    assert(input[e] == own[e]);
    assert(input[sample_len(canvas, cond, side) + e] == own[e]);
}

/// What the model is shown of the conditioning of a tile, entry by entry: in
/// both samples, behind the channels of the canvas, at channel `c`, row `dy` and
/// column `dx`, the conditioning canvas's value of the very texel that the
/// canvas's values at that row and column are of.
pub proof fn law_shown_conditioning<T>(
    canvas: Canvas<T>,
    k: &Canvas<T>,
    tile: Tile,
    side: int,
    input: Seq<T>,
    c: int,
    dy: int,
    dx: int,
)
    requires
        k.height == canvas.height,
        k.width == canvas.width,
        0 <= c < k.channels,
        0 <= dy < side,
        0 <= dx < side,
        input == (tile_values(canvas, tile, side) + cond_values(Some(k), tile, side)) + (
        tile_values(canvas, tile, side) + cond_values(Some(k), tile, side)),
    ensures
        input.len() == 2 * ((canvas.channels + k.channels) * side * side),
        ({
            let y = (tile.y + dy) % canvas.height as int;
            let x = (tile.x + dx) % canvas.width as int;
            let value = k.data@[(c * canvas.height + y) * canvas.width + x];
            let e = ((canvas.channels + c) * side + dy) * side + dx;
            &&& input[e] == value
            &&& input[(canvas.channels + k.channels) * side * side + e] == value
        }),
{
    lemma_shown_len(canvas, Some(k), tile, side, input);
    law_tile_entry(*k, tile, side, c, dy, dx);
    let own = tile_values(canvas, tile, side);
    let part = cond_values(Some(k), tile, side);
    let channels = canvas.channels as int;
    let e = (c * side + dy) * side + dx;
    let f = ((channels + c) * side + dy) * side + dx;
    assert(f == channels * side * side + e) by (nonlinear_arith)
        requires
            e == (c * side + dy) * side + dx,
            f == ((channels + c) * side + dy) * side + dx,
    ;
    assert(input[f] == part[e]);
    assert(input[(channels + k.channels) * side * side + f] == part[e]);
}

/// The canvas and its conditioning are shown in register: conditioned on itself,
/// a canvas is shown twice over, entry by entry.
pub proof fn law_shown_in_register<T>(
    canvas: Canvas<T>,
    k: &Canvas<T>,
    tile: Tile,
    side: int,
    input: Seq<T>,
    c: int,
    dy: int,
    dx: int,
)
    requires
        k.height == canvas.height,
        k.width == canvas.width,
        k.channels == canvas.channels,
        k.data@ == canvas.data@,
        0 <= c < canvas.channels,
        0 <= dy < side,
        0 <= dx < side,
        input == (tile_values(canvas, tile, side) + cond_values(Some(k), tile, side)) + (
        tile_values(canvas, tile, side) + cond_values(Some(k), tile, side)),
    ensures
        input[((canvas.channels + c) * side + dy) * side + dx] == input[(c * side + dy) * side
            + dx],
{
    law_shown_values(canvas, Some(k), tile, side, input, c, dy, dx);
    law_shown_conditioning(canvas, k, tile, side, input, c, dy, dx);
}

/// How many values the model is shown.
pub proof fn lemma_shown_len<T>(
    canvas: Canvas<T>,
    cond: Option<&Canvas<T>>,
    tile: Tile,
    side: int,
    input: Seq<T>,
)
    requires
        0 <= side,
        input == (tile_values(canvas, tile, side) + cond_values(cond, tile, side)) + (tile_values(
            canvas,
            tile,
            side,
        ) + cond_values(cond, tile, side)),
    ensures
        tile_values(canvas, tile, side).len() == canvas.channels * side * side,
        (tile_values(canvas, tile, side) + cond_values(cond, tile, side)).len() == sample_len(
            canvas,
            cond,
            side,
        ),
        input.len() == 2 * sample_len(canvas, cond, side),
        cond matches Some(k) ==> cond_values(cond, tile, side).len() == k.channels * side * side,
{
    let channels = canvas.channels as int;
    assert(0 <= channels * side * side) by (nonlinear_arith)
        requires
            0 <= channels,
            0 <= side,
    ;
    if let Some(k) = cond {
        let given = k.channels as int;
        assert(0 <= given * side * side && (channels + given) * side * side == channels * side
            * side + given * side * side) by (nonlinear_arith)
            requires
                0 <= given,
                0 <= side,
        ;
    }
}

/// What taking the model's answer does to the texel `dy` below and `dx` to the
/// right of where the next tile starts, around the edges: to its sum are added,
/// under the window's weight for that entry, the two samples' values for it, and
/// the weight to its sum of weights.
pub proof fn law_accepted_entry<T, B: Fn(T, T, T, T) -> T, W: Fn(T, T) -> T>(
    before: Generation<T>,
    after: Generation<T>,
    v: Seq<T>,
    win: Seq<T>,
    blend: B,
    weigh: W,
    c: int,
    dy: int,
    dx: int,
)
    requires
        before.wf(),
        before.row < before.ys@.len(),
        accepted(before, after, v, win, blend, weigh),
        0 <= c < before.canvas.channels,
        0 <= dy < before.side,
        0 <= dx < before.side,
    ensures
        ({
            let h = before.canvas.height as int;
            let w = before.canvas.width as int;
            let n = before.side * before.side;
            let y = (before.ys@[before.row as int] + dy) % h;
            let x = (before.xs@[before.column as int] + dx) % w;
            let entry = dy * before.side + dx;
            let at = (c * h + y) * w + x;
            let spot = y * w + x;
            &&& call_ensures(
                blend,
                (
                    before.v_acc@[at],
                    win[entry],
                    v[c * n + entry],
                    v[(before.canvas.channels + c) * n + entry],
                ),
                after.v_acc@[at],
            )
            &&& call_ensures(weigh, (before.w_acc@[spot], win[entry]), after.w_acc@[spot])
        }),
{
    let h = before.canvas.height as int;
    let w = before.canvas.width as int;
    let side = before.side as int;
    law_tiles_of_axes(before, before.row as int, before.column as int);
    let tile = before.next_tile();
    lemma_offset_of(h, tile.y as int, dy);
    lemma_offset_of(w, tile.x as int, dx);
    let y = (tile.y + dy) % h;
    let x = (tile.x + dx) % w;
    lemma_chw_bound(side, side, dy, dx);
    assert(entry_of(h, w, tile, side, y, x) == Some(dy * side + dx));
    let at = place(h, w, c, y, x);
    let spot = place(h, w, 0, y, x);
    assert(spot == y * w + x);
}

/// What taking the model's answer leaves as it is: the texels that lie `side` or
/// more beyond the start of the tile along an axis, the canvas, and what the
/// generation was made with. The next tile is the one to the right, or the first
/// of the row below.
pub proof fn law_accepted_leaves<T, B: Fn(T, T, T, T) -> T, W: Fn(T, T) -> T>(
    before: Generation<T>,
    after: Generation<T>,
    v: Seq<T>,
    win: Seq<T>,
    blend: B,
    weigh: W,
    c: int,
    y: int,
    x: int,
)
    requires
        before.wf(),
        after.wf(),
        before.row < before.ys@.len(),
        accepted(before, after, v, win, blend, weigh),
        0 <= c < before.canvas.channels,
        0 <= y < before.canvas.height,
        0 <= x < before.canvas.width,
    ensures
        ({
            let h = before.canvas.height as int;
            let w = before.canvas.width as int;
            let at = (c * h + y) * w + x;
            let spot = y * w + x;
            (y - before.ys@[before.row as int]) % h >= before.side || (x
                - before.xs@[before.column as int]) % w >= before.side ==> after.v_acc@[at]
                == before.v_acc@[at] && after.w_acc@[spot] == before.w_acc@[spot]
        }),
        after.canvas == before.canvas,
        after.cond_channels == before.cond_channels,
        after.side == before.side,
        after.xs == before.xs && after.ys == before.ys,
        after.step == before.step && after.steps == before.steps,
        before.column + 1 < before.xs@.len() ==> after.row == before.row && after.column
            == before.column + 1,
        before.column + 1 == before.xs@.len() ==> after.row == before.row + 1 && after.column == 0,
{
    let h = before.canvas.height as int;
    let w = before.canvas.width as int;
    let at = place(h, w, c, y, x);
    let spot = place(h, w, 0, y, x);
    assert(spot == y * w + x);
    let n = before.xs@.len() as int;
    let (r, k) = (after.row as int, after.column as int);
    let (p, q) = (before.row as int, before.column as int);
    assert(r * n + k == p * n + q + 1);
    assert(0 <= k < n && 0 <= q < n);
    if q + 1 < n {
        lemma_chw_distinct(n, r, k, p, q + 1);
    } else {
        assert((p + 1) * n + 0 == p * n + n) by (nonlinear_arith);
        lemma_chw_distinct(n, r, k, p + 1, 0);
    }
}

/// What ending a step does: every value is updated by the sum at its own place
/// and the weights at its own texel, the sums start over, and the tiles of the
/// next step start over.
pub proof fn law_advanced_entry<T, U: Fn(T, T, T) -> T>(
    before: Generation<T>,
    after: Generation<T>,
    update: U,
    zero: T,
    c: int,
    y: int,
    x: int,
)
    requires
        before.wf(),
        after.wf(),
        advanced(before, after, update, zero),
        0 <= c < before.canvas.channels,
        0 <= y < before.canvas.height,
        0 <= x < before.canvas.width,
    ensures
        ({
            let h = before.canvas.height as int;
            let w = before.canvas.width as int;
            let at = (c * h + y) * w + x;
            let spot = y * w + x;
            &&& call_ensures(
                update,
                (before.canvas.data@[at], before.v_acc@[at], before.w_acc@[spot]),
                after.canvas.data@[at],
            )
            &&& after.v_acc@[at] == zero
            &&& after.w_acc@[spot] == zero
        }),
        after.step == before.step + 1 && after.row == 0 && after.column == 0,
        after.canvas.channels == before.canvas.channels,
        after.canvas.height == before.canvas.height,
        after.canvas.width == before.canvas.width,
        after.cond_channels == before.cond_channels,
        after.side == before.side,
        after.xs == before.xs && after.ys == before.ys,
        after.steps == before.steps,
{
    let h = before.canvas.height as int;
    let w = before.canvas.width as int;
    lemma_place(before.canvas.channels as int, h, w, c, y, x);
    lemma_place(1, h, w, 0, y, x);
    assert(1 * h * w == h * w);
    assert(place(h, w, 0, y, x) == y * w + x);
    let value = after.canvas.at(c, y, x);
    assert(value == after.canvas.data@[(c * h + y) * w + x]);
}

/// A generation starts at its first tile and its first step, with all sums at
/// zero.
pub proof fn law_fresh<T>(g: Generation<T>, zero: T, k: int)
    requires
        is_fresh(g, zero),
    ensures
        g.step == 0 && g.row == 0 && g.column == 0,
        g.v_acc@.len() == g.canvas.channels * g.canvas.height * g.canvas.width,
        g.w_acc@.len() == g.canvas.height * g.canvas.width,
        0 <= k < g.v_acc@.len() ==> g.v_acc@[k] == zero,
        0 <= k < g.w_acc@.len() ==> g.w_acc@[k] == zero,
{
}

/// A generation is refused exactly where the network does not take two samples,
/// the conditioning is missing, not wanted or of another shape, a side of the
/// canvas is shorter than a tile, or the tiles never move on.
pub proof fn law_refused<T>(
    cfg: UNetConfig,
    width: int,
    height: int,
    cond: Option<&Canvas<T>>,
    overlap: int,
)
    ensures
        !generable(cfg, width, height, cond, overlap) <==> {
            ||| cfg.batch != 2
            ||| cond is None && cfg.cond_channels != 0
            ||| cond is Some && cond->0.channels != cfg.cond_channels
            ||| cond is Some && (cond->0.width != width || cond->0.height != height)
            ||| cfg.resolution == 0
            ||| width < cfg.resolution
            ||| height < cfg.resolution
            ||| (cfg.resolution < width || cfg.resolution < height) && cfg.resolution <= overlap
        },
{
}

} // verus!
