//! Generating a canvas step by step, tile by tile.
//!
//! A [`Generation`] says which tile comes next, what the model is shown of it,
//! and what becomes of the model's answer. The model takes two samples at a
//! time: both show the same tile, the first under the target class and the
//! second under the null class. The arithmetic on values is the caller's.

use crate::planes::{chw, filled, lemma_chw_bound, lemma_chw_distinct, lemma_square_place};
use crate::tiled::{
    lemma_place, lemma_place_distinct, lemma_starts_bound, law_tiles_cover, offset, place,
    positions, starts, tile_starts, Canvas,
};
use crate::sampler::{
    coarse_cells, covering, packed, pair_cells, Crop, COARSE_CHANNELS, FULL_CHANNELS, POOL,
};
use crate::model::UNetConfig;
use crate::sweeps::{law_shown_conditioning, law_shown_values, lemma_shown_len, sample_len};
use crate::training::NULL_CLASS;
use crate::world::World;
use vstd::prelude::*;

verus! {

/// Where a tile starts.
#[derive(Copy, Clone, Debug)]
pub struct Tile {
    pub x: usize,
    pub y: usize,
}

/// The state of a generation.
pub struct Generation<T> {
    /// The values so far.
    pub canvas: Canvas<T>,
    /// Channels of the conditioning canvas; none is given where there are none.
    pub cond_channels: usize,
    /// Side of a tile.
    pub side: usize,
    /// Positions that neighbouring tiles share.
    pub overlap: usize,
    /// Starts of the tiles along each axis.
    pub xs: Vec<usize>,
    pub ys: Vec<usize>,
    /// Steps that are done, and how many there are.
    pub step: usize,
    pub steps: usize,
    /// Tiles of the current step that are done.
    pub row: usize,
    pub column: usize,
    /// What the tiles of the current step add up to, and their weights.
    pub v_acc: Vec<T>,
    pub w_acc: Vec<T>,
}

/// The entry of a tile that texel (`y`, `x`) of a canvas is, if it is one.
pub open spec fn entry_of(
    height: int,
    width: int,
    tile: Tile,
    side: int,
    y: int,
    x: int,
) -> Option<int> {
    let dy = offset(height, tile.y as int, y);
    let dx = offset(width, tile.x as int, x);
    if dy < side && dx < side {
        Some(dy * side + dx)
    } else {
        None
    }
}

/// The values of a tile of a canvas, plane by plane.
pub open spec fn tile_values<T>(canvas: Canvas<T>, tile: Tile, side: int) -> Seq<T> {
    Seq::new(
        (canvas.channels * side * side) as nat,
        |k: int|
            canvas.at(
                (k / side) / side,
                (tile.y + (k / side) % side) % canvas.height as int,
                (tile.x + k % side) % canvas.width as int,
            ),
    )
}

/// The values of the conditioning channels of a tile, if there are any.
pub open spec fn cond_values<T>(cond: Option<&Canvas<T>>, tile: Tile, side: int) -> Seq<T> {
    match cond {
        Some(c) => tile_values(*c, tile, side),
        None => Seq::empty(),
    }
}

/// `after` is `before` with the tile's answer blended in, as far as the first
/// `done` entries of the tile, and the channels below `last` of the next one.
pub open spec fn blended<T, B: Fn(T, T, T, T) -> T>(
    before: Seq<T>,
    after: Seq<T>,
    channels: int,
    height: int,
    width: int,
    tile: Tile,
    side: int,
    win: Seq<T>,
    v: Seq<T>,
    blend: B,
    done: int,
    last: int,
) -> bool {
    &&& after.len() == before.len()
    &&& forall|c: int, y: int, x: int|
        #![trigger place(height, width, c, y, x)]
        0 <= c < channels && 0 <= y < height && 0 <= x < width ==> {
            let at = place(height, width, c, y, x);
            let entry = entry_of(height, width, tile, side, y, x);
            if entry is Some && (entry->0 < done || (entry->0 == done && c < last)) {
                call_ensures(
                    blend,
                    (
                        before[at],
                        win[entry->0],
                        chw(v, side * side, c, entry->0),
                        chw(v, side * side, channels + c, entry->0),
                    ),
                    after[at],
                )
            } else {
                after[at] == before[at]
            }
        }
}

/// `after` is `before` with the tile's weights added, as far as the first
/// `done` entries of the tile.
pub open spec fn weighed<T, W: Fn(T, T) -> T>(
    before: Seq<T>,
    after: Seq<T>,
    height: int,
    width: int,
    tile: Tile,
    side: int,
    win: Seq<T>,
    weigh: W,
    done: int,
) -> bool {
    &&& after.len() == before.len()
    &&& forall|y: int, x: int|
        #![trigger place(height, width, 0, y, x)]
        0 <= y < height && 0 <= x < width ==> {
            let at = place(height, width, 0, y, x);
            let entry = entry_of(height, width, tile, side, y, x);
            if entry is Some && entry->0 < done {
                call_ensures(weigh, (before[at], win[entry->0]), after[at])
            } else {
                after[at] == before[at]
            }
        }
}

/// A position that lies `d` beyond `start` on a circle.
fn around(start: usize, d: usize, extent: usize) -> (p: usize)
    requires
        start < extent,
        d < extent,
    ensures
        p == (start + d) % extent as int,
        p < extent,
{
    let room: usize = extent - start;
    if d < room {
        proof {
            vstd::arithmetic::div_mod::lemma_small_mod((start + d) as nat, extent as nat);
        }
        start + d
    } else {
        proof {
            vstd::arithmetic::div_mod::lemma_fundamental_div_mod_converse(
                start + d,
                extent as int,
                1,
                d - room,
            );
        }
        d - room
    }
}

/// Going `d` beyond a start and measuring how far that is gives `d`.
proof fn lemma_offset(extent: int, start: int, d: int)
    requires
        0 <= start < extent,
        0 <= d < extent,
    ensures
        offset(extent, start, (start + d) % extent) == d,
{
    vstd::arithmetic::div_mod::lemma_sub_mod_noop((start + d) % extent, start, extent);
    vstd::arithmetic::div_mod::lemma_mod_twice(start + d, extent);
    vstd::arithmetic::div_mod::lemma_sub_mod_noop(start + d, start, extent);
    vstd::arithmetic::div_mod::lemma_small_mod(d as nat, extent as nat);
}

/// Going from a start as far as `p` lies beyond it gives `p`.
proof fn lemma_offset_back(extent: int, start: int, p: int)
    requires
        0 <= start < extent,
        0 <= p < extent,
    ensures
        0 <= offset(extent, start, p) < extent,
        (start + offset(extent, start, p)) % extent == p,
{
    vstd::arithmetic::div_mod::lemma_mod_bound(p - start, extent);
    vstd::arithmetic::div_mod::lemma_add_mod_noop(start, p - start, extent);
    vstd::arithmetic::div_mod::lemma_add_mod_noop(start, (p - start) % extent, extent);
    vstd::arithmetic::div_mod::lemma_mod_twice(p - start, extent);
    vstd::arithmetic::div_mod::lemma_small_mod(p as nat, extent as nat);
}

/// The entry that a texel is lies within the tile.
pub proof fn lemma_entry_bound(height: int, width: int, tile: Tile, side: int, y: int, x: int)
    requires
        0 < height,
        0 < width,
        entry_of(height, width, tile, side, y, x) is Some,
    ensures
        0 <= entry_of(height, width, tile, side, y, x)->0 < side * side,
{
    let dy = offset(height, tile.y as int, y);
    let dx = offset(width, tile.x as int, x);
    vstd::arithmetic::div_mod::lemma_mod_bound(y - tile.y, height);
    vstd::arithmetic::div_mod::lemma_mod_bound(x - tile.x, width);
    lemma_chw_bound(side, side, dy, dx);
}

/// Exactly one texel is a given entry of a tile.
proof fn lemma_entry(height: int, width: int, tile: Tile, side: int, d: int)
    requires
        0 <= tile.y < height,
        0 <= tile.x < width,
        0 <= side <= height,
        side <= width,
        0 <= d < side * side,
    ensures
        ({
            let y = (tile.y + d / side) % height;
            let x = (tile.x + d % side) % width;
            &&& 0 <= y < height
            &&& 0 <= x < width
            &&& entry_of(height, width, tile, side, y, x) == Some(d)
            &&& forall|y2: int, x2: int|
                0 <= y2 < height && 0 <= x2 < width && #[trigger] entry_of(
                    height,
                    width,
                    tile,
                    side,
                    y2,
                    x2,
                ) == Some(d) ==> y2 == y && x2 == x
        }),
{
    lemma_square_place(side, d);
    let y = (tile.y + d / side) % height;
    let x = (tile.x + d % side) % width;
    vstd::arithmetic::div_mod::lemma_mod_bound(tile.y + d / side, height);
    vstd::arithmetic::div_mod::lemma_mod_bound(tile.x + d % side, width);
    lemma_offset(height, tile.y as int, d / side);
    lemma_offset(width, tile.x as int, d % side);
    assert forall|y2: int, x2: int|
        0 <= y2 < height && 0 <= x2 < width && #[trigger] entry_of(
            height,
            width,
            tile,
            side,
            y2,
            x2,
        ) == Some(d) implies y2 == y && x2 == x by {
        lemma_offset_back(height, tile.y as int, y2);
        lemma_offset_back(width, tile.x as int, x2);
        lemma_chw_distinct(
            side,
            offset(height, tile.y as int, y2),
            offset(width, tile.x as int, x2),
            d / side,
            d % side,
        );
    }
}

impl<T> Generation<T> {
    /// The state fits together.
    pub open spec fn wf(&self) -> bool {
        &&& self.canvas.wf()
        &&& 0 < self.side <= self.canvas.width
        &&& self.side <= self.canvas.height
        &&& self.side < self.canvas.width || self.side < self.canvas.height ==> self.overlap
            < self.side
        &&& positions(self.xs@) == starts(
            self.canvas.width as int,
            self.side as int,
            self.overlap as int,
        )
        &&& positions(self.ys@) == starts(
            self.canvas.height as int,
            self.side as int,
            self.overlap as int,
        )
        &&& self.step <= self.steps
        &&& self.row <= self.ys@.len()
        &&& self.column < self.xs@.len()
        &&& self.row == self.ys@.len() ==> self.column == 0
        &&& self.v_acc@.len() == self.canvas.data@.len()
        &&& self.w_acc@.len() == self.canvas.height * self.canvas.width
    }

    /// The tile at a given row and column of tiles.
    pub open spec fn tile_of(&self, row: int, column: int) -> Tile {
        Tile { x: self.xs@[column], y: self.ys@[row] }
    }

    /// Nothing but the progress and the sums differs.
    pub open spec fn same_frame(&self, other: &Generation<T>) -> bool {
        &&& self.cond_channels == other.cond_channels
        &&& self.side == other.side
        &&& self.overlap == other.overlap
        &&& self.xs == other.xs
        &&& self.ys == other.ys
        &&& self.steps == other.steps
        &&& self.canvas.channels == other.canvas.channels
        &&& self.canvas.width == other.canvas.width
        &&& self.canvas.height == other.canvas.height
    }
}

impl<T> Generation<T> {
    /// Tiles of a step.
    pub open spec fn tiles(&self) -> int {
        (self.ys@.len() * self.xs@.len()) as int
    }

    /// Tiles of the current step that are done.
    pub open spec fn tiles_done(&self) -> int {
        self.row * self.xs@.len() + self.column
    }

    /// The tile that comes next.
    pub open spec fn next_tile(&self) -> Tile {
        self.tile_of(self.row as int, self.column as int)
    }
}

/// Nothing has been done yet.
pub open spec fn is_fresh<T>(g: Generation<T>, zero: T) -> bool {
    &&& g.wf()
    &&& g.step == 0
    &&& g.row == 0
    &&& g.column == 0
    &&& forall|k: int| 0 <= k < g.v_acc@.len() ==> #[trigger] g.v_acc@[k] == zero
    &&& forall|k: int| 0 <= k < g.w_acc@.len() ==> #[trigger] g.w_acc@[k] == zero
}

/// The model's answer `v` for the next tile has been taken.
pub open spec fn accepted<T, B: Fn(T, T, T, T) -> T, W: Fn(T, T) -> T>(
    before: Generation<T>,
    after: Generation<T>,
    v: Seq<T>,
    win: Seq<T>,
    blend: B,
    weigh: W,
) -> bool {
    &&& v.len() == 2 * before.canvas.channels * (before.side * before.side)
    &&& win.len() == before.side * before.side
    &&& after.same_frame(&before)
    &&& after.canvas == before.canvas
    &&& after.step == before.step
    &&& after.tiles_done() == before.tiles_done() + 1
    &&& blended(
        before.v_acc@,
        after.v_acc@,
        before.canvas.channels as int,
        before.canvas.height as int,
        before.canvas.width as int,
        before.next_tile(),
        before.side as int,
        win,
        v,
        blend,
        before.side * before.side,
        0,
    )
    &&& weighed(
        before.w_acc@,
        after.w_acc@,
        before.canvas.height as int,
        before.canvas.width as int,
        before.next_tile(),
        before.side as int,
        win,
        weigh,
        before.side * before.side,
    )
}

/// A step has been ended.
pub open spec fn advanced<T, U: Fn(T, T, T) -> T>(
    before: Generation<T>,
    after: Generation<T>,
    update: U,
    zero: T,
) -> bool {
    let h = before.canvas.height as int;
    let w = before.canvas.width as int;
    &&& after.same_frame(&before)
    &&& after.step == before.step + 1
    &&& after.row == 0
    &&& after.column == 0
    &&& forall|c: int, y: int, x: int|
        0 <= c < before.canvas.channels && 0 <= y < h && 0 <= x < w ==> call_ensures(
            update,
            (
                before.canvas.at(c, y, x),
                before.v_acc@[place(h, w, c, y, x)],
                before.w_acc@[place(h, w, 0, y, x)],
            ),
            #[trigger] after.canvas.at(c, y, x),
        )
    &&& forall|k: int| 0 <= k < after.v_acc@.len() ==> #[trigger] after.v_acc@[k] == zero
    &&& forall|k: int| 0 <= k < after.w_acc@.len() ==> #[trigger] after.w_acc@[k] == zero
}

/// Every texel of the canvas is an entry of some tile, so that after a step
/// every texel has been given a weight.
pub proof fn law_tiles_cover_canvas<T>(g: Generation<T>, y: int, x: int) -> (tile: (int, int))
    requires
        g.wf(),
        0 <= y < g.canvas.height,
        0 <= x < g.canvas.width,
    ensures
        0 <= tile.0 < g.ys@.len(),
        0 <= tile.1 < g.xs@.len(),
        entry_of(
            g.canvas.height as int,
            g.canvas.width as int,
            g.tile_of(tile.0, tile.1),
            g.side as int,
            y,
            x,
        ) is Some,
{
    let row = law_tiles_cover(g.canvas.height as int, g.side as int, g.overlap as int, y);
    let column = law_tiles_cover(g.canvas.width as int, g.side as int, g.overlap as int, x);
    assert(positions(g.ys@)[row] == g.ys@[row]);
    assert(positions(g.xs@)[column] == g.xs@[column]);
    (row, column)
}

impl<T: Copy> Generation<T> {
    /// A generation that starts from a canvas of noise.
    pub fn new(
        canvas: Canvas<T>,
        cond_channels: usize,
        side: usize,
        overlap: usize,
        steps: usize,
        zero: T,
    ) -> (g: Generation<T>)
        requires
            canvas.wf(),
            0 < side <= canvas.width,
            side <= canvas.height,
            side < canvas.width || side < canvas.height ==> overlap < side,
            canvas.height * canvas.width <= usize::MAX,
        ensures
            g.canvas == canvas,
            g.cond_channels == cond_channels,
            g.side == side,
            g.overlap == overlap,
            g.steps == steps,
            is_fresh(g, zero),
    {
        let xs = tile_starts(canvas.width, side, overlap);
        let ys = tile_starts(canvas.height, side, overlap);
        proof {
            law_tiles_cover(canvas.width as int, side as int, overlap as int, 0);
        }
        let v_acc = filled(canvas.data.len(), zero);
        let w_acc = filled(canvas.height * canvas.width, zero);
        assert(positions(xs@).len() == xs@.len());
        Generation {
            canvas,
            cond_channels,
            side,
            overlap,
            xs,
            ys,
            step: 0,
            steps,
            row: 0,
            column: 0,
            v_acc,
            w_acc,
        }
    }

    /// Whether all steps are done.
    pub fn finished(&self) -> (r: bool)
        ensures
            r == (self.step == self.steps),
    {
        self.step == self.steps
    }

    /// Whether all tiles of the current step are done.
    pub fn swept(&self) -> (r: bool)
        ensures
            r == (self.row == self.ys@.len()),
    {
        self.row == self.ys.len()
    }

    /// The tile that comes next.
    pub fn tile(&self) -> (tile: Tile)
        requires
            self.wf(),
            self.row < self.ys@.len(),
        ensures
            tile == self.tile_of(self.row as int, self.column as int),
            tile.x < self.canvas.width,
            tile.y < self.canvas.height,
    {
        proof {
            lemma_starts_bound(
                self.canvas.width as int,
                self.side as int,
                self.overlap as int,
                self.column as int,
            );
            lemma_starts_bound(
                self.canvas.height as int,
                self.side as int,
                self.overlap as int,
                self.row as int,
            );
            assert(positions(self.xs@)[self.column as int] == self.xs@[self.column as int]);
            assert(positions(self.ys@)[self.row as int] == self.ys@[self.row as int]);
        }
        Tile { x: self.xs[self.column], y: self.ys[self.row] }
    }

    /// What the model is shown of the next tile: its values and those of the
    /// conditioning canvas, the same in both samples.
    pub fn request(&self, cond: Option<&Canvas<T>>) -> (input: Vec<T>)
        requires
            self.wf(),
            self.row < self.ys@.len(),
            match cond {
                Some(c) => {
                    &&& c.wf()
                    &&& c.channels == self.cond_channels
                    &&& c.width == self.canvas.width
                    &&& c.height == self.canvas.height
                },
                None => self.cond_channels == 0,
            },
        ensures
            ({
                let tile = self.tile_of(self.row as int, self.column as int);
                let sample = tile_values(self.canvas, tile, self.side as int) + cond_values(
                    cond,
                    tile,
                    self.side as int,
                );
                input@ == sample + sample
            }),
            input@.len() == 2 * ((self.canvas.channels + self.cond_channels) * self.side
                * self.side),
            // Entry (dy, dx) of the tile is the same texel of both canvases.
            forall|c: int, dy: int, dx: int|
                #![trigger place(self.side as int, self.side as int, c, dy, dx)]
                0 <= c < self.canvas.channels && 0 <= dy < self.side && 0 <= dx < self.side ==> {
                    let y = (self.ys@[self.row as int] + dy) % self.canvas.height as int;
                    let x = (self.xs@[self.column as int] + dx) % self.canvas.width as int;
                    let entry = place(self.side as int, self.side as int, c, dy, dx);
                    &&& input@[entry] == self.canvas.at(c, y, x)
                    &&& input@[input@.len() / 2 + entry] == self.canvas.at(c, y, x)
                },
            cond matches Some(k) ==> forall|c: int, dy: int, dx: int|
                #![trigger place(
                    self.side as int,
                    self.side as int,
                    self.canvas.channels + c,
                    dy,
                    dx,
                )]
                0 <= c < k.channels && 0 <= dy < self.side && 0 <= dx < self.side ==> {
                    let y = (self.ys@[self.row as int] + dy) % self.canvas.height as int;
                    let x = (self.xs@[self.column as int] + dx) % self.canvas.width as int;
                    let entry = place(
                        self.side as int,
                        self.side as int,
                        self.canvas.channels + c,
                        dy,
                        dx,
                    );
                    &&& input@[entry] == k.at(c, y, x)
                    &&& input@[input@.len() / 2 + entry] == k.at(c, y, x)
                },
    {
        let input = self.show(cond);
        proof {
            let tile = self.tile_of(self.row as int, self.column as int);
            lemma_shown_len(self.canvas, cond, tile, self.side as int, input@);
            assert(sample_len(self.canvas, cond, self.side as int) == (self.canvas.channels
                + self.cond_channels) * self.side * self.side);
            assert forall|c: int, dy: int, dx: int|
                #![trigger place(self.side as int, self.side as int, c, dy, dx)]
                0 <= c < self.canvas.channels && 0 <= dy < self.side && 0 <= dx
                    < self.side implies {
                let y = (self.ys@[self.row as int] + dy) % self.canvas.height as int;
                let x = (self.xs@[self.column as int] + dx) % self.canvas.width as int;
                let entry = place(self.side as int, self.side as int, c, dy, dx);
                &&& input@[entry] == self.canvas.at(c, y, x)
                &&& input@[input@.len() / 2 + entry] == self.canvas.at(c, y, x)
            } by {
                law_shown_values(self.canvas, cond, tile, self.side as int, input@, c, dy, dx);
            }
            if let Some(k) = cond {
                assert forall|c: int, dy: int, dx: int|
                    #![trigger place(
                        self.side as int,
                        self.side as int,
                        self.canvas.channels + c,
                        dy,
                        dx,
                    )]
                    0 <= c < k.channels && 0 <= dy < self.side && 0 <= dx < self.side implies {
                    let y = (self.ys@[self.row as int] + dy) % self.canvas.height as int;
                    let x = (self.xs@[self.column as int] + dx) % self.canvas.width as int;
                    let entry = place(
                        self.side as int,
                        self.side as int,
                        self.canvas.channels + c,
                        dy,
                        dx,
                    );
                    &&& input@[entry] == k.at(c, y, x)
                    &&& input@[input@.len() / 2 + entry] == k.at(c, y, x)
                } by {
                    law_shown_conditioning(
                        self.canvas,
                        k,
                        tile,
                        self.side as int,
                        input@,
                        c,
                        dy,
                        dx,
                    );
                }
            }
        }
        input
    }

    /// Gathers what the model is shown of the next tile.
    fn show(&self, cond: Option<&Canvas<T>>) -> (input: Vec<T>)
        requires
            self.wf(),
            self.row < self.ys@.len(),
            match cond {
                Some(c) => {
                    &&& c.wf()
                    &&& c.channels == self.cond_channels
                    &&& c.width == self.canvas.width
                    &&& c.height == self.canvas.height
                },
                None => self.cond_channels == 0,
            },
        ensures
            ({
                let tile = self.tile_of(self.row as int, self.column as int);
                let sample = tile_values(self.canvas, tile, self.side as int) + cond_values(
                    cond,
                    tile,
                    self.side as int,
                );
                input@ == sample + sample
            }),
    {
        let tile = self.tile();
        let mut input: Vec<T> = Vec::new();
        let ghost own = tile_values(self.canvas, tile, self.side as int);
        let ghost given = cond_values(cond, tile, self.side as int);
        gather(&self.canvas, tile, self.side, &mut input);
        if let Some(c) = cond {
            gather(c, tile, self.side, &mut input);
        }
        assert(input@ =~= own + given);
        gather(&self.canvas, tile, self.side, &mut input);
        if let Some(c) = cond {
            gather(c, tile, self.side, &mut input);
        }
        assert(input@ =~= (own + given) + (own + given));
        input
    }
}

impl<T: Copy> Generation<T> {
    /// Takes the model's answer for the next tile, and moves on to the tile
    /// after it. `blend` adds to a sum, under a weight, what the two samples
    /// say; `weigh` adds a weight to a sum of weights.
    pub fn accept<B: Fn(T, T, T, T) -> T, W: Fn(T, T) -> T>(
        &mut self,
        v: &[T],
        win: &[T],
        blend: &B,
        weigh: &W,
    )
        requires
            old(self).wf(),
            old(self).row < old(self).ys@.len(),
            v@.len() == 2 * old(self).canvas.channels * (old(self).side * old(self).side),
            win@.len() == old(self).side * old(self).side,
            forall|a: T, w: T, p: T, q: T| call_requires(*blend, (a, w, p, q)),
            forall|a: T, w: T| call_requires(*weigh, (a, w)),
        ensures
            final(self).wf(),
            accepted(*old(self), *final(self), v@, win@, *blend, *weigh),
    {
        let tile = self.tile();
        let side = self.side;
        let channels = self.canvas.channels;
        let height = self.canvas.height;
        let width = self.canvas.width;
        assert(win.len() == win@.len());
        assert(v.len() == v@.len());
        let plane: usize = side * side;
        let ghost v_before = self.v_acc@;
        let ghost w_before = self.w_acc@;
        let ghost before = *self;
        let mut d: usize = 0;
        while d < plane
            invariant
                tile == before.tile_of(before.row as int, before.column as int),
                tile.x < width,
                tile.y < height,
                before.wf(),
                side == before.side,
                channels == before.canvas.channels,
                height == before.canvas.height,
                width == before.canvas.width,
                plane == side * side,
                v@.len() == 2 * channels * plane,
                win@.len() == plane,
                d <= plane,
                self.same_frame(&before),
                self.canvas == before.canvas,
                self.step == before.step,
                self.row == before.row,
                self.column == before.column,
                v_before == before.v_acc@,
                w_before == before.w_acc@,
                blended(
                    v_before,
                    self.v_acc@,
                    channels as int,
                    height as int,
                    width as int,
                    tile,
                    side as int,
                    win@,
                    v@,
                    *blend,
                    d as int,
                    0,
                ),
                weighed(
                    w_before,
                    self.w_acc@,
                    height as int,
                    width as int,
                    tile,
                    side as int,
                    win@,
                    *weigh,
                    d as int,
                ),
                forall|a: T, w: T, p: T, q: T| call_requires(*blend, (a, w, p, q)),
                forall|a: T, w: T| call_requires(*weigh, (a, w)),
            decreases plane - d,
        {
            proof {
                lemma_square_place(side as int, d as int);
                lemma_entry(height as int, width as int, tile, side as int, d as int);
            }
            let y = around(tile.y, d / side, height);
            let x = around(tile.x, d % side, width);
            let w = win[d];
            let mut c: usize = 0;
            while c < channels
                invariant
                    tile.x < width,
                    tile.y < height,
                    before.wf(),
                    side == before.side,
                    channels == before.canvas.channels,
                    height == before.canvas.height,
                    width == before.canvas.width,
                    plane == side * side,
                    v@.len() == 2 * channels * plane,
                    win@.len() == plane,
                    d < plane,
                    w == win@[d as int],
                    c <= channels,
                    y < height,
                    x < width,
                    entry_of(height as int, width as int, tile, side as int, y as int, x as int)
                        == Some(d as int),
                    forall|y2: int, x2: int|
                        0 <= y2 < height && 0 <= x2 < width && #[trigger] entry_of(
                            height as int,
                            width as int,
                            tile,
                            side as int,
                            y2,
                            x2,
                        ) == Some(d as int) ==> y2 == y && x2 == x,
                    self.same_frame(&before),
                    self.canvas == before.canvas,
                    self.step == before.step,
                    self.row == before.row,
                    self.column == before.column,
                    v_before == before.v_acc@,
                    w_before == before.w_acc@,
                    blended(
                        v_before,
                        self.v_acc@,
                        channels as int,
                        height as int,
                        width as int,
                        tile,
                        side as int,
                        win@,
                        v@,
                        *blend,
                        d as int,
                        c as int,
                    ),
                    weighed(
                        w_before,
                        self.w_acc@,
                        height as int,
                        width as int,
                        tile,
                        side as int,
                        win@,
                        *weigh,
                        d as int,
                    ),
                    forall|a: T, w: T, p: T, q: T| call_requires(*blend, (a, w, p, q)),
                    forall|a: T, w: T| call_requires(*weigh, (a, w)),
                decreases channels - c,
            {
                proof {
                    lemma_place(
                        channels as int,
                        height as int,
                        width as int,
                        c as int,
                        y as int,
                        x as int,
                    );
                    lemma_chw_bound(2 * channels as int, plane as int, c as int, d as int);
                    lemma_chw_bound(2 * channels as int, plane as int, channels + c, d as int);
                    assert(self.v_acc@.len() == self.v_acc.len());
                    assert(v.len() == v@.len());
                    assert(channels * height <= channels * height * width) by (nonlinear_arith)
                        requires
                            0 < width,
                            0 <= channels * height,
                    ;
                    assert(0 <= c * plane && 0 <= channels * plane && (channels + c) * plane
                        == channels * plane + c * plane) by (nonlinear_arith)
                        requires
                            0 <= c,
                            0 <= channels,
                            0 <= plane,
                    ;
                }
                let at: usize = (c * height + y) * width + x;
                let given = v[c * plane + d];
                let null = v[channels * plane + c * plane + d];
                let ghost prior = self.v_acc@;
                let sum = blend(self.v_acc[at], w, given, null);
                self.v_acc.set(at, sum);
                proof {
                    assert(at == place(height as int, width as int, c as int, y as int, x as int));
                    assert(prior[at as int] == v_before[at as int]);
                    assert(blended(
                        v_before,
                        self.v_acc@,
                        channels as int,
                        height as int,
                        width as int,
                        tile,
                        side as int,
                        win@,
                        v@,
                        *blend,
                        d as int,
                        c + 1,
                    )) by {
                        assert forall|c2: int, y2: int, x2: int|
                            #![trigger place(height as int, width as int, c2, y2, x2)]
                            0 <= c2 < channels && 0 <= y2 < height && 0 <= x2 < width && !(c2 == c
                                && y2 == y && x2 == x) implies self.v_acc@[place(
                            height as int,
                            width as int,
                            c2,
                            y2,
                            x2,
                        )] == prior[place(height as int, width as int, c2, y2, x2)] by {
                            lemma_place(
                                channels as int,
                                height as int,
                                width as int,
                                c2,
                                y2,
                                x2,
                            );
                            if place(height as int, width as int, c2, y2, x2) == at {
                                lemma_place_distinct(
                                    height as int,
                                    width as int,
                                    c2,
                                    y2,
                                    x2,
                                    c as int,
                                    y as int,
                                    x as int,
                                );
                            }
                        }
                    }
                }
                c = c + 1;
            }
            proof {
                lemma_place(1, height as int, width as int, 0, y as int, x as int);
                assert(self.w_acc@.len() == self.w_acc.len());
                assert(1 * height as int * width == height * width);
            }
            let at: usize = y * width + x;
            let ghost prior = self.w_acc@;
            let sum = weigh(self.w_acc[at], w);
            self.w_acc.set(at, sum);
            proof {
                assert(at == place(height as int, width as int, 0, y as int, x as int));
                assert(prior[at as int] == w_before[at as int]);
                assert forall|y2: int, x2: int|
                    #![trigger place(height as int, width as int, 0, y2, x2)]
                    0 <= y2 < height && 0 <= x2 < width && !(y2 == y && x2
                        == x) implies self.w_acc@[place(height as int, width as int, 0, y2, x2)]
                    == prior[place(height as int, width as int, 0, y2, x2)] by {
                    lemma_place(1, height as int, width as int, 0, y2, x2);
                    if place(height as int, width as int, 0, y2, x2) == at {
                        lemma_place_distinct(
                            height as int,
                            width as int,
                            0,
                            y2,
                            x2,
                            0,
                            y as int,
                            x as int,
                        );
                    }
                }
            }
            d = d + 1;
        }
        let columns = self.xs.len();
        if self.column + 1 < columns {
            self.column = self.column + 1;
        } else {
            assert(self.ys.len() == self.ys@.len());
            self.column = 0;
            self.row = self.row + 1;
            assert((before.row + 1) * columns == before.row * columns + columns)
                by (nonlinear_arith);
        }
    }

    /// Ends a step whose tiles are all done: `update` makes a value's next
    /// value out of the value, the sum and the sum of weights at its texel.
    pub fn advance<U: Fn(T, T, T) -> T>(&mut self, update: &U, zero: T)
        requires
            old(self).wf(),
            old(self).row == old(self).ys@.len(),
            old(self).step < old(self).steps,
            forall|x: T, v: T, w: T| call_requires(*update, (x, v, w)),
        ensures
            final(self).wf(),
            advanced(*old(self), *final(self), *update, zero),
    {
        let total = self.canvas.data.len();
        let plane = self.w_acc.len();
        let ghost before = *self;
        let mut k: usize = 0;
        while k < total
            invariant
                before.wf(),
                self.same_frame(&before),
                self.step == before.step,
                self.xs == before.xs,
                self.ys == before.ys,
                self.v_acc == before.v_acc,
                self.w_acc == before.w_acc,
                self.canvas.data@.len() == total,
                total == before.canvas.data@.len(),
                plane == before.canvas.height * before.canvas.width,
                plane == self.w_acc@.len(),
                total == self.v_acc@.len(),
                k <= total,
                forall|x: T, v: T, w: T| call_requires(*update, (x, v, w)),
                forall|j: int|
                    0 <= j < k ==> call_ensures(
                        *update,
                        (
                            before.canvas.data@[j],
                            before.v_acc@[j],
                            before.w_acc@[j % plane as int],
                        ),
                        #[trigger] self.canvas.data@[j],
                    ),
                forall|j: int|
                    k <= j < total ==> #[trigger] self.canvas.data@[j] == before.canvas.data@[j],
            decreases total - k,
        {
            proof {
                assert(0 < plane) by (nonlinear_arith)
                    requires
                        0 < before.canvas.height,
                        0 < before.canvas.width,
                        plane == before.canvas.height * before.canvas.width,
                ;
            }
            let x = self.canvas.data[k];
            let next = update(x, self.v_acc[k], self.w_acc[k % plane]);
            self.canvas.data.set(k, next);
            k = k + 1;
        }
        proof {
            let h = before.canvas.height as int;
            let w = before.canvas.width as int;
            assert forall|c: int, y: int, x: int|
                0 <= c < before.canvas.channels && 0 <= y < h && 0 <= x < w implies call_ensures(
                *update,
                (
                    before.canvas.at(c, y, x),
                    before.v_acc@[place(h, w, c, y, x)],
                    before.w_acc@[place(h, w, 0, y, x)],
                ),
                #[trigger] self.canvas.at(c, y, x),
            ) by {
                lemma_place(before.canvas.channels as int, h, w, c, y, x);
                lemma_place(1, h, w, 0, y, x);
                let j = place(h, w, c, y, x);
                assert(1 * h * w == h * w);
                assert(j == c * plane + (y * w + x)) by (nonlinear_arith)
                    requires
                        j == (c * h + y) * w + x,
                        plane == h * w,
                ;
                assert(place(h, w, 0, y, x) == y * w + x);
                vstd::arithmetic::div_mod::lemma_fundamental_div_mod_converse(
                    j,
                    plane as int,
                    c,
                    y * w + x,
                );
                assert(self.canvas.at(c, y, x) == self.canvas.data@[j]);
            }
        }
        self.v_acc = filled(total, zero);
        self.w_acc = filled(plane, zero);
        self.row = 0;
        self.column = 0;
        self.step = self.step + 1;
    }
}

/// Appends the values of a tile.
fn gather<T: Copy>(canvas: &Canvas<T>, tile: Tile, side: usize, out: &mut Vec<T>)
    requires
        canvas.wf(),
        tile.x < canvas.width,
        tile.y < canvas.height,
        0 < side <= canvas.width,
        side <= canvas.height,
    ensures
        final(out)@ == old(out)@ + tile_values(*canvas, tile, side as int),
{
    let ghost start = out@;
    let ghost all = tile_values(*canvas, tile, side as int);
    let mut c: usize = 0;
    while c < canvas.channels
        invariant
            canvas.wf(),
            tile.x < canvas.width,
            tile.y < canvas.height,
            0 < side <= canvas.width,
            side <= canvas.height,
            c <= canvas.channels,
            all == tile_values(*canvas, tile, side as int),
            out@ == start + all.take(c * side * side),
            0 <= c * side * side <= all.len(),
        decreases canvas.channels - c,
    {
        let mut dy: usize = 0;
        while dy < side
            invariant
                canvas.wf(),
                tile.x < canvas.width,
                tile.y < canvas.height,
                0 < side <= canvas.width,
                side <= canvas.height,
                c < canvas.channels,
                dy <= side,
                all == tile_values(*canvas, tile, side as int),
                out@ == start + all.take((c * side + dy) * side),
                0 <= (c * side + dy) * side <= all.len(),
            decreases side - dy,
        {
            let y = around(tile.y, dy, canvas.height);
            let mut dx: usize = 0;
            assert((c * side + dy) * side + 0 == (c * side + dy) * side);
            while dx < side
                invariant
                    canvas.wf(),
                    tile.x < canvas.width,
                    tile.y < canvas.height,
                    0 < side <= canvas.width,
                    side <= canvas.height,
                    c < canvas.channels,
                    dy < side,
                    dx <= side,
                    y == (tile.y + dy) % canvas.height as int,
                    y < canvas.height,
                    all == tile_values(*canvas, tile, side as int),
                    out@ == start + all.take((c * side + dy) * side + dx),
                    0 <= (c * side + dy) * side + dx <= all.len(),
                decreases side - dx,
            {
                let x = around(tile.x, dx, canvas.width);
                proof {
                    lemma_place(
                        canvas.channels as int,
                        canvas.height as int,
                        canvas.width as int,
                        c as int,
                        y as int,
                        x as int,
                    );
                    assert(canvas.data@.len() == canvas.data.len());
                    assert(canvas.channels * canvas.height <= canvas.channels * canvas.height
                        * canvas.width) by (nonlinear_arith)
                        requires
                            0 < canvas.width,
                            0 <= canvas.channels * canvas.height,
                    ;
                }
                let value = canvas.data[(c * canvas.height + y) * canvas.width + x];
                proof {
                    let k = (c * side + dy) * side + dx;
                    lemma_chw_bound(canvas.channels as int, side as int, c as int, dy as int);
                    lemma_chw_bound(canvas.channels * side, side as int, c * side + dy, dx as int);
                    vstd::arithmetic::div_mod::lemma_fundamental_div_mod_converse(
                        k,
                        side as int,
                        c * side + dy,
                        dx as int,
                    );
                    vstd::arithmetic::div_mod::lemma_fundamental_div_mod_converse(
                        c * side + dy,
                        side as int,
                        c as int,
                        dy as int,
                    );
                    assert(all[k] == value);
                    assert(all.take(k + 1) =~= all.take(k).push(value));
                }
                out.push(value);
                dx = dx + 1;
            }
            assert((c * side + dy) * side + side == (c * side + (dy + 1)) * side)
                by (nonlinear_arith);
            dy = dy + 1;
        }
        assert((c * side + side) * side == (c + 1) * side * side) by (nonlinear_arith);
        c = c + 1;
    }
    assert(all.take(all.len() as int) =~= all);
}

/// The classes of the two samples: the target class, then the null class.
pub fn class_pair(class: u32) -> (classes: Vec<u32>)
    ensures
        classes@ == seq![class, NULL_CLASS],
        classes@ == seq![class, 10u32],
{
    let classes = vec![class, NULL_CLASS];
    assert(classes@ =~= seq![class, NULL_CLASS]);
    classes
}

/// A canvas can be generated: the network takes two samples, there is a
/// conditioning canvas of the right shape where it takes conditioning and none
/// where it takes none, and the canvas can be covered with tiles.
pub open spec fn generable<T>(
    cfg: UNetConfig,
    width: int,
    height: int,
    cond: Option<&Canvas<T>>,
    overlap: int,
) -> bool {
    let side = cfg.resolution as int;
    &&& cfg.batch == 2
    &&& match cond {
        Some(c) => c.channels == cfg.cond_channels && c.width == width && c.height == height,
        None => cfg.cond_channels == 0,
    }
    &&& 0 < side <= width
    &&& side <= height
    &&& side < width || side < height ==> overlap < side
}

/// Whether a canvas can be generated.
pub fn can_generate<T>(
    cfg: &UNetConfig,
    width: usize,
    height: usize,
    cond: Option<&Canvas<T>>,
    overlap: usize,
) -> (r: bool)
    ensures
        r == generable(*cfg, width as int, height as int, cond, overlap as int),
{
    let side = cfg.resolution as usize;
    let cond_channels = cfg.cond_channels as usize;
    let suits = match cond {
        Some(c) => c.channels == cond_channels && c.width == width && c.height == height,
        None => cond_channels == 0,
    };
    cfg.batch == 2 && suits && 0 < side && side <= width && side <= height && (overlap < side || (
    side == width && side == height))
}

/// What the model is shown of a patch on its own: its values and its
/// conditioning, the same in both samples.
pub fn pair_input<T: Copy>(x: &[T], cond: &[T]) -> (input: Vec<T>)
    ensures
        input@ == (x@ + cond@) + (x@ + cond@),
{
    let mut input: Vec<T> = Vec::new();
    append(&mut input, x);
    append(&mut input, cond);
    append(&mut input, x);
    append(&mut input, cond);
    assert(input@ =~= (x@ + cond@) + (x@ + cond@));
    input
}

/// Appends some values.
fn append<T: Copy>(out: &mut Vec<T>, values: &[T])
    ensures
        final(out)@ == old(out)@ + values@,
{
    let ghost start = out@;
    let mut i: usize = 0;
    assert(out@ =~= start + values@.take(0));
    while i < values.len()
        invariant
            i <= values@.len(),
            out@ == start + values@.take(i as int),
        decreases values@.len() - i,
    {
        out.push(values[i]);
        assert(out@ =~= start + values@.take(i + 1));
        i = i + 1;
    }
    assert(values@.take(values@.len() as int) =~= values@);
}

/// What the two samples of an answer say together: `mix` makes each value out
/// of those of the target class and of the null class.
pub fn guide<T: Copy, G: Fn(T, T) -> T>(v: &[T], n: usize, mix: &G) -> (r: Vec<T>)
    requires
        v@.len() == 2 * n,
        forall|a: T, b: T| call_requires(*mix, (a, b)),
    ensures
        r@.len() == n,
        forall|i: int|
            0 <= i < n ==> call_ensures(*mix, (v@[i], v@[n + i]), #[trigger] r@[i]),
{
    let mut r: Vec<T> = Vec::new();
    let mut i: usize = 0;
    while i < n
        invariant
            i <= n,
            v@.len() == 2 * n,
            r@.len() == i,
            forall|a: T, b: T| call_requires(*mix, (a, b)),
            forall|j: int|
                0 <= j < i ==> call_ensures(*mix, (v@[j], v@[n + j]), #[trigger] r@[j]),
        decreases n - i,
    {
        assert(v.len() == v@.len());
        let value = mix(v[i], v[n + i]);
        r.push(value);
        i = i + 1;
    }
    r
}

/// A coarse patch enlarged by POOL is what a training pair shows next to the
/// full patch of the same texels.
pub proof fn law_enlarged_matches_pair<T, E: Fn(i32, i32) -> T>(
    w: World,
    crop: Crop,
    size: int,
    coarse: Canvas<T>,
    enlarged: Canvas<T>,
    analog: E,
)
    requires
        0 <= size,
        size % (POOL as int) == 0,
        coarse.width == size / (POOL as int),
        coarse.height == size / (POOL as int),
        coarse.channels == COARSE_CHANNELS,
        packed(
            coarse.data@,
            COARSE_CHANNELS as int,
            coarse.height * coarse.width,
            coarse_cells(w, crop, size / (POOL as int)),
            analog,
            coarse.height * coarse.width,
        ),
        enlarged.wf(),
        enlarged.width == size,
        enlarged.height == size,
        enlarged.channels == COARSE_CHANNELS,
        forall|c: int, y: int, x: int|
            0 <= c < COARSE_CHANNELS && 0 <= y < size && 0 <= x < size
                ==> #[trigger] enlarged.at(c, y, x) == coarse.at(
                c,
                y / (POOL as int),
                x / (POOL as int),
            ),
    ensures
        packed(
            enlarged.data@,
            COARSE_CHANNELS as int,
            size * size,
            |d: int, c: int| pair_cells(w, crop, size)(d, FULL_CHANNELS + c),
            analog,
            size * size,
        ),
{
    let cells = |d: int, c: int| pair_cells(w, crop, size)(d, FULL_CHANNELS + c);
    let half = size / 8;
    let plane = size * size;
    assert(COARSE_CHANNELS * size * size == COARSE_CHANNELS * plane) by (nonlinear_arith)
        requires
            plane == size * size,
    ;
    assert forall|c: int, d: int| 0 <= c < COARSE_CHANNELS && 0 <= d < plane implies call_ensures(
        analog,
        cells(d, c),
        #[trigger] chw(enlarged.data@, plane, c, d),
    ) by {
        lemma_square_place(size, d);
        let y = d / size;
        let x = d % size;
        assert(c * plane + d == place(size, size, c, y, x)) by (nonlinear_arith)
            requires
                plane == size * size,
                d == y * size + x,
                place(size, size, c, y, x) == (c * size + y) * size + x,
        ;
        assert(enlarged.at(c, y, x) == chw(enlarged.data@, plane, c, d));
        let e = covering(size, d);
        assert(0 <= y / 8 < half && 0 <= x / 8 < half);
        lemma_chw_bound(half, half, y / 8, x / 8);
        assert(place(half, half, c, y / 8, x / 8) == c * (half * half) + e) by (nonlinear_arith)
            requires
                e == (y / 8) * half + x / 8,
                place(half, half, c, y / 8, x / 8) == (c * half + y / 8) * half + x / 8,
        ;
        assert(coarse.at(c, y / 8, x / 8) == chw(coarse.data@, half * half, c, e));
    }
}

} // verus!
