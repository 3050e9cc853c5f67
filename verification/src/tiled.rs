//! Canvases whose axes both wrap, and the tiles that cover them.
//!
//! A model that only handles tiles of a fixed size predicts a canvas of any
//! size: the predictions of overlapping tiles are averaged under a window.

use crate::planes::{chw, filled, lemma_chw_bound, lemma_chw_distinct};
use vstd::prelude::*;
use vstd::slice::slice_subrange;

verus! {

/// An image of several channels, plane by plane. Both axes wrap.
pub struct Canvas<T> {
    pub width: usize,
    pub height: usize,
    pub channels: usize,
    pub data: Vec<T>,
}

impl<T> Canvas<T> {
    /// There is one value per channel and texel.
    pub open spec fn wf(&self) -> bool {
        self.data@.len() == self.channels * self.height * self.width
    }

    /// The value of channel `c` at row `y` and column `x`.
    pub open spec fn at(&self, c: int, y: int, x: int) -> T {
        self.data@[place(self.height as int, self.width as int, c, y, x)]
    }
}

/// Index of channel `c`, row `y` and column `x` in data laid out plane by plane.
pub open spec fn place(height: int, width: int, c: int, y: int, x: int) -> int {
    (c * height + y) * width + x
}

/// A place of a canvas lies within its data.
pub proof fn lemma_place(channels: int, height: int, width: int, c: int, y: int, x: int)
    requires
        0 <= c < channels,
        0 <= y < height,
        0 <= x < width,
    ensures
        0 <= c * height,
        0 <= c * height + y < channels * height,
        0 <= (c * height + y) * width,
        0 <= (c * height + y) * width + x < channels * height * width,
{
    lemma_chw_bound(channels, height, c, y);
    lemma_chw_bound(channels * height, width, c * height + y, x);
    assert(0 <= c * height) by (nonlinear_arith)
        requires
            0 <= c,
            0 <= height,
    ;
    assert(0 <= (c * height + y) * width) by (nonlinear_arith)
        requires
            0 <= c * height + y,
            0 <= width,
    ;
}

/// Different places of a canvas are at different indices.
pub proof fn lemma_place_distinct(
    height: int,
    width: int,
    c: int,
    y: int,
    x: int,
    c2: int,
    y2: int,
    x2: int,
)
    requires
        0 <= y < height,
        0 <= y2 < height,
        0 <= x < width,
        0 <= x2 < width,
        (c * height + y) * width + x == (c2 * height + y2) * width + x2,
    ensures
        c == c2,
        y == y2,
        x == x2,
{
    lemma_chw_distinct(width, c * height + y, x, c2 * height + y2, x2);
    lemma_chw_distinct(height, c, y, c2, y2);
}

/// Every index is that of a place.
pub proof fn lemma_unplace(channels: int, height: int, width: int, k: int) -> (p: (int, int, int))
    requires
        0 <= channels,
        0 <= height,
        0 <= width,
        0 <= k < channels * height * width,
    ensures
        0 <= p.0 < channels,
        0 <= p.1 < height,
        0 <= p.2 < width,
        place(height, width, p.0, p.1, p.2) == k,
{
    assert(0 <= channels * height) by (nonlinear_arith)
        requires
            0 <= channels,
            0 <= height,
    ;
    lemma_rows(channels * height, width, k);
    let row = k / width;
    lemma_rows(channels, height, row);
    vstd::arithmetic::div_mod::lemma_fundamental_div_mod(k, width);
    vstd::arithmetic::div_mod::lemma_fundamental_div_mod(row, height);
    assert(width * row == row * width && height * (row / height) == (row / height) * height)
        by (nonlinear_arith);
    (row / height, row % height, k % width)
}

impl<T: Copy> Canvas<T> {
    /// A canvas with the same value everywhere.
    pub fn new(channels: usize, width: usize, height: usize, value: T) -> (r: Canvas<T>)
        requires
            channels * width <= usize::MAX,
            channels * width * height <= usize::MAX,
        ensures
            r.wf(),
            r.channels == channels,
            r.width == width,
            r.height == height,
            forall|i: int| 0 <= i < r.data@.len() ==> #[trigger] r.data@[i] == value,
    {
        let total: usize = channels * width * height;
        assert(channels * width * height == channels * height * width) by (nonlinear_arith);
        let data = filled(total, value);
        Canvas { width, height, channels, data }
    }

    /// The plane of channel `c`.
    pub fn plane(&self, c: usize) -> (p: &[T])
        requires
            self.wf(),
            c < self.channels || (self.height * self.width == 0 && c < usize::MAX),
        ensures
            p@.len() == self.height * self.width,
            p@ == self.data@.subrange(
                c * (self.height * self.width),
                (c + 1) * (self.height * self.width),
            ),
            forall|y: int, x: int|
                0 <= y < self.height && 0 <= x < self.width ==> #[trigger] self.at(c as int, y, x)
                    == p@[y * self.width + x],
    {
        let ghost plane = self.height * self.width;
        proof {
            assert(self.data@.len() == self.data.len());
            assert(0 <= plane) by (nonlinear_arith)
                requires
                    plane == self.height * self.width,
            ;
            assert(self.channels * self.height * self.width == self.channels * plane)
                by (nonlinear_arith)
                requires
                    plane == self.height * self.width,
            ;
            assert(plane <= (c + 1) * plane && (c + 1) * plane <= self.channels * plane && c * plane
                + plane == (c + 1) * plane && 0 <= c * plane) by (nonlinear_arith)
                requires
                    0 <= c < self.channels || plane == 0,
                    0 <= c,
                    0 <= plane,
            ;
        }
        let size: usize = self.height * self.width;
        let p = slice_subrange(self.data.as_slice(), c * size, (c + 1) * size);
        proof {
            assert forall|y: int, x: int|
                0 <= y < self.height && 0 <= x < self.width implies #[trigger] self.at(
                c as int,
                y,
                x,
            ) == p@[y * self.width + x] by {
                lemma_chw_bound(self.height as int, self.width as int, y, x);
                assert((c * self.height + y) * self.width + x == c * plane + (y * self.width + x))
                    by (nonlinear_arith)
                    requires
                        plane == self.height * self.width,
                ;
            }
        }
        p
    }

    /// Repeats every texel `factor` times along each axis.
    pub fn upsample(&self, factor: usize) -> (r: Canvas<T>)
        requires
            self.wf(),
            self.width * factor <= usize::MAX,
            self.height * factor <= usize::MAX,
            self.channels * (self.width * factor) <= usize::MAX,
            self.channels * (self.width * factor) * (self.height * factor) <= usize::MAX,
        ensures
            r.wf(),
            r.channels == self.channels,
            r.width == self.width * factor,
            r.height == self.height * factor,
            forall|c: int, y: int, x: int|
                0 <= c < r.channels && 0 <= y < r.height && 0 <= x < r.width ==> #[trigger] r.at(
                    c,
                    y,
                    x,
                ) == self.at(c, y / factor as int, x / factor as int),
    {
        let width: usize = self.width * factor;
        let height: usize = self.height * factor;
        if width == 0 {
            return Canvas { width, height, channels: self.channels, data: Vec::new() };
        }
        proof {
            let (c, h, w) = (self.channels as int, height as int, width as int);
            assert(c * w * h == c * h * w && 0 <= c * h <= c * h * w) by (nonlinear_arith)
                requires
                    0 <= c,
                    0 <= h,
                    0 < w,
            ;
        }
        let rows: usize = self.channels * height;
        let mut data: Vec<T> = Vec::new();
        let mut row: usize = 0;
        while row < rows
            invariant
                self.wf(),
                width == self.width * factor,
                height == self.height * factor,
                rows == self.channels * height,
                rows * width <= usize::MAX,
                row <= rows,
                data@.len() == row * width,
                forall|r: int, x: int|
                    0 <= r < row && 0 <= x < width ==> #[trigger] chw(
                        data@,
                        width as int,
                        r,
                        x,
                    ) == self.at(
                        r / height as int,
                        (r % height as int) / factor as int,
                        x / factor as int,
                    ),
            decreases rows - row,
        {
            proof {
                lemma_rows(self.channels as int, height as int, row as int);
            }
            let c: usize = row / height;
            let y: usize = row % height;
            let mut x: usize = 0;
            while x < width
                invariant
                    self.wf(),
                    0 < height,
                    c < self.channels,
                    y < height,
                    c == row as int / height as int,
                    y == row as int % height as int,
                    width == self.width * factor,
                    height == self.height * factor,
                    rows * width <= usize::MAX,
                    row < rows,
                    x <= width,
                    data@.len() == row * width + x,
                    forall|r: int, z: int|
                        0 <= r < row && 0 <= z < width ==> #[trigger] chw(
                            data@,
                            width as int,
                            r,
                            z,
                        ) == self.at(
                            r / height as int,
                            (r % height as int) / factor as int,
                            z / factor as int,
                        ),
                    forall|z: int|
                        0 <= z < x ==> #[trigger] chw(
                            data@,
                            width as int,
                            row as int,
                            z,
                        ) == self.at(c as int, y as int / factor as int, z / factor as int),
                decreases width - x,
            {
                proof {
                    lemma_shrink(self.height as int, factor as int, y as int);
                    lemma_shrink(self.width as int, factor as int, x as int);
                    lemma_place(
                        self.channels as int,
                        self.height as int,
                        self.width as int,
                        c as int,
                        y as int / factor as int,
                        x as int / factor as int,
                    );
                    assert(self.data@.len() == self.data.len());
                    lemma_chw_bound(
                        self.channels as int,
                        self.height as int,
                        c as int,
                        y as int / factor as int,
                    );
                    assert(self.channels * self.height <= self.channels * self.height * self.width)
                        by (nonlinear_arith)
                        requires
                            0 < self.width,
                            0 <= self.channels * self.height,
                    ;
                }
                let v = self.data[(c * self.height + y / factor) * self.width + x / factor];
                let ghost before = data@;
                data.push(v);
                proof {
                    assert forall|r: int, z: int|
                        0 <= r < row && 0 <= z < width implies #[trigger] chw(
                        data@,
                        width as int,
                        r,
                        z,
                    ) == chw(before, width as int, r, z) by {
                        lemma_chw_bound(row as int, width as int, r, z);
                    }
                    assert forall|z: int| 0 <= z < x implies #[trigger] chw(
                        data@,
                        width as int,
                        row as int,
                        z,
                    ) == chw(before, width as int, row as int, z) by {
                        assert(0 <= row * width) by (nonlinear_arith)
                            requires
                                0 <= row,
                                0 <= width,
                        ;
                    }
                }
                x = x + 1;
            }
            assert((row + 1) * width == row * width + width) by (nonlinear_arith);
            row = row + 1;
        }
        let r = Canvas { width, height, channels: self.channels, data };
        proof {
            assert forall|c: int, y: int, x: int|
                0 <= c < r.channels && 0 <= y < r.height && 0 <= x
                    < r.width implies #[trigger] r.at(c, y, x) == self.at(
                    c,
                    y / factor as int,
                    x / factor as int,
                ) by {
                lemma_chw_bound(r.channels as int, height as int, c, y);
                vstd::arithmetic::div_mod::lemma_fundamental_div_mod_converse(
                    c * height + y,
                    height as int,
                    c,
                    y,
                );
                assert(r.at(c, y, x) == chw(
                    r.data@,
                    width as int,
                    c * height + y,
                    x,
                ));
            }
        }
        r
    }
}

/// The channel and row of a row number.
proof fn lemma_rows(channels: int, height: int, row: int)
    requires
        0 <= height,
        0 <= channels,
        0 <= row < channels * height,
    ensures
        0 < height,
        0 <= row / height < channels,
        0 <= row % height < height,
{
    assert(0 < height) by (nonlinear_arith)
        requires
            0 <= height,
            0 < channels * height,
    ;
    vstd::arithmetic::div_mod::lemma_fundamental_div_mod(row, height);
    vstd::arithmetic::div_mod::lemma_mod_bound(row, height);
    assert(0 <= row / height < channels) by (nonlinear_arith)
        requires
            0 < height,
            0 <= row < channels * height,
            row == height * (row / height) + row % height,
            0 <= row % height < height,
    ;
}

/// A place of an enlarged axis comes from a place of the axis.
proof fn lemma_shrink(extent: int, factor: int, i: int)
    requires
        0 <= extent,
        0 <= factor,
        0 <= i < extent * factor,
    ensures
        0 < factor,
        0 < extent,
        0 <= i / factor < extent,
{
    lemma_rows(extent, factor, i);
}

/// Start of each tile along an axis. The tiles of an axis longer than a tile
/// follow each other with the given overlap; the last one may wrap.
pub open spec fn starts(extent: int, tile: int, overlap: int) -> Seq<int> {
    if extent <= tile {
        seq![0int]
    } else {
        Seq::new(
            ((extent + (tile - overlap) - 1) / (tile - overlap)) as nat,
            |i: int| i * (tile - overlap),
        )
    }
}

/// What a list of positions holds, as integers.
pub open spec fn positions(v: Seq<usize>) -> Seq<int> {
    Seq::new(v.len(), |i: int| v[i] as int)
}

/// How far `p` lies beyond `start` on a circle.
pub open spec fn offset(extent: int, start: int, p: int) -> int {
    (p - start) % extent
}

/// The number of tiles along an axis is the least that reaches its end.
proof fn lemma_tile_count(extent: int, stride: int)
    requires
        0 < stride,
        0 < extent,
    ensures
        ((extent + stride - 1) / stride) * stride >= extent,
        ((extent + stride - 1) / stride - 1) * stride < extent,
        (extent + stride - 1) / stride >= 1,
        (extent + stride - 1) / stride == extent / stride + (if extent % stride == 0 {
            0int
        } else {
            1
        }),
{
    let n = (extent + stride - 1) / stride;
    vstd::arithmetic::div_mod::lemma_fundamental_div_mod(extent + stride - 1, stride);
    vstd::arithmetic::div_mod::lemma_mod_bound(extent + stride - 1, stride);
    assert(stride * n == n * stride) by (nonlinear_arith);
    assert((n - 1) * stride == n * stride - stride) by (nonlinear_arith);
    assert(n >= 1) by (nonlinear_arith)
        requires
            n * stride >= extent,
            0 < extent,
            0 < stride,
    ;
    let q = extent / stride;
    let r = extent % stride;
    vstd::arithmetic::div_mod::lemma_fundamental_div_mod(extent, stride);
    vstd::arithmetic::div_mod::lemma_mod_bound(extent, stride);
    if r == 0 {
        vstd::arithmetic::div_mod::lemma_fundamental_div_mod_converse(
            extent + stride - 1,
            stride,
            q,
            stride - 1,
        );
    } else {
        assert(stride * (q + 1) == stride * q + stride) by (nonlinear_arith);
        vstd::arithmetic::div_mod::lemma_fundamental_div_mod_converse(
            extent + stride - 1,
            stride,
            q + 1,
            r - 1,
        );
    }
}

/// Every tile starts within the axis.
pub proof fn lemma_starts_bound(extent: int, tile: int, overlap: int, i: int)
    requires
        0 < tile <= extent,
        tile < extent ==> 0 <= overlap < tile,
        0 <= i < starts(extent, tile, overlap).len(),
    ensures
        0 <= starts(extent, tile, overlap)[i] < extent,
{
    if extent > tile {
        let stride = tile - overlap;
        lemma_tile_count(extent, stride);
        let n = (extent + stride - 1) / stride;
        assert(0 <= i * stride <= (n - 1) * stride) by (nonlinear_arith)
            requires
                0 <= i <= n - 1,
                0 < stride,
        ;
    }
}

/// The starts of the tiles that cover an axis of the given extent.
pub fn tile_starts(extent: usize, tile: usize, overlap: usize) -> (r: Vec<usize>)
    requires
        tile <= extent,
        tile < extent ==> overlap < tile,
    ensures
        positions(r@) == starts(extent as int, tile as int, overlap as int),
        forall|i: int| 0 < extent && 0 <= i < r@.len() ==> #[trigger] r@[i] < extent,
        tile == extent ==> r@ == seq![0usize],
        tile < extent ==> forall|i: int|
            0 <= i < r@.len() ==> #[trigger] r@[i] == i * (tile - overlap),
        tile < extent ==> r@.len() * (tile - overlap) >= extent,
{
    let mut r: Vec<usize> = Vec::new();
    if extent <= tile {
        r.push(0);
        assert(positions(r@) =~= starts(extent as int, tile as int, overlap as int));
        return r;
    }
    let stride: usize = tile - overlap;
    assert(tile < extent);
    proof {
        lemma_tile_count(extent as int, stride as int);
        let count = (extent + stride - 1) / stride as int;
        assert(count <= extent) by (nonlinear_arith)
            requires
                (count - 1) * stride < extent,
                0 < stride,
                0 < extent,
        ;
    }
    let mut n: usize = extent / stride;
    if extent % stride != 0 {
        n = n + 1;
    }
    let mut i: usize = 0;
    while i < n
        invariant
            0 < stride,
            stride == tile - overlap,
            tile < extent,
            overlap < tile,
            i <= n,
            n == starts(extent as int, tile as int, overlap as int).len(),
            r@.len() == i,
            forall|j: int| 0 <= j < i ==> #[trigger] r@[j] == j * stride,
            forall|j: int| 0 <= j < i ==> #[trigger] r@[j] < extent,
        decreases n - i,
    {
        proof {
            lemma_starts_bound(extent as int, tile as int, overlap as int, i as int);
            vstd::arithmetic::div_mod::lemma_small_mod((i * stride) as nat, extent as nat);
        }
        r.push(i * stride % extent);
        i = i + 1;
    }
    assert(positions(r@) =~= starts(extent as int, tile as int, overlap as int));
    r
}

/// The weights of a tile's entries: at each, the product of the weights of its
/// row and of its column.
pub fn window<T: Copy, M: Fn(T, T) -> T>(profile: &[T], product: &M) -> (w: Vec<T>)
    requires
        forall|a: T, b: T| call_requires(*product, (a, b)),
    ensures
        w@.len() == profile@.len() * profile@.len(),
        forall|y: int, x: int|
            0 <= y < profile@.len() && 0 <= x < profile@.len() ==> call_ensures(
                *product,
                (profile@[y], profile@[x]),
                #[trigger] chw(w@, profile@.len() as int, y, x),
            ),
{
    let side = profile.len();
    let mut w: Vec<T> = Vec::new();
    let mut y: usize = 0;
    while y < side
        invariant
            y <= side,
            side == profile@.len(),
            w@.len() == y * side,
            forall|a: T, b: T| call_requires(*product, (a, b)),
            forall|r: int, x: int|
                0 <= r < y && 0 <= x < side ==> call_ensures(
                    *product,
                    (profile@[r], profile@[x]),
                    #[trigger] chw(w@, side as int, r, x),
                ),
        decreases side - y,
    {
        let mut x: usize = 0;
        while x < side
            invariant
                y < side,
                x <= side,
                side == profile@.len(),
                w@.len() == y * side + x,
                forall|a: T, b: T| call_requires(*product, (a, b)),
                forall|r: int, z: int|
                    0 <= z < side && (0 <= r < y || r == y && z < x) ==> call_ensures(
                        *product,
                        (profile@[r], profile@[z]),
                        #[trigger] chw(w@, side as int, r, z),
                    ),
            decreases side - x,
        {
            let value = product(profile[y], profile[x]);
            let ghost before = w@;
            w.push(value);
            proof {
                assert forall|r: int, z: int|
                    0 <= z < side && (0 <= r < y || r == y && z < x) implies #[trigger] chw(
                    w@,
                    side as int,
                    r,
                    z,
                ) == chw(before, side as int, r, z) by {
                    if r < y {
                        lemma_chw_bound(y as int, side as int, r, z);
                    } else {
                        assert(0 <= y * side) by (nonlinear_arith)
                            requires
                                0 <= y,
                                0 <= side,
                        ;
                    }
                }
            }
            x = x + 1;
        }
        assert((y + 1) * side == y * side + side) by (nonlinear_arith);
        y = y + 1;
    }
    w
}

/// Every position of an axis lies in some tile.
pub proof fn law_tiles_cover(extent: int, tile: int, overlap: int, p: int) -> (i: int)
    requires
        0 < tile <= extent,
        tile < extent ==> 0 <= overlap < tile,
        0 <= p < extent,
    ensures
        0 <= i < starts(extent, tile, overlap).len(),
        0 <= offset(extent, starts(extent, tile, overlap)[i], p) < tile,
{
    if extent <= tile {
        vstd::arithmetic::div_mod::lemma_small_mod(p as nat, extent as nat);
        0
    } else {
        let stride = tile - overlap;
        let i = p / stride;
        let n = (extent + stride - 1) / stride;
        lemma_tile_count(extent, stride);
        vstd::arithmetic::div_mod::lemma_fundamental_div_mod(p, stride);
        vstd::arithmetic::div_mod::lemma_mod_bound(p, stride);
        assert(stride * i == i * stride) by (nonlinear_arith);
        assert(0 <= i < n) by (nonlinear_arith)
            requires
                i * stride <= p,
                0 <= p < i * stride + stride,
                p < n * stride,
                0 < stride,
        ;
        vstd::arithmetic::div_mod::lemma_small_mod((p - i * stride) as nat, extent as nat);
        i
    }
}

/// Neighbouring tiles share `overlap` positions.
pub proof fn law_tiles_overlap(extent: int, tile: int, overlap: int, i: int)
    requires
        0 <= overlap < tile <= extent,
        0 <= i,
        i + 1 < starts(extent, tile, overlap).len(),
    ensures
        starts(extent, tile, overlap)[i] + tile - starts(extent, tile, overlap)[i + 1] == overlap,
{
    let stride = tile - overlap;
    assert((i + 1) * stride == i * stride + stride) by (nonlinear_arith);
}

} // verus!
