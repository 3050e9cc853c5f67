//! Whole generations: what holds of every run of a [`Generation`] from its
//! start, whatever the model answers.

use crate::generate::{
    accepted, advanced, entry_of, is_fresh, law_tiles_cover_canvas, lemma_entry_bound, Generation,
};
use crate::planes::{chw, lemma_chw_bound, lemma_chw_distinct};
use crate::tiled::{lemma_place, lemma_unplace, place};
use vstd::prelude::*;

verus! {

/// How a generation goes from one state to the next: where a tile is left, the
/// model's answer `v` for it is taken, and where none is left, the step ends.
pub open spec fn moved<T, B: Fn(T, T, T, T) -> T, W: Fn(T, T) -> T, U: Fn(T, T, T) -> T>(
    before: Generation<T>,
    after: Generation<T>,
    v: Seq<T>,
    win: Seq<T>,
    blend: B,
    weigh: W,
    updates: Seq<U>,
    zero: T,
) -> bool {
    &&& before.wf()
    &&& after.wf()
    &&& if before.row < before.ys@.len() {
        accepted(before, after, v, win, blend, weigh)
    } else {
        before.step < before.steps && advanced(before, after, updates[before.step as int], zero)
    }
}

/// The states of a generation from its start on, with the model's answer `v[i]`
/// in state `s[i]` where one is taken. Step number `n` ends by `updates[n]`.
pub open spec fn is_run<T, B: Fn(T, T, T, T) -> T, W: Fn(T, T) -> T, U: Fn(T, T, T) -> T>(
    s: Seq<Generation<T>>,
    v: Seq<Seq<T>>,
    win: Seq<T>,
    blend: B,
    weigh: W,
    updates: Seq<U>,
    zero: T,
) -> bool {
    &&& s.len() > 0
    &&& is_fresh(s[0], zero)
    &&& forall|i: int|
        0 <= i && i + 1 < s.len() ==> #[trigger] moved(
            s[i],
            s[i + 1],
            v[i],
            win,
            blend,
            weigh,
            updates,
            zero,
        )
}

/// How many of the first `n` states the model is asked in.
pub open spec fn model_calls<T>(s: Seq<Generation<T>>, n: int) -> int
    decreases n,
{
    if n <= 0 {
        0
    } else {
        model_calls(s, n - 1) + (if s[n - 1].row < s[n - 1].ys@.len() {
            1int
        } else {
            0
        })
    }
}

/// Every step of a generation asks the model once per tile, and the canvas
/// keeps its shape. A generation whose steps are all done has asked the model
/// `steps` times the number of tiles.
pub proof fn law_model_calls<
    T,
    B: Fn(T, T, T, T) -> T,
    W: Fn(T, T) -> T,
    U: Fn(T, T, T) -> T,
>(
    s: Seq<Generation<T>>,
    v: Seq<Seq<T>>,
    win: Seq<T>,
    blend: B,
    weigh: W,
    updates: Seq<U>,
    zero: T,
    i: int,
)
    requires
        is_run(s, v, win, blend, weigh, updates, zero),
        0 <= i < s.len(),
    ensures
        s[i].wf(),
        s[i].same_frame(&s[0]),
        model_calls(s, i) == s[i].step * s[0].tiles() + s[i].tiles_done(),
        s[i].step == s[0].steps && s[i].row == 0 && s[i].column == 0 ==> model_calls(s, i)
            == s[0].steps * s[0].tiles(),
    decreases i,
{
    let n = s[0].tiles();
    if i > 0 {
        law_model_calls(s, v, win, blend, weigh, updates, zero, i - 1);
        let before = s[i - 1];
        let after = s[i];
        assert(moved(s[i - 1], s[i - 1 + 1], v[i - 1], win, blend, weigh, updates, zero));
        if before.row == before.ys@.len() {
            assert(before.tiles_done() == n);
            assert((before.step + 1) * n == before.step * n + n) by (nonlinear_arith);
            assert(after.tiles_done() == 0);
        }
    } else {
        assert(s[0].tiles_done() == 0);
        assert(0 * n == 0);
    }
}

/// `x` after the first `n` of some functions have been applied to it.
pub open spec fn stepped<T>(fs: Seq<spec_fn(T) -> T>, n: int, x: T) -> T
    decreases n,
{
    if n <= 0 {
        x
    } else {
        fs[n - 1](stepped(fs, n - 1, x))
    }
}

/// A model that answers nothing but zero leaves the sums at zero; weights are
/// `heavy`, and stay so when they are added up; and where nothing has been
/// added up, step number `n` makes `fs[n]` of a value, whatever heavy weight
/// its texel has.
pub open spec fn weights_cancel<
    T,
    B: Fn(T, T, T, T) -> T,
    W: Fn(T, T) -> T,
    U: Fn(T, T, T) -> T,
>(
    win: Seq<T>,
    blend: B,
    weigh: W,
    updates: Seq<U>,
    zero: T,
    heavy: spec_fn(T) -> bool,
    fs: Seq<spec_fn(T) -> T>,
) -> bool {
    &&& forall|w: T, r: T| #[trigger] call_ensures(blend, (zero, w, zero, zero), r) ==> r == zero
    &&& forall|k: int| 0 <= k < win.len() ==> heavy(#[trigger] win[k])
    &&& forall|a: T, w: T, r: T| #[trigger]
        call_ensures(weigh, (a, w), r) && (a == zero || heavy(a)) && heavy(w) ==> heavy(r)
    &&& forall|n: int, x: T, w: T, r: T| #[trigger]
        call_ensures(updates[n], (x, zero, w), r) && heavy(w) ==> r == fs[n](x)
}

/// What holds of every state under a model that answers zero.
spec fn undisturbed<T>(
    g: Generation<T>,
    first: Generation<T>,
    zero: T,
    heavy: spec_fn(T) -> bool,
    fs: Seq<spec_fn(T) -> T>,
) -> bool {
    let h = g.canvas.height as int;
    let w = g.canvas.width as int;
    &&& g.wf()
    &&& g.same_frame(&first)
    &&& forall|k: int| 0 <= k < g.v_acc@.len() ==> #[trigger] g.v_acc@[k] == zero
    &&& forall|y: int, x: int|
        #![trigger place(h, w, 0, y, x)]
        0 <= y < h && 0 <= x < w ==> g.w_acc@[place(h, w, 0, y, x)] == zero || heavy(
            g.w_acc@[place(h, w, 0, y, x)],
        )
    &&& forall|r: int, c: int, y: int, x: int|
        0 <= r && 0 <= c < g.xs@.len() && r * g.xs@.len() + c < g.tiles_done() && 0 <= y < h && 0
            <= x < w && #[trigger] entry_of(h, w, g.tile_of(r, c), g.side as int, y, x) is Some
            ==> heavy(g.w_acc@[place(h, w, 0, y, x)])
    &&& forall|c: int, y: int, x: int|
        0 <= c < g.canvas.channels && 0 <= y < h && 0 <= x < w ==> #[trigger] g.canvas.at(c, y, x)
            == stepped(fs, g.step as int, first.canvas.at(c, y, x))
}

/// Taking an answer of zeros disturbs nothing.
proof fn lemma_accept_undisturbed<
    T,
    B: Fn(T, T, T, T) -> T,
    W: Fn(T, T) -> T,
    U: Fn(T, T, T) -> T,
>(
    before: Generation<T>,
    after: Generation<T>,
    first: Generation<T>,
    v: Seq<T>,
    win: Seq<T>,
    blend: B,
    weigh: W,
    updates: Seq<U>,
    zero: T,
    heavy: spec_fn(T) -> bool,
    fs: Seq<spec_fn(T) -> T>,
)
    requires
        undisturbed(before, first, zero, heavy, fs),
        after.wf(),
        before.row < before.ys@.len(),
        accepted(before, after, v, win, blend, weigh),
        forall|k: int| 0 <= k < v.len() ==> #[trigger] v[k] == zero,
        weights_cancel(win, blend, weigh, updates, zero, heavy, fs),
    ensures
        undisturbed(after, first, zero, heavy, fs),
{
    let h = before.canvas.height as int;
    let w = before.canvas.width as int;
    let channels = before.canvas.channels as int;
    let side = before.side as int;
    let plane = side * side;
    let tile = before.next_tile();
    let columns = before.xs@.len() as int;
    assert forall|k: int| 0 <= k < after.v_acc@.len() implies #[trigger] after.v_acc@[k]
        == zero by {
        let (c, y, x) = lemma_unplace(channels, h, w, k);
        assert(k == place(h, w, c, y, x));
        assert(before.v_acc@[k] == zero);
        let entry = entry_of(h, w, tile, side, y, x);
        if entry is Some {
            lemma_entry_bound(h, w, tile, side, y, x);
            lemma_chw_bound(2 * channels, plane, c, entry->0);
            lemma_chw_bound(2 * channels, plane, channels + c, entry->0);
            assert(chw(v, plane, c, entry->0) == zero);
            assert(chw(v, plane, channels + c, entry->0) == zero);
        }
    }
    assert forall|y: int, x: int|
        #![trigger place(h, w, 0, y, x)]
        0 <= y < h && 0 <= x < w implies ({
        let at = place(h, w, 0, y, x);
        let entry = entry_of(h, w, tile, side, y, x);
        &&& after.w_acc@[at] == zero || heavy(after.w_acc@[at])
        &&& entry is Some || heavy(before.w_acc@[at]) ==> heavy(after.w_acc@[at])
    }) by {
        let at = place(h, w, 0, y, x);
        let entry = entry_of(h, w, tile, side, y, x);
        if entry is Some {
            lemma_entry_bound(h, w, tile, side, y, x);
            assert(heavy(win[entry->0]));
            assert(call_ensures(weigh, (before.w_acc@[at], win[entry->0]), after.w_acc@[at]));
        }
    }
    assert forall|r: int, c: int, y: int, x: int|
        0 <= r && 0 <= c < after.xs@.len() && r * after.xs@.len() + c < after.tiles_done() && 0
            <= y < h && 0 <= x < w && #[trigger] entry_of(
            h,
            w,
            after.tile_of(r, c),
            after.side as int,
            y,
            x,
        ) is Some implies heavy(after.w_acc@[place(h, w, 0, y, x)]) by {
        assert(after.tile_of(r, c) == before.tile_of(r, c));
        if r * columns + c == before.tiles_done() {
            lemma_chw_distinct(columns, r, c, before.row as int, before.column as int);
        } else {
            assert(entry_of(h, w, before.tile_of(r, c), side, y, x) is Some);
        }
    }
}

/// Ending a step in which nothing was added up makes the step's function of
/// every value.
proof fn lemma_advance_undisturbed<
    T,
    B: Fn(T, T, T, T) -> T,
    W: Fn(T, T) -> T,
    U: Fn(T, T, T) -> T,
>(
    before: Generation<T>,
    after: Generation<T>,
    first: Generation<T>,
    win: Seq<T>,
    blend: B,
    weigh: W,
    updates: Seq<U>,
    zero: T,
    heavy: spec_fn(T) -> bool,
    fs: Seq<spec_fn(T) -> T>,
)
    requires
        undisturbed(before, first, zero, heavy, fs),
        after.wf(),
        before.row == before.ys@.len(),
        advanced(before, after, updates[before.step as int], zero),
        weights_cancel(win, blend, weigh, updates, zero, heavy, fs),
    ensures
        undisturbed(after, first, zero, heavy, fs),
{
    let h = before.canvas.height as int;
    let w = before.canvas.width as int;
    let columns = before.xs@.len() as int;
    let n = before.step as int;
    assert forall|c: int, y: int, x: int|
        0 <= c < after.canvas.channels && 0 <= y < h && 0 <= x
            < w implies #[trigger] after.canvas.at(c, y, x) == stepped(
        fs,
        after.step as int,
        first.canvas.at(c, y, x),
    ) by {
        let (r, k) = law_tiles_cover_canvas(before, y, x);
        lemma_chw_bound(before.ys@.len() as int, columns, r, k);
        assert(entry_of(h, w, before.tile_of(r, k), before.side as int, y, x) is Some);
        lemma_place(before.canvas.channels as int, h, w, c, y, x);
        assert(before.v_acc@[place(h, w, c, y, x)] == zero);
        assert(call_ensures(
            updates[n],
            (before.canvas.at(c, y, x), zero, before.w_acc@[place(h, w, 0, y, x)]),
            after.canvas.at(c, y, x),
        ));
        assert(before.canvas.at(c, y, x) == stepped(fs, n, first.canvas.at(c, y, x)));
    }
    assert forall|y: int, x: int|
        #![trigger place(h, w, 0, y, x)]
        0 <= y < h && 0 <= x < w implies after.w_acc@[place(h, w, 0, y, x)] == zero by {
        lemma_place(1, h, w, 0, y, x);
        assert(1 * h * w == h * w);
    }
    assert(after.tiles_done() == 0);
    assert forall|r: int, c: int, y: int, x: int|
        0 <= r && 0 <= c < after.xs@.len() && r * after.xs@.len() + c < after.tiles_done() && 0
            <= y < h && 0 <= x < w && #[trigger] entry_of(
            h,
            w,
            after.tile_of(r, c),
            after.side as int,
            y,
            x,
        ) is Some implies heavy(after.w_acc@[place(h, w, 0, y, x)]) by {
        assert(0 <= r * after.xs@.len()) by (nonlinear_arith)
            requires
                0 <= r,
                0 <= after.xs@.len(),
        ;
    }
}

/// Under a model that answers zero the tiles and their weights cancel out: in
/// every state each value is what the steps so far make of its first value on
/// their own, so that every texel is stepped exactly once per step.
pub proof fn law_tiling_cancels_out<
    T,
    B: Fn(T, T, T, T) -> T,
    W: Fn(T, T) -> T,
    U: Fn(T, T, T) -> T,
>(
    s: Seq<Generation<T>>,
    v: Seq<Seq<T>>,
    win: Seq<T>,
    blend: B,
    weigh: W,
    updates: Seq<U>,
    zero: T,
    heavy: spec_fn(T) -> bool,
    fs: Seq<spec_fn(T) -> T>,
    i: int,
)
    requires
        is_run(s, v, win, blend, weigh, updates, zero),
        forall|j: int, k: int|
            0 <= j < s.len() && 0 <= k < v[j].len() ==> #[trigger] v[j][k] == zero,
        weights_cancel(win, blend, weigh, updates, zero, heavy, fs),
        0 <= i < s.len(),
    ensures
        forall|c: int, y: int, x: int|
            0 <= c < s[0].canvas.channels && 0 <= y < s[0].canvas.height && 0 <= x
                < s[0].canvas.width ==> #[trigger] s[i].canvas.at(c, y, x) == stepped(
                fs,
                s[i].step as int,
                s[0].canvas.at(c, y, x),
            ),
{
    lemma_undisturbed(s, v, win, blend, weigh, updates, zero, heavy, fs, i);
}

/// No state is disturbed under a model that answers zero.
proof fn lemma_undisturbed<T, B: Fn(T, T, T, T) -> T, W: Fn(T, T) -> T, U: Fn(T, T, T) -> T>(
    s: Seq<Generation<T>>,
    v: Seq<Seq<T>>,
    win: Seq<T>,
    blend: B,
    weigh: W,
    updates: Seq<U>,
    zero: T,
    heavy: spec_fn(T) -> bool,
    fs: Seq<spec_fn(T) -> T>,
    i: int,
)
    requires
        is_run(s, v, win, blend, weigh, updates, zero),
        forall|j: int, k: int|
            0 <= j < s.len() && 0 <= k < v[j].len() ==> #[trigger] v[j][k] == zero,
        weights_cancel(win, blend, weigh, updates, zero, heavy, fs),
        0 <= i < s.len(),
    ensures
        undisturbed(s[i], s[0], zero, heavy, fs),
    decreases i,
{
    let first = s[0];
    if i == 0 {
        let h = first.canvas.height as int;
        let w = first.canvas.width as int;
        assert forall|y: int, x: int|
            #![trigger place(h, w, 0, y, x)]
            0 <= y < h && 0 <= x < w implies first.w_acc@[place(h, w, 0, y, x)] == zero by {
            lemma_place(1, h, w, 0, y, x);
            assert(1 * h * w == h * w);
        }
        assert(first.tiles_done() == 0);
        assert forall|r: int, c: int, y: int, x: int|
            0 <= r && 0 <= c < first.xs@.len() && r * first.xs@.len() + c < first.tiles_done() && 0
                <= y < h && 0 <= x < w && #[trigger] entry_of(
                h,
                w,
                first.tile_of(r, c),
                first.side as int,
                y,
                x,
            ) is Some implies heavy(first.w_acc@[place(h, w, 0, y, x)]) by {
            assert(0 <= r * first.xs@.len()) by (nonlinear_arith)
                requires
                    0 <= r,
                    0 <= first.xs@.len(),
            ;
        }
    } else {
        lemma_undisturbed(s, v, win, blend, weigh, updates, zero, heavy, fs, i - 1);
        let before = s[i - 1];
        assert(moved(s[i - 1], s[i - 1 + 1], v[i - 1], win, blend, weigh, updates, zero));
        if before.row < before.ys@.len() {
            lemma_accept_undisturbed(
                before,
                s[i],
                first,
                v[i - 1],
                win,
                blend,
                weigh,
                updates,
                zero,
                heavy,
                fs,
            );
        } else {
            lemma_advance_undisturbed(
                before,
                s[i],
                first,
                win,
                blend,
                weigh,
                updates,
                zero,
                heavy,
                fs,
            );
        }
    }
}

/// Two states hold the same.
pub open spec fn alike<T>(g: Generation<T>, h: Generation<T>) -> bool {
    &&& g.canvas.channels == h.canvas.channels
    &&& g.canvas.width == h.canvas.width
    &&& g.canvas.height == h.canvas.height
    &&& g.canvas.data@ == h.canvas.data@
    &&& g.cond_channels == h.cond_channels
    &&& g.side == h.side
    &&& g.overlap == h.overlap
    &&& g.xs@ == h.xs@
    &&& g.ys@ == h.ys@
    &&& g.step == h.step
    &&& g.steps == h.steps
    &&& g.row == h.row
    &&& g.column == h.column
    &&& g.v_acc@ == h.v_acc@
    &&& g.w_acc@ == h.w_acc@
}

/// Two answers say the same in one of the two samples: in that of the null
/// class, or in that of the target class.
pub open spec fn agree_in<T>(a: Seq<T>, b: Seq<T>, null: bool) -> bool {
    &&& a.len() == b.len()
    &&& forall|k: int|
        #![trigger a[k]]
        0 <= k < a.len() && (null <==> a.len() <= 2 * k) ==> a[k] == b[k]
}

/// What is added up depends on one of the two samples only, and nothing is left
/// to chance.
pub open spec fn one_sample_counts<
    T,
    B: Fn(T, T, T, T) -> T,
    W: Fn(T, T) -> T,
    U: Fn(T, T, T) -> T,
>(
    null: bool,
    blend: B,
    weigh: W,
    updates: Seq<U>,
    sum: spec_fn(T, T, T) -> T,
    weight: spec_fn(T, T) -> T,
    update: spec_fn(int, T, T, T) -> T,
) -> bool {
    &&& forall|a: T, w: T, p: T, q: T, r: T| #[trigger]
        call_ensures(blend, (a, w, p, q), r) ==> r == sum(
            a,
            w,
            if null {
                q
            } else {
                p
            },
        )
    &&& forall|a: T, w: T, r: T| #[trigger] call_ensures(weigh, (a, w), r) ==> r == weight(a, w)
    &&& forall|n: int, x: T, v: T, w: T, r: T| #[trigger]
        call_ensures(updates[n], (x, v, w), r) ==> r == update(n, x, v, w)
}

/// Like states stay alike when answers are taken that agree in the sample that
/// counts, and when steps end.
proof fn lemma_moved_alike<T, B: Fn(T, T, T, T) -> T, W: Fn(T, T) -> T, U: Fn(T, T, T) -> T>(
    a: Generation<T>,
    b: Generation<T>,
    v: Seq<T>,
    c: Generation<T>,
    d: Generation<T>,
    u: Seq<T>,
    null: bool,
    win: Seq<T>,
    blend: B,
    weigh: W,
    updates: Seq<U>,
    zero: T,
    sum: spec_fn(T, T, T) -> T,
    weight: spec_fn(T, T) -> T,
    update: spec_fn(int, T, T, T) -> T,
)
    requires
        moved(a, b, v, win, blend, weigh, updates, zero),
        moved(c, d, u, win, blend, weigh, updates, zero),
        alike(a, c),
        a.row < a.ys@.len() ==> agree_in(v, u, null),
        one_sample_counts(null, blend, weigh, updates, sum, weight, update),
    ensures
        alike(b, d),
{
    let h = a.canvas.height as int;
    let w = a.canvas.width as int;
    let channels = a.canvas.channels as int;
    let side = a.side as int;
    let plane = side * side;
    if a.row < a.ys@.len() {
        let tile = a.next_tile();
        assert(c.next_tile() == tile);
        assert forall|k: int| 0 <= k < b.v_acc@.len() implies #[trigger] b.v_acc@[k]
            == d.v_acc@[k] by {
            let (e, y, x) = lemma_unplace(channels, h, w, k);
            assert(k == place(h, w, e, y, x));
            let entry = entry_of(h, w, tile, side, y, x);
            if entry is Some {
                lemma_entry_bound(h, w, tile, side, y, x);
                let half = channels * plane;
                lemma_chw_bound(channels, plane, e, entry->0);
                assert((channels + e) * plane == half + e * plane && 2 * channels * plane == 2
                    * half) by (nonlinear_arith)
                    requires
                        half == channels * plane,
                ;
                assert(v.len() == 2 * half);
                if null {
                    assert(v[(channels + e) * plane + entry->0] == u[(channels + e) * plane
                        + entry->0]);
                } else {
                    assert(v[e * plane + entry->0] == u[e * plane + entry->0]);
                }
            }
        }
        assert(b.v_acc@ =~= d.v_acc@);
        assert forall|k: int| 0 <= k < b.w_acc@.len() implies #[trigger] b.w_acc@[k]
            == d.w_acc@[k] by {
            assert(1 * h * w == h * w);
            let (e, y, x) = lemma_unplace(1, h, w, k);
            assert(k == place(h, w, 0, y, x));
        }
        assert(b.w_acc@ =~= d.w_acc@);
        let columns = a.xs@.len() as int;
        lemma_chw_distinct(columns, b.row as int, b.column as int, d.row as int, d.column as int);
    } else {
        assert forall|k: int| 0 <= k < b.canvas.data@.len() implies #[trigger] b.canvas.data@[k]
            == d.canvas.data@[k] by {
            let (e, y, x) = lemma_unplace(channels, h, w, k);
            assert(b.canvas.at(e, y, x) == b.canvas.data@[k]);
            assert(d.canvas.at(e, y, x) == d.canvas.data@[k]);
            assert(a.canvas.at(e, y, x) == c.canvas.at(e, y, x));
        }
        assert(b.canvas.data@ =~= d.canvas.data@);
        assert(b.v_acc@ =~= d.v_acc@);
        assert(b.w_acc@ =~= d.w_acc@);
    }
}

/// Where what is added up depends on one sample only, as without guidance it
/// depends on the null class only, two models that agree in that sample, shown
/// the same, generate the same.
pub proof fn law_one_sample_decides<
    T,
    B: Fn(T, T, T, T) -> T,
    W: Fn(T, T) -> T,
    U: Fn(T, T, T) -> T,
>(
    s: Seq<Generation<T>>,
    v: Seq<Seq<T>>,
    t: Seq<Generation<T>>,
    u: Seq<Seq<T>>,
    null: bool,
    win: Seq<T>,
    blend: B,
    weigh: W,
    updates: Seq<U>,
    zero: T,
    sum: spec_fn(T, T, T) -> T,
    weight: spec_fn(T, T) -> T,
    update: spec_fn(int, T, T, T) -> T,
    i: int,
)
    requires
        is_run(s, v, win, blend, weigh, updates, zero),
        is_run(t, u, win, blend, weigh, updates, zero),
        alike(s[0], t[0]),
        forall|j: int|
            #![trigger v[j]]
            0 <= j < s.len() && j < t.len() && alike(s[j], t[j]) && s[j].row < s[j].ys@.len()
                ==> agree_in(v[j], u[j], null),
        one_sample_counts(null, blend, weigh, updates, sum, weight, update),
        0 <= i < s.len(),
        i < t.len(),
    ensures
        alike(s[i], t[i]),
    decreases i,
{
    if i > 0 {
        law_one_sample_decides(
            s,
            v,
            t,
            u,
            null,
            win,
            blend,
            weigh,
            updates,
            zero,
            sum,
            weight,
            update,
            i - 1,
        );
        assert(moved(s[i - 1], s[i - 1 + 1], v[i - 1], win, blend, weigh, updates, zero));
        assert(moved(t[i - 1], t[i - 1 + 1], u[i - 1], win, blend, weigh, updates, zero));
        lemma_moved_alike(
            s[i - 1],
            s[i],
            v[i - 1],
            t[i - 1],
            t[i],
            u[i - 1],
            null,
            win,
            blend,
            weigh,
            updates,
            zero,
            sum,
            weight,
            update,
        );
    }
}

} // verus!
