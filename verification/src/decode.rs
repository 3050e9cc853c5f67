//! Decoding a generated canvas into a world that a level can hold.

use crate::planes::{chw, lemma_chw_bound, lemma_square_place};
use crate::sampler::{
    bit_of, crop_fits, decode_material, flag_code, full_cells, full_code, law_material_bits,
    law_wrap_is_remainder, lemma_texel_bound, material, packed, texel_index, wrap, Crop,
    FULL_CHANNELS,
};
use crate::tiled::Canvas;
use crate::world::{
    pair_of, texel_at, valid_texel, valid_texels, Texel, World, MAT_BITS, NUM_TERRAINS,
};
use vstd::arithmetic::power2::pow2;
use vstd::prelude::*;

verus! {

/// Value of channel `c` at texel `i`.
pub open spec fn value<T>(canvas: Canvas<T>, c: int, i: int) -> T {
    chw(canvas.data@, canvas.width * canvas.height, c, i)
}

/// Bit `b` of `m` is set where the values of channel `first + b` at `i` and
/// `j` are positive together.
pub open spec fn material_decoded<T, P: Fn(T, T) -> bool>(
    canvas: Canvas<T>,
    first: int,
    i: int,
    j: int,
    positive: P,
    m: u8,
) -> bool {
    &&& m < NUM_TERRAINS
    &&& call_ensures(
        positive,
        (value(canvas, first, i), value(canvas, first, j)),
        bit_of(m, 0),
    )
    &&& call_ensures(
        positive,
        (value(canvas, first + 1, i), value(canvas, first + 1, j)),
        bit_of(m, 1),
    )
    &&& call_ensures(
        positive,
        (value(canvas, first + 2, i), value(canvas, first + 2, j)),
        bit_of(m, 2),
    )
}

/// The lower level of a dual cell: low enough for a level above it.
pub open spec fn capped(level: u8) -> u8 {
    if level == 255 {
        254
    } else {
        level
    }
}

/// The upper level of a dual cell: at least one above the lower level.
pub open spec fn raised(lower: u8, upper: u8) -> u8
    recommends
        lower < 255,
{
    if upper > lower {
        upper
    } else {
        (lower + 1) as u8
    }
}

/// `t` is what the canvas says of the pair of texels at `i`, taken as a dual
/// cell.
pub open spec fn dual_decoded<
    T,
    P: Fn(T, T) -> bool,
    L: Fn(T, T) -> u8,
    U: Fn(u8, T, T) -> u8,
    D: Fn(T, T) -> u8,
>(canvas: Canvas<T>, i: int, t: Texel, positive: P, level: L, upper: U, delta: D) -> bool {
    &&& t.dual == 1
    &&& t.spare == 0
    &&& exists|h: u8|
        t.h0 == capped(h) && #[trigger] call_ensures(
            level,
            (value(canvas, 0, i), value(canvas, 0, i + 1)),
            h,
        )
    &&& exists|h: u8|
        t.h1 == raised(t.h0, h) && #[trigger] call_ensures(
            upper,
            (t.h0, value(canvas, 1, i), value(canvas, 1, i + 1)),
            h,
        )
    &&& call_ensures(delta, (value(canvas, 2, i), value(canvas, 2, i + 1)), t.delta)
    &&& material_decoded(canvas, 4, i, i + 1, positive, t.m0)
    &&& material_decoded(canvas, 4 + MAT_BITS, i, i + 1, positive, t.m1)
}

/// `t` is what the canvas says of texel `i`, taken as a single level.
pub open spec fn single_decoded<T, P: Fn(T, T) -> bool, L: Fn(T, T) -> u8>(
    canvas: Canvas<T>,
    i: int,
    t: Texel,
    positive: P,
    level: L,
) -> bool {
    &&& t.dual == 0
    &&& t.spare == 0
    &&& call_ensures(level, (value(canvas, 0, i), value(canvas, 0, i)), t.h0)
    &&& t.h1 == t.h0
    &&& t.delta == 0
    &&& material_decoded(canvas, 4, i, i, positive, t.m0)
    &&& t.m1 == t.m0
}

/// `t` and `u` are what the canvas says of the pair of texels at `i`.
pub open spec fn pair_decoded<
    T,
    P: Fn(T, T) -> bool,
    L: Fn(T, T) -> u8,
    U: Fn(u8, T, T) -> u8,
    D: Fn(T, T) -> u8,
>(
    canvas: Canvas<T>,
    i: int,
    t: Texel,
    u: Texel,
    positive: P,
    level: L,
    upper: U,
    delta: D,
) -> bool {
    &&& call_ensures(positive, (value(canvas, 3, i), value(canvas, 3, i + 1)), t.dual == 1)
    &&& if t.dual == 1 {
        u == t && dual_decoded(canvas, i, t, positive, level, upper, delta)
    } else {
        single_decoded(canvas, i, t, positive, level) && single_decoded(
            canvas,
            i + 1,
            u,
            positive,
            level,
        )
    }
}

/// Every pair of texels of `w` is what the canvas says of it.
pub open spec fn canvas_decoded<
    T,
    P: Fn(T, T) -> bool,
    L: Fn(T, T) -> u8,
    U: Fn(u8, T, T) -> u8,
    D: Fn(T, T) -> u8,
>(canvas: Canvas<T>, w: World, positive: P, level: L, upper: U, delta: D, done: int) -> bool {
    forall|i: int|
        #![trigger texel_at(w, i)]
        0 <= i < done && i % 2 == 0 ==> pair_decoded(
            canvas,
            i,
            texel_at(w, i),
            texel_at(w, i + 1),
            positive,
            level,
            upper,
            delta,
        )
}

/// The bits of a terrain type put together.
proof fn lemma_material(b0: bool, b1: bool, b2: bool)
    ensures
        material(b0, b1, b2) < NUM_TERRAINS,
        bit_of(material(b0, b1, b2), 0) == b0,
        bit_of(material(b0, b1, b2), 1) == b1,
        bit_of(material(b0, b1, b2), 2) == b2,
{
    vstd::arithmetic::power2::lemma2_to64();
}

/// The terrain type that three channels say, at two texels taken together.
fn mat_from_bits<T: Copy, P: Fn(T, T) -> bool>(
    canvas: &Canvas<T>,
    first: usize,
    i: usize,
    j: usize,
    positive: &P,
) -> (m: u8)
    requires
        canvas.wf(),
        first + MAT_BITS <= canvas.channels,
        i < canvas.width * canvas.height,
        j < canvas.width * canvas.height,
        forall|a: T, b: T| call_requires(*positive, (a, b)),
    ensures
        material_decoded(*canvas, first as int, i as int, j as int, *positive, m),
{
    let b0 = positive(read(canvas, first, i), read(canvas, first, j));
    let b1 = positive(read(canvas, first + 1, i), read(canvas, first + 1, j));
    let b2 = positive(read(canvas, first + 2, i), read(canvas, first + 2, j));
    proof {
        lemma_material(b0, b1, b2);
    }
    decode_material([b0, b1, b2])
}

/// Value of channel `c` at texel `i`.
fn read<T: Copy>(canvas: &Canvas<T>, c: usize, i: usize) -> (v: T)
    requires
        canvas.wf(),
        c < canvas.channels,
        i < canvas.width * canvas.height,
    ensures
        v == value(*canvas, c as int, i as int),
{
    proof {
        let plane = canvas.width * canvas.height;
        lemma_chw_bound(canvas.channels as int, plane, c as int, i as int);
        assert(canvas.channels * plane == canvas.channels * canvas.height * canvas.width)
            by (nonlinear_arith)
            requires
                plane == canvas.width * canvas.height,
        ;
        assert(canvas.data@.len() == canvas.data.len());
        assert(0 <= c * plane) by (nonlinear_arith)
            requires
                0 <= c,
                0 <= plane,
        ;
        assert(plane <= canvas.channels * plane) by (nonlinear_arith)
            requires
                1 <= canvas.channels,
                0 <= plane,
        ;
    }
    canvas.data[c * (canvas.width * canvas.height) + i]
}

/// Rows of even width make an even number of texels.
proof fn lemma_even(width: int, height: int)
    requires
        width % 2 == 0 || height == 0,
    ensures
        (width * height) % 2 == 0,
{
    if height != 0 {
        let half = width / 2;
        assert(width * height == (half * height) * 2) by (nonlinear_arith)
            requires
                width == 2 * half,
        ;
        vstd::arithmetic::div_mod::lemma_mod_multiples_basic(half * height, 2);
    }
}

/// The lower level of a dual cell.
fn cap(level: u8) -> (h: u8)
    ensures
        h == capped(level),
        h < 255,
{
    if level == 255 {
        254
    } else {
        level
    }
}

/// The upper level of a dual cell.
fn raise(lower: u8, upper: u8) -> (h: u8)
    requires
        lower < 255,
    ensures
        h == raised(lower, upper),
{
    if upper > lower {
        upper
    } else {
        lower + 1
    }
}

/// Turns a generated full-resolution canvas into a world. A dual cell is
/// decoded from both its texels, so that they say the same, and its upper
/// level is kept at least one above the lower one.
///
/// `positive` tells whether two values are positive together. `level` and
/// `delta` turn the mean of two values into a height and a 4-bit distance, and
/// `upper` turns it into a height above a given one.
pub fn canvas_to_world<
    T: Copy,
    P: Fn(T, T) -> bool,
    L: Fn(T, T) -> u8,
    U: Fn(u8, T, T) -> u8,
    D: Fn(T, T) -> u8,
>(canvas: &Canvas<T>, name: &str, positive: &P, level: &L, upper: &U, delta: &D) -> (w: World)
    requires
        canvas.wf(),
        canvas.channels == FULL_CHANNELS,
        canvas.width % 2 == 0 || canvas.height == 0,
        forall|a: T, b: T| call_requires(*positive, (a, b)),
        forall|a: T, b: T| call_requires(*level, (a, b)),
        forall|h: u8, a: T, b: T| call_requires(*upper, (h, a, b)),
        forall|a: T, b: T| call_requires(*delta, (a, b)),
    ensures
        w.name@ == name@,
        w.width == canvas.width,
        w.height == canvas.height,
        w.wf(),
        canvas_decoded(
            *canvas,
            w,
            *positive,
            *level,
            *upper,
            *delta,
            canvas.width * canvas.height,
        ),
        forall|i: int|
            #![trigger w.dual@[i]]
            0 <= i < canvas.width * canvas.height && w.dual@[i] == 1 ==> w.h1@[i] >= w.h0@[i] + 1,
        forall|i: int|
            #![trigger w.dual@[i]]
            0 <= i < canvas.width * canvas.height ==> {
                let n = canvas.width * canvas.height;
                let d = canvas.data@;
                let p = i - i % 2;
                let (m0, m1) = (w.m0@[i], w.m1@[i]);
                &&& call_ensures(*positive, (d[3 * n + p], d[3 * n + p + 1]), w.dual@[i] == 1)
                &&& w.dual@[i] == 0 || w.dual@[i] == 1
                &&& w.m0@[i] < 8 && w.m1@[i] < 8 && w.spare@[i] == 0
                &&& w.dual@[i] == 1 ==> {
                    &&& exists|h: u8|
                        #[trigger] call_ensures(*level, (d[p], d[p + 1]), h) && w.h0@[i] == (if h == 255 {
                            254
                        } else {
                            h as int
                        })
                    &&& exists|h: u8|
                        #[trigger] call_ensures(*upper, (w.h0@[i], d[n + p], d[n + p + 1]), h)
                            && w.h1@[i] == (if h > w.h0@[i] {
                            h as int
                        } else {
                            w.h0@[i] + 1
                        })
                    &&& call_ensures(*delta, (d[2 * n + p], d[2 * n + p + 1]), w.delta@[i])
                    &&& call_ensures(*positive, (d[4 * n + p], d[4 * n + p + 1]), m0 % 2 == 1)
                    &&& call_ensures(*positive, (d[5 * n + p], d[5 * n + p + 1]), (m0 / 2) % 2 == 1)
                    &&& call_ensures(*positive, (d[6 * n + p], d[6 * n + p + 1]), (m0 / 4) % 2 == 1)
                    &&& call_ensures(*positive, (d[7 * n + p], d[7 * n + p + 1]), m1 % 2 == 1)
                    &&& call_ensures(*positive, (d[8 * n + p], d[8 * n + p + 1]), (m1 / 2) % 2 == 1)
                    &&& call_ensures(*positive, (d[9 * n + p], d[9 * n + p + 1]), (m1 / 4) % 2 == 1)
                }
                &&& w.dual@[i] == 0 ==> {
                    &&& call_ensures(*level, (d[i], d[i]), w.h0@[i])
                    &&& w.h1@[i] == w.h0@[i] && w.delta@[i] == 0 && w.m1@[i] == w.m0@[i]
                    &&& call_ensures(*positive, (d[4 * n + i], d[4 * n + i]), m0 % 2 == 1)
                    &&& call_ensures(*positive, (d[5 * n + i], d[5 * n + i]), (m0 / 2) % 2 == 1)
                    &&& call_ensures(*positive, (d[6 * n + i], d[6 * n + i]), (m0 / 4) % 2 == 1)
                }
            },
{
    let w = decode_pairs(canvas, name, positive, level, upper, delta);
    proof {
        lemma_even(canvas.width as int, canvas.height as int);
        assert forall|i: int|
            #![trigger w.dual@[i]]
            0 <= i < canvas.width * canvas.height implies {
            let n = canvas.width * canvas.height;
            let d = canvas.data@;
            let p = i - i % 2;
            let (m0, m1) = (w.m0@[i], w.m1@[i]);
            &&& call_ensures(*positive, (d[3 * n + p], d[3 * n + p + 1]), w.dual@[i] == 1)
            &&& w.dual@[i] == 0 || w.dual@[i] == 1
            &&& w.m0@[i] < 8 && w.m1@[i] < 8 && w.spare@[i] == 0
            &&& w.dual@[i] == 1 ==> {
                &&& exists|h: u8|
                    #[trigger] call_ensures(*level, (d[p], d[p + 1]), h) && w.h0@[i] == (if h == 255 {
                        254
                    } else {
                        h as int
                    })
                &&& exists|h: u8|
                    #[trigger] call_ensures(*upper, (w.h0@[i], d[n + p], d[n + p + 1]), h)
                        && w.h1@[i] == (if h > w.h0@[i] {
                        h as int
                    } else {
                        w.h0@[i] + 1
                    })
                &&& call_ensures(*delta, (d[2 * n + p], d[2 * n + p + 1]), w.delta@[i])
                &&& call_ensures(*positive, (d[4 * n + p], d[4 * n + p + 1]), m0 % 2 == 1)
                &&& call_ensures(*positive, (d[5 * n + p], d[5 * n + p + 1]), (m0 / 2) % 2 == 1)
                &&& call_ensures(*positive, (d[6 * n + p], d[6 * n + p + 1]), (m0 / 4) % 2 == 1)
                &&& call_ensures(*positive, (d[7 * n + p], d[7 * n + p + 1]), m1 % 2 == 1)
                &&& call_ensures(*positive, (d[8 * n + p], d[8 * n + p + 1]), (m1 / 2) % 2 == 1)
                &&& call_ensures(*positive, (d[9 * n + p], d[9 * n + p + 1]), (m1 / 4) % 2 == 1)
            }
            &&& w.dual@[i] == 0 ==> {
                &&& call_ensures(*level, (d[i], d[i]), w.h0@[i])
                &&& w.h1@[i] == w.h0@[i] && w.delta@[i] == 0 && w.m1@[i] == w.m0@[i]
                &&& call_ensures(*positive, (d[4 * n + i], d[4 * n + i]), m0 % 2 == 1)
                &&& call_ensures(*positive, (d[5 * n + i], d[5 * n + i]), (m0 / 2) % 2 == 1)
                &&& call_ensures(*positive, (d[6 * n + i], d[6 * n + i]), (m0 / 4) % 2 == 1)
            }
        } by {
            law_decoded_values(*canvas, w, *positive, *level, *upper, *delta, i);
        }
    }
    w
}

/// Decodes a canvas, pair by pair.
fn decode_pairs<
    T: Copy,
    P: Fn(T, T) -> bool,
    L: Fn(T, T) -> u8,
    U: Fn(u8, T, T) -> u8,
    D: Fn(T, T) -> u8,
>(canvas: &Canvas<T>, name: &str, positive: &P, level: &L, upper: &U, delta: &D) -> (w: World)
    requires
        canvas.wf(),
        canvas.channels == FULL_CHANNELS,
        canvas.width % 2 == 0 || canvas.height == 0,
        forall|a: T, b: T| call_requires(*positive, (a, b)),
        forall|a: T, b: T| call_requires(*level, (a, b)),
        forall|h: u8, a: T, b: T| call_requires(*upper, (h, a, b)),
        forall|a: T, b: T| call_requires(*delta, (a, b)),
    ensures
        w.name@ == name@,
        w.width == canvas.width,
        w.height == canvas.height,
        w.wf(),
        canvas_decoded(
            *canvas,
            w,
            *positive,
            *level,
            *upper,
            *delta,
            canvas.width * canvas.height,
        ),
        forall|i: int|
            #![trigger w.dual@[i]]
            0 <= i < canvas.width * canvas.height && w.dual@[i] == 1 ==> w.h1@[i] >= w.h0@[i] + 1,
{
    let mut w = World {
        name: name.to_string(),
        width: canvas.width,
        height: canvas.height,
        h0: Vec::new(),
        h1: Vec::new(),
        delta: Vec::new(),
        dual: Vec::new(),
        m0: Vec::new(),
        m1: Vec::new(),
        spare: Vec::new(),
    };
    proof {
        let plane = canvas.width * canvas.height;
        lemma_even(canvas.width as int, canvas.height as int);
        assert(0 <= plane <= FULL_CHANNELS * plane && FULL_CHANNELS * plane == FULL_CHANNELS
            * canvas.height * canvas.width) by (nonlinear_arith)
            requires
                plane == canvas.width * canvas.height,
                FULL_CHANNELS == 10,
        ;
        assert(canvas.data@.len() == canvas.data.len());
    }
    let total: usize = canvas.width * canvas.height;
    let mut i: usize = 0;
    while i < total
        invariant
            canvas.wf(),
            canvas.channels == FULL_CHANNELS,
            total == canvas.width * canvas.height,
            total % 2 == 0,
            i % 2 == 0,
            i <= total,
            w.name@ == name@,
            w.width == canvas.width,
            w.height == canvas.height,
            w.h0@.len() == i,
            w.h1@.len() == i,
            w.delta@.len() == i,
            w.dual@.len() == i,
            w.m0@.len() == i,
            w.m1@.len() == i,
            w.spare@.len() == i,
            forall|a: T, b: T| call_requires(*positive, (a, b)),
            forall|a: T, b: T| call_requires(*level, (a, b)),
            forall|h: u8, a: T, b: T| call_requires(*upper, (h, a, b)),
            forall|a: T, b: T| call_requires(*delta, (a, b)),
            canvas_decoded(*canvas, w, *positive, *level, *upper, *delta, i as int),
        decreases total - i,
    {
        let j: usize = i + 1;
        let ghost before = w;
        if positive(read(canvas, 3, i), read(canvas, 3, j)) {
            let low = level(read(canvas, 0, i), read(canvas, 0, j));
            let h0 = cap(low);
            let h = upper(h0, read(canvas, 1, i), read(canvas, 1, j));
            let h1 = raise(h0, h);
            let d = delta(read(canvas, 2, i), read(canvas, 2, j));
            let m0 = mat_from_bits(canvas, 4, i, j, positive);
            let m1 = mat_from_bits(canvas, 4 + MAT_BITS, i, j, positive);
            w.push_texel(h0, h1, d, 1, m0, m1, 0);
            w.push_texel(h0, h1, d, 1, m0, m1, 0);
            assert(dual_decoded(
                *canvas,
                i as int,
                texel_at(w, i as int),
                *positive,
                *level,
                *upper,
                *delta,
            ));
        } else {
            let h0 = level(read(canvas, 0, i), read(canvas, 0, i));
            let m = mat_from_bits(canvas, 4, i, i, positive);
            w.push_texel(h0, h0, 0, 0, m, m, 0);
            let h0 = level(read(canvas, 0, j), read(canvas, 0, j));
            let m = mat_from_bits(canvas, 4, j, j, positive);
            w.push_texel(h0, h0, 0, 0, m, m, 0);
        }
        proof {
            assert forall|k: int|
                #![trigger texel_at(w, k)]
                0 <= k < i + 2 && k % 2 == 0 implies pair_decoded(
                *canvas,
                k,
                texel_at(w, k),
                texel_at(w, k + 1),
                *positive,
                *level,
                *upper,
                *delta,
            ) by {
                if k < i {
                    assert(texel_at(w, k) == texel_at(before, k));
                    assert(texel_at(w, k + 1) == texel_at(before, k + 1));
                }
            }
        }
        i = i + 2;
    }
    proof {
        assert forall|k: int|
            #![trigger w.dual@[k]]
            0 <= k < canvas.width * canvas.height && w.dual@[k] == 1 implies w.h1@[k] >= w.h0@[k]
            + 1 by {
            lemma_decoded_raised(*canvas, w, *positive, *level, *upper, *delta, total as int, k);
        }
    }
    w
}

/// A decoded texel in terms of the values of the canvas. Whether a pair is a
/// dual cell is what `positive` says of the mask values of its two texels taken
/// together, the first texel's first. The levels, the delta and the terrain
/// types of a dual cell come from both texels in the same way, those of a
/// single texel from itself alone.
pub proof fn law_decoded_values<
    T,
    P: Fn(T, T) -> bool,
    L: Fn(T, T) -> u8,
    U: Fn(u8, T, T) -> u8,
    D: Fn(T, T) -> u8,
>(canvas: Canvas<T>, w: World, positive: P, level: L, upper: U, delta: D, i: int)
    requires
        canvas_decoded(canvas, w, positive, level, upper, delta, canvas.width * canvas.height),
        (canvas.width * canvas.height) % 2 == 0,
        0 <= i < canvas.width * canvas.height,
    ensures
        ({
            let n = canvas.width * canvas.height;
            let d = canvas.data@;
            let p = i - i % 2;
            let (m0, m1) = (w.m0@[i], w.m1@[i]);
            &&& call_ensures(positive, (d[3 * n + p], d[3 * n + p + 1]), w.dual@[i] == 1)
            &&& w.dual@[i] == 0 || w.dual@[i] == 1
            &&& w.m0@[i] < 8 && w.m1@[i] < 8 && w.spare@[i] == 0
            &&& w.dual@[i] == 1 ==> {
                &&& exists|h: u8|
                    #[trigger] call_ensures(level, (d[p], d[p + 1]), h) && w.h0@[i] == (if h == 255 {
                        254
                    } else {
                        h as int
                    })
                &&& exists|h: u8|
                    #[trigger] call_ensures(upper, (w.h0@[i], d[n + p], d[n + p + 1]), h)
                        && w.h1@[i] == (if h > w.h0@[i] {
                        h as int
                    } else {
                        w.h0@[i] + 1
                    })
                &&& call_ensures(delta, (d[2 * n + p], d[2 * n + p + 1]), w.delta@[i])
                &&& call_ensures(positive, (d[4 * n + p], d[4 * n + p + 1]), m0 % 2 == 1)
                &&& call_ensures(positive, (d[5 * n + p], d[5 * n + p + 1]), (m0 / 2) % 2 == 1)
                &&& call_ensures(positive, (d[6 * n + p], d[6 * n + p + 1]), (m0 / 4) % 2 == 1)
                &&& call_ensures(positive, (d[7 * n + p], d[7 * n + p + 1]), m1 % 2 == 1)
                &&& call_ensures(positive, (d[8 * n + p], d[8 * n + p + 1]), (m1 / 2) % 2 == 1)
                &&& call_ensures(positive, (d[9 * n + p], d[9 * n + p + 1]), (m1 / 4) % 2 == 1)
            }
            &&& w.dual@[i] == 0 ==> {
                &&& call_ensures(level, (d[i], d[i]), w.h0@[i])
                &&& w.h1@[i] == w.h0@[i] && w.delta@[i] == 0 && w.m1@[i] == w.m0@[i]
                &&& call_ensures(positive, (d[4 * n + i], d[4 * n + i]), m0 % 2 == 1)
                &&& call_ensures(positive, (d[5 * n + i], d[5 * n + i]), (m0 / 2) % 2 == 1)
                &&& call_ensures(positive, (d[6 * n + i], d[6 * n + i]), (m0 / 4) % 2 == 1)
            }
        }),
{
    let p = i - i % 2;
    assert(pair_decoded(
        canvas,
        p,
        texel_at(w, p),
        texel_at(w, p + 1),
        positive,
        level,
        upper,
        delta,
    ));
    vstd::arithmetic::power2::lemma2_to64();
    let t = texel_at(w, i);
    assert(t == texel_at(w, p) || t == texel_at(w, p + 1));
    if t.dual == 1 {
        assert(dual_decoded(canvas, p, t, positive, level, upper, delta));
        let h = choose|h: u8|
            t.h0 == capped(h) && #[trigger] call_ensures(
                level,
                (value(canvas, 0, p), value(canvas, 0, p + 1)),
                h,
            );
        assert(value(canvas, 0, p) == canvas.data@[p]);
        assert(value(canvas, 0, p + 1) == canvas.data@[p + 1]);
        assert(call_ensures(level, (canvas.data@[p], canvas.data@[p + 1]), h));
        let g = choose|h: u8|
            t.h1 == raised(t.h0, h) && #[trigger] call_ensures(
                upper,
                (t.h0, value(canvas, 1, p), value(canvas, 1, p + 1)),
                h,
            );
        let n = canvas.width * canvas.height;
        assert(value(canvas, 1, p) == canvas.data@[n + p]);
        assert(value(canvas, 1, p + 1) == canvas.data@[n + p + 1]);
        assert(call_ensures(upper, (t.h0, canvas.data@[n + p], canvas.data@[n + p + 1]), g));
    } else {
        assert(value(canvas, 0, i) == canvas.data@[i]);
        assert(single_decoded(canvas, i, t, positive, level));
    }
}

/// A dual cell's upper level is at least one above its lower one.
pub open spec fn well_raised(t: Texel) -> bool {
    t.dual == 1 ==> t.h1 >= t.h0 + 1
}

/// A decoded dual cell's upper level is at least one above its lower one.
proof fn lemma_decoded_raised<
    T,
    P: Fn(T, T) -> bool,
    L: Fn(T, T) -> u8,
    U: Fn(u8, T, T) -> u8,
    D: Fn(T, T) -> u8,
>(
    canvas: Canvas<T>,
    w: World,
    positive: P,
    level: L,
    upper: U,
    delta: D,
    total: int,
    i: int,
)
    requires
        canvas_decoded(canvas, w, positive, level, upper, delta, total),
        total % 2 == 0,
        0 <= i < total,
    ensures
        well_raised(texel_at(w, i)),
{
    let p = pair_of(i);
    assert(pair_decoded(
        canvas,
        p,
        texel_at(w, p),
        texel_at(w, p + 1),
        positive,
        level,
        upper,
        delta,
    ));
    assert(i == p || i == p + 1);
}

/// A decoded world meets the constraints of a level: both texels of a dual
/// cell say the same, its upper level is at least one above the lower one, and
/// single texels have one level.
pub proof fn law_decoded_is_valid<
    T,
    P: Fn(T, T) -> bool,
    L: Fn(T, T) -> u8,
    U: Fn(u8, T, T) -> u8,
    D: Fn(T, T) -> u8,
>(canvas: Canvas<T>, w: World, positive: P, level: L, upper: U, delta: D)
    requires
        w.wf(),
        w.width % 2 == 0 || w.height == 0,
        canvas_decoded(canvas, w, positive, level, upper, delta, w.width * w.height),
        forall|a: T, b: T, d: u8| #[trigger] call_ensures(delta, (a, b), d) ==> d < 16,
    ensures
        valid_texels(w.texels()),
        forall|i: int| 0 <= i < w.texels().len() ==> well_raised(#[trigger] w.texels()[i]),
{
    let texels = w.texels();
    lemma_even(w.width as int, w.height as int);
    assert forall|i: int| 0 <= i < texels.len() implies valid_texel(#[trigger] texels[i])
        && well_raised(texels[i]) by {
        let p = pair_of(i);
        assert(pair_decoded(
            canvas,
            p,
            texel_at(w, p),
            texel_at(w, p + 1),
            positive,
            level,
            upper,
            delta,
        ));
        assert(i == p || i == p + 1);
    }
    assert forall|i: int|
        #![trigger texels[i]]
        0 <= i < texels.len() && i % 2 == 0 implies texels[i].dual == texels[i + 1].dual && (
    texels[i].dual == 1 ==> texels[i] == texels[i + 1]) by {
        assert(pair_decoded(
            canvas,
            i,
            texel_at(w, i),
            texel_at(w, i + 1),
            positive,
            level,
            upper,
            delta,
        ));
    }
}

/// The functions that decode a value undo `analog` on every level that packing
/// gives it: flags, heights, rises of at least one and 4-bit distances.
pub open spec fn undoes_analog<
    T,
    E: Fn(i32, i32) -> T,
    P: Fn(T, T) -> bool,
    L: Fn(T, T) -> u8,
    U: Fn(u8, T, T) -> u8,
    D: Fn(T, T) -> u8,
>(analog: E, positive: P, level: L, upper: U, delta: D) -> bool {
    &&& forall|flag: bool, a: T, b: T, r: bool|
        #![trigger call_ensures(analog, flag_code(flag), a), call_ensures(positive, (a, b), r)]
        call_ensures(analog, flag_code(flag), a) && call_ensures(analog, flag_code(flag), b)
            && call_ensures(positive, (a, b), r) ==> r == flag
    &&& forall|h: u8, a: T, b: T, r: u8|
        #![trigger call_ensures(analog, (h as i32, 255i32), a), call_ensures(level, (a, b), r)]
        call_ensures(analog, (h as i32, 255i32), a) && call_ensures(analog, (h as i32, 255i32), b)
            && call_ensures(level, (a, b), r) ==> r == h
    &&& forall|h0: u8, h1: u8, a: T, b: T, r: u8|
        #![trigger
            call_ensures(analog, ((h1 - h0) as i32, 255i32), a),
            call_ensures(upper, (h0, a, b), r)]
        h0 < h1 && call_ensures(analog, ((h1 - h0) as i32, 255i32), a) && call_ensures(
            analog,
            ((h1 - h0) as i32, 255i32),
            b,
        ) && call_ensures(upper, (h0, a, b), r) ==> r == h1
    &&& forall|d: u8, a: T, b: T, r: u8|
        #![trigger call_ensures(analog, (d as i32, 15i32), a), call_ensures(delta, (a, b), r)]
        d < 16 && call_ensures(analog, (d as i32, 15i32), a) && call_ensures(
            analog,
            (d as i32, 15i32),
            b,
        ) && call_ensures(delta, (a, b), r) ==> r == d
}

/// A terrain type is what its bits say.
proof fn lemma_material_back(m: u8, t: u8)
    requires
        m < NUM_TERRAINS,
        t < NUM_TERRAINS,
        bit_of(m, 0) == bit_of(t, 0),
        bit_of(m, 1) == bit_of(t, 1),
        bit_of(m, 2) == bit_of(t, 2),
    ensures
        m == t,
{
    law_material_bits(m);
    law_material_bits(t);
}

/// What a canvas holds of a texel: all but the spare bits of a single one.
pub open spec fn on_canvas(t: Texel) -> Texel {
    Texel { spare: 0, ..t }
}

/// The bits of a terrain type that was packed are decoded.
proof fn lemma_bits_back<T, E: Fn(i32, i32) -> T, P: Fn(T, T) -> bool>(
    canvas: Canvas<T>,
    first: int,
    i: int,
    j: int,
    t: u8,
    m: u8,
    analog: E,
    positive: P,
)
    requires
        t < NUM_TERRAINS,
        material_decoded(canvas, first, i, j, positive, m),
        forall|b: int, d: int|
            0 <= b < MAT_BITS && (d == i || d == j) ==> call_ensures(
                analog,
                flag_code(bit_of(t, b as nat)),
                #[trigger] value(canvas, first + b, d),
            ),
        forall|flag: bool, a: T, b: T, r: bool|
            #![trigger call_ensures(analog, flag_code(flag), a), call_ensures(positive, (a, b), r)]
            call_ensures(analog, flag_code(flag), a) && call_ensures(analog, flag_code(flag), b)
                && call_ensures(positive, (a, b), r) ==> r == flag,
    ensures
        m == t,
{
    assert(call_ensures(analog, flag_code(bit_of(t, 0)), value(canvas, first + 0, i)));
    assert(call_ensures(analog, flag_code(bit_of(t, 0)), value(canvas, first + 0, j)));
    assert(call_ensures(analog, flag_code(bit_of(t, 1)), value(canvas, first + 1, i)));
    assert(call_ensures(analog, flag_code(bit_of(t, 1)), value(canvas, first + 1, j)));
    assert(call_ensures(analog, flag_code(bit_of(t, 2)), value(canvas, first + 2, i)));
    assert(call_ensures(analog, flag_code(bit_of(t, 2)), value(canvas, first + 2, j)));
    lemma_material_back(m, t);
}

/// A pair of texels that was packed is decoded.
proof fn lemma_pair_back<
    T,
    E: Fn(i32, i32) -> T,
    P: Fn(T, T) -> bool,
    L: Fn(T, T) -> u8,
    U: Fn(u8, T, T) -> u8,
    D: Fn(T, T) -> u8,
>(
    t: Texel,
    u: Texel,
    canvas: Canvas<T>,
    back: World,
    i: int,
    analog: E,
    positive: P,
    level: L,
    upper: U,
    delta: D,
)
    requires
        valid_texel(t),
        valid_texel(u),
        well_raised(t),
        t.dual == u.dual,
        t.dual == 1 ==> t == u,
        forall|c: int|
            0 <= c < FULL_CHANNELS ==> call_ensures(
                analog,
                full_code(t, c),
                #[trigger] value(canvas, c, i),
            ),
        forall|c: int|
            0 <= c < FULL_CHANNELS ==> call_ensures(
                analog,
                full_code(u, c),
                #[trigger] value(canvas, c, i + 1),
            ),
        pair_decoded(
            canvas,
            i,
            texel_at(back, i),
            texel_at(back, i + 1),
            positive,
            level,
            upper,
            delta,
        ),
        undoes_analog(analog, positive, level, upper, delta),
    ensures
        texel_at(back, i) == on_canvas(t),
        texel_at(back, i + 1) == on_canvas(u),
{
    let bt = texel_at(back, i);
    let bu = texel_at(back, i + 1);
    assert(FULL_CHANNELS == 10);
    assert(call_ensures(analog, flag_code(t.dual != 0), value(canvas, 3, i)));
    assert(call_ensures(analog, flag_code(t.dual != 0), value(canvas, 3, i + 1)));
    assert((bt.dual == 1) == (t.dual != 0));
    assert(call_ensures(analog, (t.h0 as i32, 255i32), value(canvas, 0, i)));
    assert(call_ensures(analog, (u.h0 as i32, 255i32), value(canvas, 0, i + 1)));
    assert forall|b: int| 0 <= b < MAT_BITS implies call_ensures(
        analog,
        flag_code(bit_of(t.m0, b as nat)),
        #[trigger] value(canvas, 4 + b, i),
    ) by {
        assert(full_code(t, 4 + b) == flag_code(bit_of(t.m0, b as nat)));
    }
    assert forall|b: int| 0 <= b < MAT_BITS implies call_ensures(
        analog,
        flag_code(bit_of(u.m0, b as nat)),
        #[trigger] value(canvas, 4 + b, i + 1),
    ) by {
        assert(full_code(u, 4 + b) == flag_code(bit_of(u.m0, b as nat)));
    }
    if t.dual == 1 {
        assert(call_ensures(analog, ((t.h1 - t.h0) as i32, 255i32), value(canvas, 1, i)));
        assert(call_ensures(analog, ((t.h1 - t.h0) as i32, 255i32), value(canvas, 1, i + 1)));
        assert(call_ensures(analog, (t.delta as i32, 15i32), value(canvas, 2, i)));
        assert(call_ensures(analog, (t.delta as i32, 15i32), value(canvas, 2, i + 1)));
        assert(bt.h0 == t.h0);
        assert(bt.h1 == t.h1);
        assert(bt.delta == t.delta);
        lemma_bits_back(canvas, 4, i, i + 1, t.m0, bt.m0, analog, positive);
        assert forall|b: int, d: int|
            0 <= b < MAT_BITS && (d == i || d == i + 1) implies call_ensures(
            analog,
            flag_code(bit_of(t.m1, b as nat)),
            #[trigger] value(canvas, 4 + MAT_BITS + b, d),
        ) by {
            assert(full_code(t, 4 + MAT_BITS + b) == flag_code(bit_of(t.m1, b as nat)));
            assert(call_ensures(
                analog,
                full_code(t, 4 + MAT_BITS + b),
                value(canvas, 4 + MAT_BITS + b, i),
            ));
            assert(call_ensures(
                analog,
                full_code(u, 4 + MAT_BITS + b),
                value(canvas, 4 + MAT_BITS + b, i + 1),
            ));
        }
        lemma_bits_back(canvas, 4 + MAT_BITS, i, i + 1, t.m1, bt.m1, analog, positive);
    } else {
        assert(bt.h0 == t.h0);
        assert(bu.h0 == u.h0);
        lemma_bits_back(canvas, 4, i, i, t.m0, bt.m0, analog, positive);
        lemma_bits_back(canvas, 4, i + 1, i + 1, u.m0, bu.m0, analog, positive);
    }
}

/// A crop that starts at an even column cuts through no pair: two neighbouring
/// entries of it are the two texels of one pair.
proof fn lemma_crop_pairs(w: World, crop: Crop, size: int, wbits: nat, d: int)
    requires
        crop_fits(w, crop, size),
        w.width == pow2(wbits),
        1 <= wbits,
        crop.x % 2 == 0,
        0 <= size,
        size % 2 == 0,
        d % 2 == 0,
        0 <= d < size * size,
    ensures
        ({
            let i = texel_index(w, crop, d % size, d / size, size);
            let j = texel_index(w, crop, (d + 1) % size, (d + 1) / size, size);
            &&& pair_of(i) == pair_of(j)
            &&& i != j
            &&& 0 <= i < w.width * w.height
            &&& 0 <= j < w.width * w.height
            &&& 0 <= pair_of(i)
            &&& pair_of(i) + 1 < w.width * w.height
        }),
{
    lemma_square_place(size, d);
    let dy = d / size;
    let dx = d % size;
    let half = size / 2;
    assert(dx % 2 == 0) by {
        assert(d == (half * dy) * 2 + dx) by (nonlinear_arith)
            requires
                size == 2 * half,
                dy * size + dx == d,
        ;
    }
    vstd::arithmetic::div_mod::lemma_fundamental_div_mod_converse(d + 1, size, dy, dx + 1);
    let fx = if crop.flip_x {
        size - 1 - dx
    } else {
        dx
    };
    let gx = if crop.flip_x {
        size - 1 - (dx + 1)
    } else {
        dx + 1
    };
    let width = w.width as int;
    vstd::arithmetic::power2::lemma_pow2_unfold(wbits);
    let quarter = pow2((wbits - 1) as nat) as int;
    assert(width == 2 * quarter);
    law_wrap_is_remainder(crop.x + fx, width, wbits);
    law_wrap_is_remainder(crop.x + gx, width, wbits);
    lemma_even_remainder(crop.x + fx, quarter);
    lemma_even_remainder(crop.x + gx, quarter);
    let a = (crop.x + fx) % width;
    let b = (crop.x + gx) % width;
    let low = if crop.flip_x {
        crop.x + gx
    } else {
        crop.x + fx
    };
    lemma_even_successor(low, quarter);
    lemma_texel_bound(w, crop, dx, dy, size);
    lemma_texel_bound(w, crop, dx + 1, dy, size);
    let fy = if crop.flip_y {
        size - 1 - dy
    } else {
        dy
    };
    let row = wrap(crop.y + fy, w.height as int);
    assert(row * width == (row * quarter) * 2) by (nonlinear_arith)
        requires
            width == 2 * quarter,
    ;
}

/// The remainder by an even number keeps evenness.
proof fn lemma_even_remainder(a: int, half: int)
    requires
        0 <= a,
        0 < half,
    ensures
        (a % (2 * half)) % 2 == a % 2,
{
    vstd::arithmetic::div_mod::lemma_fundamental_div_mod(a, 2 * half);
    let q = a / (2 * half);
    assert((2 * half) * q == 2 * (half * q)) by (nonlinear_arith);
}

/// An even number and the next one wrap together.
proof fn lemma_even_successor(a: int, half: int)
    requires
        0 <= a,
        a % 2 == 0,
        0 < half,
    ensures
        (a + 1) % (2 * half) == a % (2 * half) + 1,
{
    let q = a / (2 * half);
    let r = a % (2 * half);
    vstd::arithmetic::div_mod::lemma_fundamental_div_mod(a, 2 * half);
    vstd::arithmetic::div_mod::lemma_mod_bound(a, 2 * half);
    lemma_even_remainder(a, half);
    assert((2 * half) * q == q * (2 * half)) by (nonlinear_arith);
    vstd::arithmetic::div_mod::lemma_fundamental_div_mod_converse(a + 1, 2 * half, q, r + 1);
}

/// What a canvas holds of the texels of a crop, row by row.
pub open spec fn crop_texels(w: World, crop: Crop, size: int) -> Seq<Texel> {
    Seq::new(
        (size * size) as nat,
        |d: int| on_canvas(texel_at(w, texel_index(w, crop, d % size, d / size, size))),
    )
}

/// Decoding what was packed into a canvas gives the texels of the crop back, if
/// the decoding functions undo `analog` and the crop cuts through no pair.
pub proof fn law_decode_inverts_packing<
    T,
    E: Fn(i32, i32) -> T,
    P: Fn(T, T) -> bool,
    L: Fn(T, T) -> u8,
    U: Fn(u8, T, T) -> u8,
    D: Fn(T, T) -> u8,
>(
    src: World,
    crop: Crop,
    size: int,
    wbits: nat,
    canvas: Canvas<T>,
    back: World,
    analog: E,
    positive: P,
    level: L,
    upper: U,
    delta: D,
)
    requires
        valid_texels(src.texels()),
        forall|i: int| 0 <= i < src.texels().len() ==> well_raised(#[trigger] src.texels()[i]),
        src.width == pow2(wbits),
        1 <= wbits,
        crop_fits(src, crop, size),
        crop.x % 2 == 0,
        size % 2 == 0,
        canvas.width == size,
        canvas.height == size,
        packed(
            canvas.data@,
            FULL_CHANNELS as int,
            size * size,
            full_cells(src, crop, size),
            analog,
            size * size,
        ),
        back.wf(),
        back.width == size,
        back.height == size,
        canvas_decoded(canvas, back, positive, level, upper, delta, size * size),
        undoes_analog(analog, positive, level, upper, delta),
    ensures
        back.texels() == crop_texels(src, crop, size),
{
    let total = size * size;
    lemma_even(size, size);
    assert forall|d: int| 0 <= d < total && d % 2 == 0 implies #[trigger] texel_at(back, d)
        == crop_texels(src, crop, size)[d] && texel_at(back, d + 1) == crop_texels(
        src,
        crop,
        size,
    )[d + 1] by {
        let i = texel_index(src, crop, d % size, d / size, size);
        let j = texel_index(src, crop, (d + 1) % size, (d + 1) / size, size);
        lemma_crop_pairs(src, crop, size, wbits, d);
        let p = pair_of(i);
        assert(src.texels()[p] == texel_at(src, p) && src.texels()[p + 1] == texel_at(src, p + 1));
        assert(src.texels()[i] == texel_at(src, i) && src.texels()[j] == texel_at(src, j));
        assert(i == p && j == p + 1 || i == p + 1 && j == p);
        assert forall|c: int| 0 <= c < FULL_CHANNELS implies call_ensures(
            analog,
            full_code(texel_at(src, i), c),
            #[trigger] value(canvas, c, d),
        ) by {
            assert(value(canvas, c, d) == chw(canvas.data@, total, c, d));
        }
        assert forall|c: int| 0 <= c < FULL_CHANNELS implies call_ensures(
            analog,
            full_code(texel_at(src, j), c),
            #[trigger] value(canvas, c, d + 1),
        ) by {
            assert(value(canvas, c, d + 1) == chw(canvas.data@, total, c, d + 1));
        }
        lemma_pair_back(
            texel_at(src, i),
            texel_at(src, j),
            canvas,
            back,
            d,
            analog,
            positive,
            level,
            upper,
            delta,
        );
    }
    assert(back.texels() =~= crop_texels(src, crop, size)) by {
        assert forall|d: int| 0 <= d < total implies #[trigger] back.texels()[d] == crop_texels(
            src,
            crop,
            size,
        )[d] by {
            let p = pair_of(d);
            assert(texel_at(back, p) == crop_texels(src, crop, size)[p]);
        }
    }
}

/// The crop that starts at the first texel of a square world whose side is a
/// power of two, and has its size, holds all texels of the world.
pub proof fn law_whole_crop(w: World, crop: Crop, bits: nat)
    requires
        w.wf(),
        w.width == pow2(bits),
        w.height == w.width,
        crop.x == 0,
        crop.y == 0,
        !crop.flip_x,
        !crop.flip_y,
    ensures
        crop_texels(w, crop, w.width as int) == w.texels().map_values(|t: Texel| on_canvas(t)),
{
    let size = w.width as int;
    assert forall|d: int| 0 <= d < size * size implies #[trigger] crop_texels(w, crop, size)[d]
        == on_canvas(w.texels()[d]) by {
        lemma_square_place(size, d);
        law_wrap_is_remainder(d % size, size, bits);
        law_wrap_is_remainder(d / size, size, bits);
        vstd::arithmetic::div_mod::lemma_small_mod((d % size) as nat, size as nat);
        vstd::arithmetic::div_mod::lemma_small_mod((d / size) as nat, size as nat);
    }
    assert(crop_texels(w, crop, size) =~= w.texels().map_values(|t: Texel| on_canvas(t)));
}

} // verus!
