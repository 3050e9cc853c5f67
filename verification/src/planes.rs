//! Data laid out plane by plane: one plane of equal size per channel.

use vstd::prelude::*;

verus! {

/// Entry `d` of channel `c` of data whose planes have `plane` entries.
pub open spec fn chw<T>(data: Seq<T>, plane: int, c: int, d: int) -> T {
    data[c * plane + d]
}

/// An entry of a channel lies within the data.
pub proof fn lemma_chw_bound(channels: int, plane: int, c: int, d: int)
    requires
        0 <= c < channels,
        0 <= d < plane,
    ensures
        0 <= c * plane + d < channels * plane,
        c * plane + d + 1 <= channels * plane,
{
    assert(0 <= c * plane && c * plane + plane <= channels * plane) by (nonlinear_arith)
        requires
            0 <= c < channels,
            0 <= plane,
    ;
}

/// Different entries lie at different places.
pub proof fn lemma_chw_distinct(plane: int, c: int, d: int, e: int, f: int)
    requires
        0 <= d < plane,
        0 <= f < plane,
        c * plane + d == e * plane + f,
    ensures
        c == e,
        d == f,
{
    vstd::arithmetic::div_mod::lemma_fundamental_div_mod_converse(c * plane + d, plane, c, d);
    vstd::arithmetic::div_mod::lemma_fundamental_div_mod_converse(e * plane + f, plane, e, f);
}

/// A place within a square is given by its row and column.
pub proof fn lemma_square_place(size: int, d: int)
    requires
        0 <= size,
        0 <= d < size * size,
    ensures
        0 < size,
        0 <= d / size < size,
        0 <= d % size < size,
        (d / size) * size + d % size == d,
{
    assert(0 < size) by (nonlinear_arith)
        requires
            0 <= size,
            0 < size * size,
    ;
    vstd::arithmetic::div_mod::lemma_fundamental_div_mod(d, size);
    vstd::arithmetic::div_mod::lemma_mod_bound(d, size);
    assert(0 <= d / size < size) by (nonlinear_arith)
        requires
            0 < size,
            0 <= d < size * size,
            d == size * (d / size) + d % size,
            0 <= d % size < size,
    ;
    assert((d / size) * size == size * (d / size)) by (nonlinear_arith);
}

/// A place of a square by its row and column.
pub proof fn lemma_row_column(n: int, dx: int, dy: int)
    requires
        0 <= dx < n,
        0 <= dy < n,
    ensures
        (dy * n + dx) % n == dx,
        (dy * n + dx) / n == dy,
        0 <= dy * n + dx < n * n,
{
    lemma_chw_bound(n, n, dy, dx);
    vstd::arithmetic::div_mod::lemma_fundamental_div_mod_converse(dy * n + dx, n, dy, dx);
}

/// `n` times the same value.
pub(crate) fn filled<T: Copy>(n: usize, value: T) -> (v: Vec<T>)
    ensures
        v@.len() == n,
        forall|i: int| 0 <= i < n ==> #[trigger] v@[i] == value,
{
    let mut v: Vec<T> = Vec::new();
    while v.len() < n
        invariant
            v@.len() <= n,
            forall|i: int| 0 <= i < v@.len() ==> #[trigger] v@[i] == value,
        decreases n - v@.len(),
    {
        v.push(value);
    }
    v
}

/// `after` is `before` with each entry made by `f` out of itself and of the
/// entry of `other`, as far as that goes.
pub open spec fn zipped<T, F: Fn(T, T) -> T>(
    before: Seq<T>,
    other: Seq<T>,
    after: Seq<T>,
    f: F,
) -> bool {
    &&& after.len() == before.len()
    &&& forall|k: int|
        #![trigger after[k]]
        0 <= k < after.len() ==> if k < other.len() {
            call_ensures(f, (before[k], other[k]), after[k])
        } else {
            after[k] == before[k]
        }
}

} // verus!
