//! Looking at worlds: counts over their texels and grey-scale images.

use crate::text::{decimal, decimal_string};
use crate::world::{World, NUM_TERRAINS};
use vstd::prelude::*;
use vstd::string::StringExecFns;
use vstd::utf8::encode_utf8;

verus! {

/// Counts over the texels of a world.
pub struct Stats {
    /// Texels of double-level pairs.
    pub dual: u64,
    /// Those whose delta is zero.
    pub dual_zero_delta: u64,
    /// Sum of the lower heights.
    pub h0_sum: u64,
    /// Texels of each terrain type of the lower level.
    pub terrains: Vec<u64>,
}

/// The sum of the first `n` values.
pub open spec fn sum_of(values: Seq<u8>, n: int) -> int
    decreases n,
{
    if n <= 0 {
        0
    } else {
        sum_of(values, n - 1) + values[n - 1]
    }
}

/// How many of the first `n` places `holds` of.
pub open spec fn count_of(holds: spec_fn(int) -> bool, n: int) -> int
    decreases n,
{
    if n <= 0 {
        0
    } else {
        count_of(holds, n - 1) + (if holds(n - 1) {
            1int
        } else {
            0
        })
    }
}

/// A sum of bytes lies within its bounds.
proof fn lemma_sum_bound(values: Seq<u8>, n: int)
    requires
        0 <= n,
    ensures
        0 <= sum_of(values, n) <= 255 * n,
    decreases n,
{
    if n > 0 {
        lemma_sum_bound(values, n - 1);
    }
}

/// A count lies within its bounds.
proof fn lemma_count_bound(holds: spec_fn(int) -> bool, n: int)
    requires
        0 <= n,
    ensures
        0 <= count_of(holds, n) <= n,
    decreases n,
{
    if n > 0 {
        lemma_count_bound(holds, n - 1);
    }
}

/// Every texel has one terrain type: the counts of all types add up to the
/// number of texels.
pub proof fn law_terrains_add_up(m: Seq<u8>, n: int)
    requires
        0 <= n <= m.len(),
        forall|i: int| 0 <= i < m.len() ==> #[trigger] m[i] < NUM_TERRAINS,
    ensures
        terrain_count(m, 0, n) + terrain_count(m, 1, n) + terrain_count(m, 2, n) + terrain_count(
            m,
            3,
            n,
        ) + terrain_count(m, 4, n) + terrain_count(m, 5, n) + terrain_count(m, 6, n)
            + terrain_count(m, 7, n) == n,
    decreases n,
{
    if n > 0 {
        law_terrains_add_up(m, n - 1);
        assert(m[n - 1] < NUM_TERRAINS);
    }
}

/// How many of the first `n` places hold terrain type `t`.
pub open spec fn terrain_count(m: Seq<u8>, t: int, n: int) -> int {
    count_of(|i: int| m[i] == t, n)
}

/// How many of the first `n` texels are double-level ones with zero delta.
pub open spec fn zero_delta_count(dual: Seq<u8>, delta: Seq<u8>, n: int) -> int {
    count_of(|i: int| dual[i] != 0 && delta[i] == 0, n)
}

impl World {
    /// Counts over the texels.
    pub fn stats(&self) -> (s: Stats)
        requires
            self.wf(),
            255 * self.h0@.len() <= u64::MAX,
            forall|i: int| 0 <= i < self.m0@.len() ==> #[trigger] self.m0@[i] < NUM_TERRAINS,
        ensures
            s.dual == sum_of(self.dual@, self.dual@.len() as int),
            s.dual_zero_delta == zero_delta_count(
                self.dual@,
                self.delta@,
                self.dual@.len() as int,
            ),
            s.h0_sum == sum_of(self.h0@, self.h0@.len() as int),
            s.terrains@.len() == NUM_TERRAINS,
            forall|t: int|
                0 <= t < NUM_TERRAINS ==> #[trigger] s.terrains@[t] == terrain_count(
                    self.m0@,
                    t,
                    self.m0@.len() as int,
                ),
    {
        let total = self.h0.len();
        let mut s = Stats {
            dual: 0,
            dual_zero_delta: 0,
            h0_sum: 0,
            terrains: vec![0u64, 0, 0, 0, 0, 0, 0, 0],
        };
        let mut i: usize = 0;
        while i < total
            invariant
                self.wf(),
                total == self.h0@.len(),
                255 * total <= u64::MAX,
                forall|j: int| 0 <= j < total ==> #[trigger] self.m0@[j] < NUM_TERRAINS,
                i <= total,
                s.dual == sum_of(self.dual@, i as int),
                s.dual_zero_delta == zero_delta_count(self.dual@, self.delta@, i as int),
                s.h0_sum == sum_of(self.h0@, i as int),
                s.terrains@.len() == NUM_TERRAINS,
                forall|t: int|
                    0 <= t < NUM_TERRAINS ==> #[trigger] s.terrains@[t] == terrain_count(
                        self.m0@,
                        t,
                        i as int,
                    ),
            decreases total - i,
        {
            proof {
                lemma_sum_bound(self.dual@, i + 1);
                lemma_sum_bound(self.h0@, i + 1);
                lemma_count_bound(
                    |k: int| self.dual@[k] != 0 && self.delta@[k] == 0,
                    i + 1,
                );
                lemma_count_bound(|k: int| self.m0@[k] == self.m0@[i as int] as int, i + 1);
            }
            s.dual = s.dual + self.dual[i] as u64;
            if self.dual[i] != 0 && self.delta[i] == 0 {
                s.dual_zero_delta = s.dual_zero_delta + 1;
            }
            s.h0_sum = s.h0_sum + self.h0[i] as u64;
            let m = self.m0[i] as usize;
            let ghost before = s.terrains@;
            let count = s.terrains[m];
            assert(before[m as int] == terrain_count(self.m0@, m as int, i as int));
            s.terrains.set(m, count + 1);
            proof {
                assert forall|t: int| 0 <= t < NUM_TERRAINS implies #[trigger] s.terrains@[t]
                    == terrain_count(self.m0@, t, i + 1) by {
                    assert(before[t] == terrain_count(self.m0@, t, i as int));
                }
            }
            i = i + 1;
        }
        s
    }
}

/// The header of a square grey-scale image of the given side.
pub open spec fn pgm_header(side: nat) -> Seq<char> {
    "P5\n"@ + decimal(side) + " "@ + decimal(side) + "\n255\n"@
}

/// The bytes of a square grey-scale image: a header, then a byte per texel,
/// which `shade` makes out of its value.
pub fn pgm<T: Copy, S: Fn(T) -> u8>(side: usize, plane: &[T], shade: &S) -> (bytes: Vec<u8>)
    requires
        forall|v: T| call_requires(*shade, (v,)),
    ensures
        ({
            let header = encode_utf8(pgm_header(side as nat));
            &&& bytes@.len() == header.len() + plane@.len()
            &&& bytes@.take(header.len() as int) == header
            &&& forall|i: int|
                0 <= i < plane@.len() ==> call_ensures(
                    *shade,
                    (#[trigger] plane@[i],),
                    bytes@[header.len() + i],
                )
        }),
{
    let numeral = decimal_string(side as u64);
    let mut head = String::new();
    head.append("P5\n");
    head.append(numeral.as_str());
    head.append(" ");
    head.append(numeral.as_str());
    head.append("\n255\n");
    assert(head@ =~= pgm_header(side as nat));
    let header = head.as_str().as_bytes();
    let mut bytes: Vec<u8> = Vec::new();
    let mut i: usize = 0;
    while i < header.len()
        invariant
            i <= header@.len(),
            bytes@ == header@.take(i as int),
        decreases header@.len() - i,
    {
        bytes.push(header[i]);
        assert(bytes@ =~= header@.take(i + 1));
        i = i + 1;
    }
    let ghost n = header@.len() as int;
    assert(bytes@ =~= header@);
    let mut i: usize = 0;
    while i < plane.len()
        invariant
            i <= plane@.len(),
            n == header@.len(),
            bytes@.len() == n + i,
            bytes@.take(n) == header@,
            forall|v: T| call_requires(*shade, (v,)),
            forall|j: int|
                0 <= j < i ==> call_ensures(*shade, (#[trigger] plane@[j],), bytes@[n + j]),
        decreases plane@.len() - i,
    {
        let v = shade(plane[i]);
        let ghost before = bytes@;
        bytes.push(v);
        assert(bytes@.take(n) =~= before.take(n));
        i = i + 1;
    }
    bytes
}

/// A sum is what adding the values one by one gives.
pub proof fn law_sums(values: Seq<u8>, n: int)
    requires
        0 <= n <= values.len(),
    ensures
        sum_of(values, n) == values.take(n).fold_left(0int, |sum: int, v: u8| sum + v),
    decreases n,
{
    if n > 0 {
        law_sums(values, n - 1);
        assert(values.take(n).drop_last() =~= values.take(n - 1));
    }
}

/// What the counts over a world count: terrain types of the lower level, and
/// the double-level texels whose delta is zero.
pub proof fn law_what_is_counted(m: Seq<u8>, dual: Seq<u8>, delta: Seq<u8>, t: int, n: int)
    requires
        0 <= n,
    ensures
        Set::new(|i: int| 0 <= i < n && m[i] == t).finite(),
        terrain_count(m, t, n) == Set::new(|i: int| 0 <= i < n && m[i] == t).len(),
        Set::new(|i: int| 0 <= i < n && dual[i] != 0 && delta[i] == 0).finite(),
        zero_delta_count(dual, delta, n) == Set::new(
            |i: int| 0 <= i < n && dual[i] != 0 && delta[i] == 0,
        ).len(),
    decreases n,
{
    let of_type = Set::new(|i: int| 0 <= i < n && m[i] == t);
    let flat = Set::new(|i: int| 0 <= i < n && dual[i] != 0 && delta[i] == 0);
    if n > 0 {
        law_what_is_counted(m, dual, delta, t, n - 1);
        let before = Set::new(|i: int| 0 <= i < n - 1 && m[i] == t);
        if m[n - 1] == t {
            assert(of_type =~= before.insert(n - 1));
        } else {
            assert(of_type =~= before);
        }
        let before = Set::new(|i: int| 0 <= i < n - 1 && dual[i] != 0 && delta[i] == 0);
        if dual[n - 1] != 0 && delta[n - 1] == 0 {
            assert(flat =~= before.insert(n - 1));
        } else {
            assert(flat =~= before);
        }
    } else {
        assert(of_type =~= Set::<int>::empty());
        assert(flat =~= Set::<int>::empty());
    }
}

/// An image starts with its kind, its width, its height, which is the same, and
/// its full scale of 255, each on a line of its own but for the two sizes.
pub proof fn law_image_header(side: nat)
    ensures
        pgm_header(side) == seq!['P', '5', '\n'] + decimal(side) + seq![' '] + decimal(side) + seq![
            '\n',
            '2',
            '5',
            '5',
            '\n',
        ],
{
    reveal_strlit("P5\n");
    reveal_strlit(" ");
    reveal_strlit("\n255\n");
    assert("P5\n"@ =~= seq!['P', '5', '\n']);
    assert(" "@ =~= seq![' ']);
    assert("\n255\n"@ =~= seq!['\n', '2', '5', '5', '\n']);
}

} // verus!
