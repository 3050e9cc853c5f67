//! Checkpoints: named parameters and a step counter.
//!
//! A file is a map of the parameters and, behind it, a map of the same shape
//! for scalars, which holds the step counter. A map is the number of its
//! entries and, for each entry in the order of the names, the length of its
//! name in bytes, its name, its number of elements and its elements. Lengths
//! and elements are words of 4 bytes, lowest byte first. The entry of the step
//! counter is named `step`; its elements are the lower and the upper half of
//! the counter.

use crate::planes::zipped;
use crate::text::{follows, lemma_follows_total, lemma_follows_transitive, order, Order};
use vstd::prelude::*;
use vstd::utf8::{decode_utf8, encode_utf8, valid_utf8};

verus! {

/// Named parameters, in the order of their names.
pub struct Params<T> {
    pub entries: Vec<(String, Vec<T>)>,
}

/// A parameter: its name and its elements.
pub struct EntryView<T> {
    pub name: Seq<char>,
    pub data: Seq<T>,
}

/// What a list of parameters holds.
pub open spec fn entry_views<T>(entries: Seq<(String, Vec<T>)>) -> Seq<EntryView<T>> {
    Seq::new(
        entries.len(),
        |i: int| EntryView { name: entries[i].0@, data: entries[i].1@ },
    )
}

/// The elements of each name; of two parameters of one name the later counts.
pub open spec fn map_of<T>(entries: Seq<EntryView<T>>) -> Map<Seq<char>, Seq<T>>
    decreases entries.len(),
{
    if entries.len() == 0 {
        Map::empty()
    } else {
        map_of(entries.drop_last()).insert(entries.last().name, entries.last().data)
    }
}

/// Parameters come in the order of their names, and no name comes twice.
pub open spec fn ordered<T>(entries: Seq<EntryView<T>>) -> bool {
    forall|i: int, j: int|
        #![trigger entries[i], entries[j]]
        0 <= i < j < entries.len() ==> follows(entries[j].name, entries[i].name)
}

impl<T> Params<T> {
    /// The parameters are in order.
    pub open spec fn wf(&self) -> bool {
        ordered(entry_views(self.entries@))
    }
}

impl<T> View for Params<T> {
    type V = Map<Seq<char>, Seq<T>>;

    open spec fn view(&self) -> Map<Seq<char>, Seq<T>> {
        map_of(entry_views(self.entries@))
    }
}

/// A name has elements exactly where a parameter has it.
pub proof fn lemma_map_of<T>(entries: Seq<EntryView<T>>)
    requires
        ordered(entries),
    ensures
        forall|i: int|
            #![trigger entries[i]]
            0 <= i < entries.len() ==> map_of(entries).contains_key(entries[i].name) && map_of(
                entries,
            )[entries[i].name] == entries[i].data,
        forall|k: Seq<char>| #[trigger]
            map_of(entries).contains_key(k) ==> exists|i: int|
                0 <= i < entries.len() && #[trigger] entries[i].name == k,
    decreases entries.len(),
{
    if entries.len() > 0 {
        let rest = entries.drop_last();
        assert forall|i: int, j: int|
            #![trigger rest[i], rest[j]]
            0 <= i < j < rest.len() implies follows(rest[j].name, rest[i].name) by {
            assert(rest[i] == entries[i] && rest[j] == entries[j]);
        }
        lemma_map_of(rest);
        let last = entries.last();
        assert forall|i: int|
            #![trigger entries[i]]
            0 <= i < entries.len() implies map_of(entries).contains_key(entries[i].name) && map_of(
            entries,
        )[entries[i].name] == entries[i].data by {
            if i < entries.len() - 1 {
                assert(rest[i] == entries[i]);
                assert(follows(entries[entries.len() - 1].name, entries[i].name));
                lemma_follows_total(last.name, entries[i].name);
            }
        }
        assert forall|k: Seq<char>| #[trigger] map_of(entries).contains_key(k) implies exists|
            i: int,
        |
            0 <= i < entries.len() && #[trigger] entries[i].name == k by {
            if k == last.name {
                assert(entries[entries.len() - 1].name == k);
            } else {
                assert(map_of(rest).contains_key(k));
                let i = choose|i: int| 0 <= i < rest.len() && #[trigger] rest[i].name == k;
                assert(entries[i].name == k);
            }
        }
    }
}

impl<T> Params<T> {
    /// No parameters.
    pub fn new() -> (p: Params<T>)
        ensures
            p.wf(),
            p@ == Map::<Seq<char>, Seq<T>>::empty(),
            p.entries@.len() == 0,
    {
        let p = Params { entries: Vec::new() };
        assert(entry_views(p.entries@).len() == 0);
        p
    }

    /// Where a name stands or would stand: all before it are smaller, and it is
    /// no greater than the next.
    fn position(&self, name: &str) -> (r: (usize, bool))
        requires
            self.wf(),
        ensures
            r.0 <= self.entries@.len(),
            forall|i: int|
                #![trigger self.entries@[i]]
                0 <= i < r.0 ==> follows(name@, self.entries@[i].0@),
            r.1 ==> r.0 < self.entries@.len() && self.entries@[r.0 as int].0@ == name@,
            !r.1 ==> (forall|i: int|
                #![trigger self.entries@[i]]
                r.0 <= i < self.entries@.len() ==> follows(self.entries@[i].0@, name@)),
    {
        let ghost views = entry_views(self.entries@);
        let mut i: usize = 0;
        while i < self.entries.len()
            invariant
                self.wf(),
                views == entry_views(self.entries@),
                i <= self.entries@.len(),
                forall|j: int|
                    #![trigger self.entries@[j]]
                    0 <= j < i ==> follows(name@, self.entries@[j].0@),
            decreases self.entries@.len() - i,
        {
            match order(self.entries[i].0.as_str(), name) {
                Order::Before => {},
                Order::Same => {
                    return (i, true);
                },
                Order::After => {
                    proof {
                        assert forall|j: int|
                            #![trigger self.entries@[j]]
                            i <= j < self.entries@.len() implies follows(
                            self.entries@[j].0@,
                            name@,
                        ) by {
                            if j > i {
                                assert(follows(views[j].name, views[i as int].name));
                                lemma_follows_transitive(
                                    self.entries@[j].0@,
                                    self.entries@[i as int].0@,
                                    name@,
                                );
                            }
                        }
                    }
                    return (i, false);
                },
            }
            i = i + 1;
        }
        (i, false)
    }

    /// Gives a name its elements, in place of those that it had.
    pub fn insert(&mut self, name: String, data: Vec<T>)
        requires
            old(self).wf(),
        ensures
            final(self).wf(),
            final(self)@ == old(self)@.insert(name@, data@),
    {
        let (at, found) = self.position(name.as_str());
        let ghost before = entry_views(self.entries@);
        let ghost entry = EntryView { name: name@, data: data@ };
        if found {
            self.entries.set(at, (name, data));
            proof {
                let after = entry_views(self.entries@);
                assert(after =~= before.update(at as int, entry));
                assert(before[at as int].name == entry.name);
                assert(ordered(after)) by {
                    assert forall|i: int, j: int|
                        #![trigger after[i], after[j]]
                        0 <= i < j < after.len() implies follows(after[j].name, after[i].name) by {
                        assert(follows(before[j].name, before[i].name));
                    }
                }
                lemma_map_of(before);
                lemma_map_of(after);
                let wanted = map_of(before).insert(entry.name, entry.data);
                assert forall|k: Seq<char>| #[trigger] map_of(after).contains_key(k)
                    <==> wanted.contains_key(k) by {
                    if map_of(after).contains_key(k) {
                        let i = choose|i: int| 0 <= i < after.len() && #[trigger] after[i].name == k;
                        assert(before[i].name == k);
                    }
                    if wanted.contains_key(k) && k != entry.name {
                        let i = choose|i: int|
                            0 <= i < before.len() && #[trigger] before[i].name == k;
                        assert(after[i].name == k);
                    }
                    if k == entry.name {
                        assert(after[at as int].name == k);
                    }
                }
                assert forall|k: Seq<char>| #[trigger] map_of(after).contains_key(k) implies map_of(
                    after,
                )[k] == wanted[k] by {
                    let i = choose|i: int| 0 <= i < after.len() && #[trigger] after[i].name == k;
                    if i != at {
                        assert(before[i] == after[i]);
                        if i < at {
                            assert(follows(before[at as int].name, before[i].name));
                        } else {
                            assert(follows(before[i].name, before[at as int].name));
                        }
                        lemma_follows_total(k, entry.name);
                    }
                }
                assert(map_of(after) =~= wanted);
            }
        } else {
            self.entries.insert(at, (name, data));
            proof {
                let after = entry_views(self.entries@);
                assert(after =~= before.insert(at as int, entry));
                assert forall|i: int| 0 <= i < at implies follows(
                    entry.name,
                    (#[trigger] before[i]).name,
                ) by {
                    assert(old(self).entries@[i].0@ == before[i].name);
                }
                assert forall|i: int| at <= i < before.len() implies follows(
                    (#[trigger] before[i]).name,
                    entry.name,
                ) by {
                    assert(old(self).entries@[i].0@ == before[i].name);
                }
                assert(ordered(after)) by {
                    assert forall|i: int, j: int|
                        #![trigger after[i], after[j]]
                        0 <= i < j < after.len() implies follows(after[j].name, after[i].name) by {
                        let a = if i < at {
                            i
                        } else {
                            i - 1
                        };
                        let b = if j < at {
                            j
                        } else {
                            j - 1
                        };
                        if i == at {
                            assert(after[j] == before[j - 1]);
                        } else if j == at {
                            assert(after[i] == before[i]);
                        } else {
                            assert(after[i] == before[a] && after[j] == before[b]);
                            assert(follows(before[b].name, before[a].name));
                        }
                    }
                }
                lemma_map_of(before);
                lemma_map_of(after);
                let wanted = map_of(before).insert(entry.name, entry.data);
                assert(after[at as int] == entry);
                assert forall|k: Seq<char>| #[trigger] map_of(after).contains_key(k)
                    <==> wanted.contains_key(k) by {
                    if map_of(after).contains_key(k) {
                        let i = choose|i: int| 0 <= i < after.len() && #[trigger] after[i].name == k;
                        if i < at {
                            assert(before[i].name == k);
                        } else if i > at {
                            assert(before[i - 1].name == k);
                        }
                    }
                    if wanted.contains_key(k) && k != entry.name {
                        let i = choose|i: int|
                            0 <= i < before.len() && #[trigger] before[i].name == k;
                        if i < at {
                            assert(after[i].name == k);
                        } else {
                            assert(after[i + 1].name == k);
                        }
                    }
                }
                assert forall|k: Seq<char>| #[trigger] map_of(after).contains_key(k) implies map_of(
                    after,
                )[k] == wanted[k] by {
                    let i = choose|i: int| 0 <= i < after.len() && #[trigger] after[i].name == k;
                    if i < at {
                        assert(before[i] == after[i]);
                        lemma_follows_total(entry.name, k);
                    } else if i > at {
                        assert(before[i - 1] == after[i]);
                        lemma_follows_total(k, entry.name);
                    }
                }
                assert(map_of(after) =~= wanted);
            }
        }
    }

    /// The elements of a name.
    pub fn get(&self, name: &str) -> (r: Option<&Vec<T>>)
        requires
            self.wf(),
        ensures
            r is Some <==> self@.contains_key(name@),
            r matches Some(data) ==> data@ == self@[name@],
    {
        let (at, found) = self.position(name);
        proof {
            let views = entry_views(self.entries@);
            lemma_map_of(views);
            if found {
                assert(views[at as int].name == name@);
            } else if self@.contains_key(name@) {
                let i = choose|i: int| 0 <= i < views.len() && #[trigger] views[i].name == name@;
                assert(self.entries@[i].0@ == name@);
                lemma_follows_total(name@, name@);
            }
        }
        if found {
            Some(&self.entries[at].1)
        } else {
            None
        }
    }
}

/// Each parameter of `after` is that of `before` mixed with that of the same
/// name of `other`.
pub open spec fn mixed<T, F: Fn(T, T) -> T>(
    before: Map<Seq<char>, Seq<T>>,
    other: Map<Seq<char>, Seq<T>>,
    after: Map<Seq<char>, Seq<T>>,
    mix: F,
) -> bool {
    &&& after.dom() == before.dom()
    &&& forall|name: Seq<char>| #[trigger]
        before.contains_key(name) ==> zipped(before[name], other[name], after[name], mix)
}

/// The entries of `xs` mixed with those of `ys`, as far as both go.
fn mixed_entries<T: Copy, F: Fn(T, T) -> T>(xs: &Vec<T>, ys: &Vec<T>, mix: &F) -> (r: Vec<T>)
    requires
        forall|x: T, y: T| call_requires(*mix, (x, y)),
    ensures
        zipped(xs@, ys@, r@, *mix),
{
    let mut r: Vec<T> = Vec::new();
    let mut k: usize = 0;
    while k < xs.len()
        invariant
            k <= xs@.len(),
            r@.len() == k,
            forall|x: T, y: T| call_requires(*mix, (x, y)),
            forall|j: int|
                #![trigger r@[j]]
                0 <= j < k ==> if j < ys@.len() {
                    call_ensures(*mix, (xs@[j], ys@[j]), r@[j])
                } else {
                    r@[j] == xs@[j]
                },
        decreases xs@.len() - k,
    {
        if k < ys.len() {
            let value = mix(xs[k], ys[k]);
            r.push(value);
        } else {
            r.push(xs[k]);
        }
        k = k + 1;
    }
    r
}

impl<T: Copy> Params<T> {
    /// Mixes every parameter with that of the same name of `other`.
    pub fn mix_with<F: Fn(T, T) -> T>(&mut self, other: &Params<T>, mix: &F)
        requires
            old(self).wf(),
            other.wf(),
            forall|name: Seq<char>| #[trigger]
                old(self)@.contains_key(name) ==> other@.contains_key(name),
            forall|x: T, y: T| call_requires(*mix, (x, y)),
        ensures
            final(self).wf(),
            mixed(old(self)@, other@, final(self)@, *mix),
    {
        let ghost before = entry_views(self.entries@);
        let ghost held = self@;
        proof {
            lemma_map_of(before);
        }
        let mut i: usize = 0;
        while i < self.entries.len()
            invariant
                i <= self.entries@.len(),
                before.len() == self.entries@.len(),
                ordered(before),
                held == map_of(before),
                other.wf(),
                forall|name: Seq<char>| #[trigger]
                    held.contains_key(name) ==> other@.contains_key(name),
                forall|j: int|
                    #![trigger before[j]]
                    0 <= j < before.len() ==> held.contains_key(before[j].name),
                forall|x: T, y: T| call_requires(*mix, (x, y)),
                forall|j: int|
                    #![trigger self.entries@[j]]
                    0 <= j < before.len() ==> self.entries@[j].0@ == before[j].name && if j < i {
                        zipped(before[j].data, other@[before[j].name], self.entries@[j].1@, *mix)
                    } else {
                        self.entries@[j].1@ == before[j].data
                    },
            decreases self.entries@.len() - i,
        {
            let name = self.entries[i].0.clone();
            assert(held.contains_key(before[i as int].name));
            if let Some(data) = other.get(name.as_str()) {
                let entry = mixed_entries(&self.entries[i].1, data, mix);
                self.entries.set(i, (name, entry));
            }
            i = i + 1;
        }
        proof {
            let after = entry_views(self.entries@);
            assert forall|j: int| 0 <= j < before.len() implies (#[trigger] after[j]).name
                == before[j].name && zipped(
                before[j].data,
                other@[before[j].name],
                after[j].data,
                *mix,
            ) by {
                assert(self.entries@[j].0@ == before[j].name);
            }
            assert forall|j: int, k: int|
                #![trigger after[j], after[k]]
                0 <= j < k < after.len() implies follows(after[k].name, after[j].name) by {
                assert(follows(before[k].name, before[j].name));
            }
            lemma_map_of(after);
            assert forall|name: Seq<char>| #[trigger] held.contains_key(name) implies map_of(
                after,
            ).contains_key(name) && zipped(
                held[name],
                other@[name],
                map_of(after)[name],
                *mix,
            ) by {
                let j = choose|j: int| 0 <= j < before.len() && #[trigger] before[j].name == name;
                assert(after[j].name == name);
            }
            assert forall|name: Seq<char>| #[trigger]
                map_of(after).contains_key(name) implies held.contains_key(name) by {
                let j = choose|j: int| 0 <= j < after.len() && #[trigger] after[j].name == name;
                assert(before[j].name == name);
            }
            assert(map_of(after).dom() =~= held.dom());
        }
    }
}

/// The `n` lowest bytes of a number, lowest first.
pub open spec fn le(x: nat, n: nat) -> Seq<u8>
    decreases n,
{
    if n == 0 {
        Seq::empty()
    } else {
        seq![(x % 256) as u8] + le(x / 256, (n - 1) as nat)
    }
}

/// The number that some bytes stand for, lowest first.
pub open spec fn le_value(b: Seq<u8>) -> nat
    decreases b.len(),
{
    if b.len() == 0 {
        0
    } else {
        b[0] as nat + 256 * le_value(b.drop_first())
    }
}

/// How many numbers `n` bytes can stand for.
pub open spec fn le_bound(n: nat) -> nat
    decreases n,
{
    if n == 0 {
        1
    } else {
        256 * le_bound((n - 1) as nat)
    }
}

/// A number has as many bytes as asked for.
proof fn lemma_le_len(x: nat, n: nat)
    ensures
        le(x, n).len() == n,
    decreases n,
{
    if n > 0 {
        lemma_le_len(x / 256, (n - 1) as nat);
    }
}

/// The bytes of a number stand for it.
proof fn lemma_le_roundtrip(x: nat, n: nat)
    requires
        x < le_bound(n),
    ensures
        le_value(le(x, n)) == x,
        le(x, n).len() == n,
    decreases n,
{
    lemma_le_len(x, n);
    if n > 0 {
        lemma_le_roundtrip(x / 256, (n - 1) as nat);
        assert(le(x, n).drop_first() =~= le(x / 256, (n - 1) as nat));
    }
}

/// The bound of the stored numbers.
proof fn lemma_le_bounds()
    ensures
        le_bound(4) == 0x1_0000_0000,
{
    reveal_with_fuel(le_bound, 9);
}

/// The bytes of some words.
pub open spec fn words(data: Seq<u32>) -> Seq<u8> {
    Seq::new(4 * data.len(), |k: int| le(data[k / 4] as nat, 4)[k % 4])
}

/// The words that some bytes stand for.
pub open spec fn words_value(b: Seq<u8>) -> Seq<u32> {
    Seq::new(b.len() / 4, |i: int| le_value(b.subrange(4 * i, 4 * i + 4)) as u32)
}

/// The bytes of a parameter.
pub open spec fn encoded_entry(e: EntryView<u32>) -> Seq<u8> {
    le(encode_utf8(e.name).len(), 4) + encode_utf8(e.name) + le(e.data.len(), 4) + words(e.data)
}

/// The bytes of some parameters.
pub open spec fn encoded_entries(entries: Seq<EntryView<u32>>) -> Seq<u8>
    decreases entries.len(),
{
    if entries.len() == 0 {
        Seq::empty()
    } else {
        encoded_entries(entries.drop_last()) + encoded_entry(entries.last())
    }
}

/// The bytes of a map.
pub open spec fn encoded_map(entries: Seq<EntryView<u32>>) -> Seq<u8> {
    le(entries.len(), 4) + encoded_entries(entries)
}

/// The step counter as an entry.
pub open spec fn step_entry(step: u64) -> EntryView<u32> {
    EntryView {
        name: "step"@,
        data: seq![(step as int % 0x1_0000_0000) as u32, (step as int / 0x1_0000_0000) as u32],
    }
}

/// The bytes of a checkpoint.
pub open spec fn encoded(entries: Seq<EntryView<u32>>, step: u64) -> Seq<u8> {
    encoded_map(entries) + encoded_map(seq![step_entry(step)])
}

/// Appends the `n` lowest bytes of a number, lowest first.
fn put_le(out: &mut Vec<u8>, x: u64, n: usize)
    ensures
        final(out)@ == old(out)@ + le(x as nat, n as nat),
{
    let ghost start = out@;
    let mut rest: u64 = x;
    let mut i: usize = 0;
    assert(out@ + le(x as nat, n as nat) =~= start + le(x as nat, n as nat));
    while i < n
        invariant
            i <= n,
            out@ + le(rest as nat, (n - i) as nat) == start + le(x as nat, n as nat),
        decreases n - i,
    {
        let byte: u8 = (rest % 256) as u8;
        let ghost before = out@;
        out.push(byte);
        proof {
            let tail = le(rest as nat / 256, (n - i - 1) as nat);
            assert(before + (seq![byte] + tail) =~= out@ + tail);
        }
        rest = rest / 256;
        i = i + 1;
    }
    assert(out@ + le(rest as nat, 0) =~= out@);
}

/// Appends some bytes.
fn put_bytes(out: &mut Vec<u8>, bytes: &[u8])
    ensures
        final(out)@ == old(out)@ + bytes@,
{
    let ghost start = out@;
    let mut i: usize = 0;
    assert(out@ =~= start + bytes@.take(0));
    while i < bytes.len()
        invariant
            i <= bytes@.len(),
            out@ == start + bytes@.take(i as int),
        decreases bytes@.len() - i,
    {
        out.push(bytes[i]);
        assert(out@ =~= start + bytes@.take(i + 1));
        i = i + 1;
    }
    assert(bytes@.take(bytes@.len() as int) =~= bytes@);
}

/// Appends the bytes of some words.
fn put_words(out: &mut Vec<u8>, data: &Vec<u32>)
    ensures
        final(out)@ == old(out)@ + words(data@),
{
    let ghost start = out@;
    let mut i: usize = 0;
    assert(out@ =~= start + words(data@).take(0));
    while i < data.len()
        invariant
            i <= data@.len(),
            out@ == start + words(data@).take(4 * i),
        decreases data@.len() - i,
    {
        put_le(out, data[i] as u64, 4);
        proof {
            let all = words(data@);
            let word = le(data@[i as int] as nat, 4);
            lemma_le_len(data@[i as int] as nat, 4);
            assert forall|k: int| 4 * i <= k < 4 * i + 4 implies #[trigger] all[k] == word[k - 4
                * i] by {
                assert(k / 4 == i && k % 4 == k - 4 * i);
            }
            assert(all.take(4 * i) + word =~= all.take(4 * (i + 1)));
            assert(out@ =~= start + all.take(4 * (i + 1)));
        }
        i = i + 1;
    }
    assert(words(data@).take(4 * data@.len() as int) =~= words(data@));
}

/// Appends the bytes of an entry.
fn put_entry(out: &mut Vec<u8>, name: &str, data: &Vec<u32>)
    ensures
        final(out)@ == old(out)@ + encoded_entry(EntryView { name: name@, data: data@ }),
{
    let ghost before = out@;
    let name_bytes = name.as_bytes();
    put_le(out, name_bytes.len() as u64, 4);
    put_bytes(out, name_bytes);
    put_le(out, data.len() as u64, 4);
    put_words(out, data);
    assert(out@ =~= before + encoded_entry(EntryView { name: name@, data: data@ }));
}

/// The bytes of a checkpoint.
pub fn encode(params: &Params<u32>, step: u64) -> (bytes: Vec<u8>)
    ensures
        bytes@ == encoded(entry_views(params.entries@), step),
{
    let ghost views = entry_views(params.entries@);
    let mut out: Vec<u8> = Vec::new();
    put_le(&mut out, params.entries.len() as u64, 4);
    let ghost head = le(views.len(), 4);
    assert(out@ =~= head + encoded_entries(views.take(0)));
    let mut i: usize = 0;
    while i < params.entries.len()
        invariant
            i <= params.entries@.len(),
            views == entry_views(params.entries@),
            out@ == head + encoded_entries(views.take(i as int)),
        decreases params.entries@.len() - i,
    {
        put_entry(&mut out, params.entries[i].0.as_str(), &params.entries[i].1);
        proof {
            let e = views[i as int];
            assert(views.take(i + 1).drop_last() =~= views.take(i as int));
            assert(views.take(i + 1).last() == e);
            assert(out@ =~= head + (encoded_entries(views.take(i as int)) + encoded_entry(e)));
        }
        i = i + 1;
    }
    assert(views.take(views.len() as int) =~= views);
    let ghost body = out@;
    put_le(&mut out, 1, 4);
    let halves = vec![(step % 0x1_0000_0000) as u32, (step / 0x1_0000_0000) as u32];
    put_entry(&mut out, "step", &halves);
    proof {
        let meta = seq![step_entry(step)];
        assert(halves@ =~= step_entry(step).data);
        assert(encoded_entries(meta.drop_last()) =~= Seq::empty());
        assert(encoded_entries(meta) =~= encoded_entry(step_entry(step)));
        assert(out@ =~= body + encoded_map(meta));
    }
    out
}

/// Why some bytes are no checkpoint.
#[derive(Copy, Clone, Debug, PartialEq, Eq, Structural)]
pub enum LoadError {
    /// They end too early.
    UnexpectedEof,
    /// A name is not UTF-8.
    BadName,
    /// The scalars hold no step counter.
    NoStep,
}

/// The parameter at a position, and where it ends.
pub open spec fn entry_at(b: Seq<u8>, at: int) -> Result<(EntryView<u32>, int), LoadError> {
    let name_at = at + 4;
    let name_len = le_value(b.subrange(at, name_at)) as int;
    let count_at = name_at + name_len;
    let data_at = count_at + 4;
    let count = le_value(b.subrange(count_at, data_at)) as int;
    let end = data_at + 4 * count;
    if name_at > b.len() || count_at > b.len() || data_at > b.len() || end > b.len() {
        Err(LoadError::UnexpectedEof)
    } else if !valid_utf8(b.subrange(name_at, count_at)) {
        Err(LoadError::BadName)
    } else {
        Ok(
            (
                EntryView {
                    name: decode_utf8(b.subrange(name_at, count_at)),
                    data: words_value(b.subrange(data_at, end)),
                },
                end,
            ),
        )
    }
}

/// The `n` entries from a position on, and where they end.
pub open spec fn entries_at(b: Seq<u8>, at: int, n: nat) -> Result<
    (Seq<EntryView<u32>>, int),
    LoadError,
>
    decreases n,
{
    if n == 0 {
        Ok((Seq::empty(), at))
    } else {
        match entry_at(b, at) {
            Err(e) => Err(e),
            Ok((first, next)) => after(seq![first], entries_at(b, next, (n - 1) as nat)),
        }
    }
}

/// Entries after those that came first.
pub open spec fn after(
    first: Seq<EntryView<u32>>,
    rest: Result<(Seq<EntryView<u32>>, int), LoadError>,
) -> Result<(Seq<EntryView<u32>>, int), LoadError> {
    match rest {
        Err(e) => Err(e),
        Ok((entries, end)) => Ok((first + entries, end)),
    }
}

/// The entries of the map at a position, and where it ends.
pub open spec fn map_at(b: Seq<u8>, at: int) -> Result<(Seq<EntryView<u32>>, int), LoadError> {
    if at + 4 > b.len() {
        Err(LoadError::UnexpectedEof)
    } else {
        entries_at(b, at + 4, le_value(b.subrange(at, at + 4)))
    }
}

/// The step counter that some scalars hold.
pub open spec fn step_of(scalars: Map<Seq<char>, Seq<u32>>) -> Option<u64> {
    if scalars.contains_key("step"@) && scalars["step"@].len() == 2 {
        Some((scalars["step"@][0] + scalars["step"@][1] * 0x1_0000_0000) as u64)
    } else {
        None
    }
}

/// The parameters and the step that some bytes hold. What follows them does
/// not matter.
pub open spec fn decoded(b: Seq<u8>) -> Result<(Seq<EntryView<u32>>, u64), LoadError> {
    match map_at(b, 0) {
        Err(e) => Err(e),
        Ok((entries, next)) => match map_at(b, next) {
            Err(e) => Err(e),
            Ok((scalars, end)) => match step_of(map_of(scalars)) {
                None => Err(LoadError::NoStep),
                Some(step) => Ok((entries, step)),
            },
        },
    }
}

/// `String::from_utf8`: the text that some bytes encode, or none where they
/// are not UTF-8.
#[verifier::external_body]
fn string_from_utf8(bytes: Vec<u8>) -> (r: Option<String>)
    ensures
        r is Some <==> valid_utf8(bytes@),
        r matches Some(s) ==> s@ == decode_utf8(bytes@),
{
    String::from_utf8(bytes).ok()
}

/// The number that `n` bytes stand for, lowest first.
fn get_le(bytes: &[u8], at: usize, n: usize) -> (x: u64)
    requires
        n <= 8,
        at + n <= bytes@.len(),
    ensures
        x == le_value(bytes@.subrange(at as int, at + n)),
        x < le_bound(n as nat),
{
    let mut x: u64 = 0;
    let mut i: usize = n;
    while i > 0
        invariant
            i <= n <= 8,
            at + n <= bytes@.len(),
            x == le_value(bytes@.subrange(at + i, at + n)),
            x < le_bound((n - i) as nat),
        decreases i,
    {
        i = i - 1;
        assert(bytes.len() == bytes@.len());
        proof {
            reveal_with_fuel(le_bound, 9);
            let part = bytes@.subrange(at + i, at + n);
            assert(part.drop_first() =~= bytes@.subrange(at + i + 1, at + n));
        }
        x = x * 256 + bytes[at + i] as u64;
    }
    x
}

/// Some of the bytes.
fn copy_bytes(bytes: &[u8], from: usize, to: usize) -> (r: Vec<u8>)
    requires
        from <= to <= bytes@.len(),
    ensures
        r@ == bytes@.subrange(from as int, to as int),
{
    let mut r: Vec<u8> = Vec::new();
    let mut i: usize = from;
    while i < to
        invariant
            from <= i <= to <= bytes@.len(),
            r@ == bytes@.subrange(from as int, i as int),
        decreases to - i,
    {
        r.push(bytes[i]);
        assert(r@ =~= bytes@.subrange(from as int, i + 1));
        i = i + 1;
    }
    r
}

/// The `count` words from a position on.
fn get_words(bytes: &[u8], at: usize, count: usize) -> (data: Vec<u32>)
    requires
        at + 4 * count <= bytes@.len(),
    ensures
        data@ == words_value(bytes@.subrange(at as int, at + 4 * count)),
{
    let ghost part = bytes@.subrange(at as int, at + 4 * count);
    let mut data: Vec<u32> = Vec::new();
    let mut i: usize = 0;
    while i < count
        invariant
            i <= count,
            at + 4 * count <= bytes@.len(),
            part == bytes@.subrange(at as int, at + 4 * count),
            data@.len() == i,
            forall|j: int| 0 <= j < i ==> #[trigger] data@[j] == words_value(part)[j],
        decreases count - i,
    {
        assert(bytes.len() == bytes@.len());
        proof {
            lemma_le_bounds();
            assert(part.subrange(4 * i, 4 * i + 4) =~= bytes@.subrange(at + 4 * i, at + 4 * i + 4));
        }
        let word = get_le(bytes, at + 4 * i, 4);
        data.push(word as u32);
        i = i + 1;
    }
    assert(data@ =~= words_value(part));
    data
}

/// The parameter at a position, and where it ends.
fn get_entry(bytes: &[u8], at: usize) -> (r: Result<(String, Vec<u32>, usize), LoadError>)
    requires
        at <= bytes@.len(),
    ensures
        match r {
            Ok((name, data, end)) => entry_at(bytes@, at as int) == Ok::<_, LoadError>(
                (EntryView { name: name@, data: data@ }, end as int),
            ) && end <= bytes@.len(),
            Err(e) => entry_at(bytes@, at as int) == Err::<(EntryView<u32>, int), _>(e),
        },
{
    let len = bytes.len();
    proof {
        lemma_le_bounds();
    }
    if len - at < 4 {
        return Err(LoadError::UnexpectedEof);
    }
    let name_at: usize = at + 4;
    let name_len = get_le(bytes, at, 4) as usize;
    if len - name_at < name_len {
        return Err(LoadError::UnexpectedEof);
    }
    let count_at: usize = name_at + name_len;
    if len - count_at < 4 {
        return Err(LoadError::UnexpectedEof);
    }
    let data_at: usize = count_at + 4;
    let count = get_le(bytes, count_at, 4) as usize;
    if (len - data_at) / 4 < count {
        return Err(LoadError::UnexpectedEof);
    }
    let name = string_from_utf8(copy_bytes(bytes, name_at, count_at));
    match name {
        None => Err(LoadError::BadName),
        Some(name) => {
            let data = get_words(bytes, data_at, count);
            Ok((name, data, data_at + 4 * count))
        },
    }
}

/// The map at a position, and where it ends. Of two entries of one name the
/// later counts.
fn get_map(bytes: &[u8], start: usize) -> (r: Result<(Params<u32>, usize), LoadError>)
    requires
        start <= bytes@.len(),
    ensures
        match r {
            Ok((params, end)) => {
                &&& params.wf()
                &&& end <= bytes@.len()
                &&& map_at(bytes@, start as int) matches Ok((entries, e)) && params@ == map_of(
                    entries,
                ) && end == e
            },
            Err(e) => map_at(bytes@, start as int) == Err::<(Seq<EntryView<u32>>, int), _>(e),
        },
{
    if bytes.len() - start < 4 {
        return Err(LoadError::UnexpectedEof);
    }
    proof {
        lemma_le_bounds();
    }
    let n = get_le(bytes, start, 4);
    let mut params: Params<u32> = Params::new();
    let ghost mut done: Seq<EntryView<u32>> = Seq::empty();
    let ghost all = entries_at(bytes@, start + 4, n as nat);
    proof {
        if all is Ok {
            assert(done + all->Ok_0.0 =~= all->Ok_0.0);
        }
    }
    let mut at: usize = start + 4;
    let mut k: u64 = 0;
    while k < n
        invariant
            k <= n,
            at <= bytes@.len(),
            start + 4 <= bytes@.len(),
            all == entries_at(bytes@, start + 4, n as nat),
            all == after(done, entries_at(bytes@, at as int, (n - k) as nat)),
            params.wf(),
            params@ == map_of(done),
            n == le_value(bytes@.subrange(start as int, start + 4)),
        decreases n - k,
    {
        match get_entry(bytes, at) {
            Err(e) => {
                return Err(e);
            },
            Ok((name, data, next)) => {
                proof {
                    let e = EntryView { name: name@, data: data@ };
                    let rest = entries_at(bytes@, next as int, (n - k - 1) as nat);
                    if rest is Ok {
                        assert(done + (seq![e] + rest->Ok_0.0) =~= done.push(e) + rest->Ok_0.0);
                    }
                    assert(done.push(e).drop_last() =~= done);
                    done = done.push(e);
                }
                params.insert(name, data);
                at = next;
            },
        }
        k = k + 1;
    }
    proof {
        assert(done + Seq::<EntryView<u32>>::empty() =~= done);
    }
    Ok((params, at))
}

/// The step counter that some scalars hold.
fn find_step(scalars: &Params<u32>) -> (r: Option<u64>)
    requires
        scalars.wf(),
    ensures
        r == step_of(scalars@),
{
    match scalars.get("step") {
        Some(halves) => {
            if halves.len() == 2 {
                Some(halves[0] as u64 + halves[1] as u64 * 0x1_0000_0000)
            } else {
                None
            }
        },
        None => None,
    }
}

/// The parameters and the step of a checkpoint. Of two parameters of one name
/// the later counts.
pub fn decode(bytes: &[u8]) -> (r: Result<(Params<u32>, u64), LoadError>)
    ensures
        match r {
            Ok((params, step)) => params.wf() && (decoded(bytes@) matches Ok((entries, s))
                && params@ == map_of(entries) && step == s),
            Err(e) => decoded(bytes@) == Err::<(Seq<EntryView<u32>>, u64), _>(e),
        },
{
    let (params, next) = match get_map(bytes, 0) {
        Ok(map) => map,
        Err(e) => {
            return Err(e);
        },
    };
    let (scalars, _end) = match get_map(bytes, next) {
        Ok(map) => map,
        Err(e) => {
            return Err(e);
        },
    };
    match find_step(&scalars) {
        None => Err(LoadError::NoStep),
        Some(step) => Ok((params, step)),
    }
}

/// The lengths of a parameter fit the words that they are stored in.
pub open spec fn storable(e: EntryView<u32>) -> bool {
    &&& encode_utf8(e.name).len() < 0x1_0000_0000
    &&& e.data.len() < 0x1_0000_0000
}

/// The bytes of some words stand for them.
proof fn lemma_words_roundtrip(data: Seq<u32>)
    ensures
        words_value(words(data)) == data,
{
    let b = words(data);
    assert forall|i: int| 0 <= i < data.len() implies #[trigger] words_value(b)[i] == data[i] by {
        let part = b.subrange(4 * i, 4 * i + 4);
        let word = le(data[i] as nat, 4);
        lemma_le_bounds();
        lemma_le_roundtrip(data[i] as nat, 4);
        assert forall|k: int| 0 <= k < 4 implies #[trigger] part[k] == word[k] by {
            assert((4 * i + k) / 4 == i && (4 * i + k) % 4 == k);
        }
        assert(part =~= word);
    }
    assert(words_value(b) =~= data);
}

/// Where a whole stands, its parts stand too.
proof fn lemma_part(b: Seq<u8>, at: int, whole: Seq<u8>, from: int, to: int)
    requires
        0 <= at,
        0 <= from <= to <= whole.len(),
        at + whole.len() <= b.len(),
        b.subrange(at, at + whole.len()) == whole,
    ensures
        b.subrange(at + from, at + to) == whole.subrange(from, to),
{
    assert(b.subrange(at + from, at + to) =~= b.subrange(at, at + whole.len()).subrange(from, to));
}

/// The parts of the bytes of a parameter.
proof fn lemma_entry_parts(e: EntryView<u32>)
    ensures
        ({
            let bytes = encoded_entry(e);
            let n = encode_utf8(e.name).len() as int;
            let m = e.data.len() as int;
            &&& bytes.len() == 8 + n + 4 * m
            &&& bytes.subrange(0, 4) == le(n as nat, 4)
            &&& bytes.subrange(4, 4 + n) == encode_utf8(e.name)
            &&& bytes.subrange(4 + n, 8 + n) == le(m as nat, 4)
            &&& bytes.subrange(8 + n, 8 + n + 4 * m) == words(e.data)
        }),
{
    let bytes = encoded_entry(e);
    let n = encode_utf8(e.name).len() as int;
    let m = e.data.len() as int;
    lemma_le_len(n as nat, 4);
    lemma_le_len(m as nat, 4);
    assert(bytes.subrange(0, 4) =~= le(n as nat, 4));
    assert(bytes.subrange(4, 4 + n) =~= encode_utf8(e.name));
    assert(bytes.subrange(4 + n, 8 + n) =~= le(m as nat, 4));
    assert(bytes.subrange(8 + n, 8 + n + 4 * m) =~= words(e.data));
}

/// A parameter is read back from where its bytes stand.
proof fn lemma_entry_roundtrip(b: Seq<u8>, at: int, e: EntryView<u32>)
    requires
        0 <= at,
        at + encoded_entry(e).len() <= b.len(),
        b.subrange(at, at + encoded_entry(e).len()) == encoded_entry(e),
        storable(e),
    ensures
        entry_at(b, at) == Ok::<_, LoadError>((e, at + encoded_entry(e).len())),
{
    let bytes = encoded_entry(e);
    let n = encode_utf8(e.name).len() as int;
    let m = e.data.len() as int;
    lemma_le_bounds();
    lemma_le_roundtrip(n as nat, 4);
    lemma_le_roundtrip(m as nat, 4);
    lemma_words_roundtrip(e.data);
    lemma_entry_parts(e);
    lemma_part(b, at, bytes, 0, 4);
    lemma_part(b, at, bytes, 4, 4 + n);
    lemma_part(b, at, bytes, 4 + n, 8 + n);
    lemma_part(b, at, bytes, 8 + n, 8 + n + 4 * m);
    vstd::utf8::encode_utf8_valid_utf8(e.name);
    vstd::utf8::encode_utf8_decode_utf8(e.name);
    assert(at + (4 + n) == at + 4 + n && at + (8 + n) == at + 4 + n + 4 && at + (8 + n + 4 * m)
        == at + 4 + n + 4 + 4 * m);
}

/// The bytes of some parameters start with those of the first.
proof fn lemma_entries_front(entries: Seq<EntryView<u32>>)
    requires
        entries.len() > 0,
    ensures
        encoded_entries(entries) == encoded_entry(entries[0]) + encoded_entries(
            entries.drop_first(),
        ),
    decreases entries.len(),
{
    let rest = entries.drop_first();
    if entries.len() == 1 {
        assert(encoded_entries(entries.drop_last()) =~= Seq::empty());
        assert(encoded_entries(rest) =~= Seq::empty());
        assert(entries.last() == entries[0]);
        assert(encoded_entries(entries) =~= encoded_entry(entries[0]) + encoded_entries(rest));
    } else {
        let init = entries.drop_last();
        lemma_entries_front(init);
        assert(init.drop_first() =~= rest.drop_last());
        assert(init[0] == entries[0]);
        assert(rest.last() == entries.last());
        assert(encoded_entries(entries) =~= encoded_entry(entries[0]) + encoded_entries(rest));
    }
}

/// Some parameters are read back from where their bytes stand.
proof fn lemma_entries_roundtrip(b: Seq<u8>, at: int, entries: Seq<EntryView<u32>>)
    requires
        0 <= at,
        at + encoded_entries(entries).len() <= b.len(),
        b.subrange(at, at + encoded_entries(entries).len()) == encoded_entries(entries),
        forall|i: int| 0 <= i < entries.len() ==> storable(#[trigger] entries[i]),
    ensures
        entries_at(b, at, entries.len()) == Ok::<_, LoadError>(
            (entries, at + encoded_entries(entries).len()),
        ),
    decreases entries.len(),
{
    if entries.len() == 0 {
        assert(entries =~= Seq::empty());
    } else {
        let e = entries[0];
        let rest = entries.drop_first();
        lemma_entries_front(entries);
        let all = encoded_entries(entries);
        let first = encoded_entry(e);
        let tail = encoded_entries(rest);
        assert(all =~= first + tail);
        assert(b.subrange(at, at + first.len()) =~= first) by {
            assert forall|k: int| 0 <= k < first.len() implies b[at + k] == #[trigger] first[k] by {
                assert(b.subrange(at, at + all.len())[k] == all[k]);
            }
        }
        let next = at + first.len();
        assert(b.subrange(next, next + tail.len()) =~= tail) by {
            assert forall|k: int| 0 <= k < tail.len() implies b[next + k] == #[trigger] tail[k] by {
                assert(b.subrange(at, at + all.len())[first.len() + k] == all[first.len() + k]);
            }
        }
        lemma_entry_roundtrip(b, at, e);
        assert forall|i: int| 0 <= i < rest.len() implies storable(#[trigger] rest[i]) by {
            assert(rest[i] == entries[i + 1]);
        }
        lemma_entries_roundtrip(b, next, rest);
        assert(seq![e] + rest =~= entries);
        assert(next + tail.len() == at + all.len());
    }
}

/// A map is read back from where its bytes stand.
proof fn lemma_map_roundtrip(b: Seq<u8>, at: int, entries: Seq<EntryView<u32>>)
    requires
        0 <= at,
        entries.len() < 0x1_0000_0000,
        at + encoded_map(entries).len() <= b.len(),
        b.subrange(at, at + encoded_map(entries).len()) == encoded_map(entries),
        forall|i: int| 0 <= i < entries.len() ==> storable(#[trigger] entries[i]),
    ensures
        map_at(b, at) == Ok::<_, LoadError>((entries, at + encoded_map(entries).len())),
{
    let whole = encoded_map(entries);
    let n = le(entries.len(), 4);
    let tail = encoded_entries(entries);
    lemma_le_bounds();
    lemma_le_roundtrip(entries.len(), 4);
    lemma_part(b, at, whole, 0, 4);
    lemma_part(b, at, whole, 4, whole.len() as int);
    assert(whole.subrange(0, 4) =~= n);
    assert(whole.subrange(4, whole.len() as int) =~= tail);
    lemma_entries_roundtrip(b, at + 4, entries);
}

/// What was saved is what is loaded: the bytes of a checkpoint hold its
/// parameters and its step, whatever bytes follow them.
pub proof fn law_load_undoes_save(entries: Seq<EntryView<u32>>, step: u64, more: Seq<u8>)
    requires
        entries.len() < 0x1_0000_0000,
        forall|i: int| 0 <= i < entries.len() ==> storable(#[trigger] entries[i]),
    ensures
        decoded(encoded(entries, step) + more) == Ok::<_, LoadError>((entries, step)),
{
    let b = encoded(entries, step) + more;
    let first = encoded_map(entries);
    let e = step_entry(step);
    let meta = seq![e];
    let second = encoded_map(meta);
    reveal_strlit("step");
    assert(vstd::utf8::is_ascii_chars("step"@));
    vstd::utf8::is_ascii_chars_encode_utf8("step"@);
    assert(storable(e));
    assert(b.subrange(0, 0int + first.len()) =~= first);
    let next = first.len() as int;
    assert(b.subrange(next, next + second.len()) =~= second);
    lemma_map_roundtrip(b, 0, entries);
    lemma_map_roundtrip(b, next, meta);
    assert(map_of(meta.drop_last()) == Map::<Seq<char>, Seq<u32>>::empty());
    assert(map_of(meta)["step"@] == e.data);
    assert(step == step as int % 0x1_0000_0000 + (step as int / 0x1_0000_0000) * 0x1_0000_0000);
}

/// Parameters in order are given by what they hold: there is one list of them,
/// and so one file.
pub proof fn law_order_is_canonical<T>(a: Seq<EntryView<T>>, b: Seq<EntryView<T>>)
    requires
        ordered(a),
        ordered(b),
        map_of(a) == map_of(b),
    ensures
        a == b,
    decreases a.len(),
{
    lemma_map_of(a);
    lemma_map_of(b);
    if a.len() == 0 {
        if b.len() > 0 {
            assert(map_of(b).contains_key(b[0].name));
        }
        assert(a =~= b);
    } else if b.len() == 0 {
        assert(map_of(a).contains_key(a[0].name));
    } else {
        let x = a.last();
        let y = b.last();
        assert(map_of(a).contains_key(a[a.len() - 1].name));
        assert(map_of(b).contains_key(b[b.len() - 1].name));
        if x.name != y.name {
            let i = choose|i: int| 0 <= i < b.len() && #[trigger] b[i].name == x.name;
            let j = choose|j: int| 0 <= j < a.len() && #[trigger] a[j].name == y.name;
            assert(follows(b[b.len() - 1].name, b[i].name));
            assert(follows(a[a.len() - 1].name, a[j].name));
            lemma_follows_total(x.name, y.name);
        }
        assert(map_of(a)[x.name] == x.data && map_of(b)[y.name] == y.data);
        let c = a.drop_last();
        let d = b.drop_last();
        lemma_ordered_front(a);
        lemma_ordered_front(b);
        assert(map_of(c) =~= map_of(a).remove(x.name));
        assert(map_of(d) =~= map_of(b).remove(y.name));
        law_order_is_canonical(c, d);
        assert(a =~= c.push(x));
        assert(b =~= d.push(y));
    }
}

/// The parameters before the last are in order, and have other names.
proof fn lemma_ordered_front<T>(a: Seq<EntryView<T>>)
    requires
        ordered(a),
        a.len() > 0,
    ensures
        ordered(a.drop_last()),
        !map_of(a.drop_last()).contains_key(a.last().name),
{
    let c = a.drop_last();
    assert forall|i: int, j: int|
        #![trigger c[i], c[j]]
        0 <= i < j < c.len() implies follows(c[j].name, c[i].name) by {
        assert(c[i] == a[i] && c[j] == a[j]);
    }
    lemma_map_of(c);
    if map_of(c).contains_key(a.last().name) {
        let i = choose|i: int| 0 <= i < c.len() && #[trigger] c[i].name == a.last().name;
        assert(follows(a[a.len() - 1].name, a[i].name));
        lemma_follows_total(a.last().name, a.last().name);
    }
}

/// The parameters that are loaded from a checkpoint are, one by one and in the
/// same order, those that were saved in it.
pub proof fn law_loaded_are_the_saved(
    saved: Params<u32>,
    step: u64,
    more: Seq<u8>,
    loaded: Params<u32>,
)
    requires
        saved.wf(),
        saved.entries@.len() < 0x1_0000_0000,
        forall|i: int|
            0 <= i < saved.entries@.len() ==> storable(
                #[trigger] entry_views(saved.entries@)[i],
            ),
        loaded.wf(),
        decoded(encoded(entry_views(saved.entries@), step) + more) matches Ok((entries, _))
            && loaded@ == map_of(entries),
    ensures
        entry_views(loaded.entries@) == entry_views(saved.entries@),
        loaded@ == saved@,
{
    law_load_undoes_save(entry_views(saved.entries@), step, more);
    law_order_is_canonical(entry_views(loaded.entries@), entry_views(saved.entries@));
}

/// A word is stored as four bytes, lowest first, and read back so.
pub proof fn law_word_bytes(x: nat, b: Seq<u8>)
    requires
        x < 0x1_0000_0000,
        b.len() == 4,
    ensures
        le(x, 4) == seq![
            (x % 256) as u8,
            (x / 256 % 256) as u8,
            (x / 65536 % 256) as u8,
            (x / 16777216) as u8,
        ],
        le_value(b) == b[0] + 256 * b[1] + 65536 * b[2] + 16777216 * b[3],
{
    reveal_with_fuel(le, 5);
    assert(x / 256 / 256 == x / 65536 && x / 256 / 256 / 256 == x / 16777216);
    assert(le(x, 4) =~= seq![
        (x % 256) as u8,
        (x / 256 % 256) as u8,
        (x / 65536 % 256) as u8,
        (x / 16777216) as u8,
    ]);
    reveal_with_fuel(le_value, 5);
    let c = b.drop_first();
    let d = c.drop_first();
    let e = d.drop_first();
    assert(c[0] == b[1] && d[0] == b[2] && e[0] == b[3]);
}

/// The bytes of a parameter: the length of its name in bytes, its name, its
/// number of elements, and its elements, four bytes each.
pub proof fn law_entry_bytes(e: EntryView<u32>)
    ensures
        ({
            let bytes = encoded_entry(e);
            let name = encode_utf8(e.name);
            let n = name.len() as int;
            &&& bytes.len() == 8 + n + 4 * e.data.len()
            &&& bytes.subrange(0, 4) == le(name.len(), 4)
            &&& bytes.subrange(4, 4 + n) == name
            &&& bytes.subrange(4 + n, 8 + n) == le(e.data.len(), 4)
            &&& forall|i: int|
                0 <= i < e.data.len() ==> bytes.subrange(8 + n + 4 * i, 12 + n + 4 * i) == le(
                    #[trigger] e.data[i] as nat,
                    4,
                )
        }),
{
    let bytes = encoded_entry(e);
    let name = encode_utf8(e.name);
    let n = name.len() as int;
    lemma_le_len(name.len(), 4);
    lemma_le_len(e.data.len(), 4);
    assert(bytes.subrange(0, 4) =~= le(name.len(), 4));
    assert(bytes.subrange(4, 4 + n) =~= name);
    assert(bytes.subrange(4 + n, 8 + n) =~= le(e.data.len(), 4));
    assert forall|i: int| 0 <= i < e.data.len() implies bytes.subrange(
        8 + n + 4 * i,
        12 + n + 4 * i,
    ) == le(#[trigger] e.data[i] as nat, 4) by {
        lemma_le_len(e.data[i] as nat, 4);
        let part = bytes.subrange(8 + n + 4 * i, 12 + n + 4 * i);
        assert forall|k: int| 0 <= k < 4 implies part[k] == le(e.data[i] as nat, 4)[k] by {
            assert(part[k] == words(e.data)[4 * i + k]);
            assert((4 * i + k) / 4 == i && (4 * i + k) % 4 == k);
        }
        assert(part =~= le(e.data[i] as nat, 4));
    }
}

/// The bytes of a checkpoint: the number of parameters, the parameters one
/// after the other, and then a map of one entry, named `step`, whose two
/// elements are the lower and the upper half of the step.
pub proof fn law_file_bytes(entries: Seq<EntryView<u32>>, e: EntryView<u32>, step: u64)
    ensures
        encoded_entries(Seq::<EntryView<u32>>::empty()).len() == 0,
        encoded_entries(entries.push(e)) == encoded_entries(entries) + encoded_entry(e),
        encoded(entries, step) == le(entries.len(), 4) + encoded_entries(entries) + le(1, 4)
            + encoded_entry(
            EntryView {
                name: "step"@,
                data: seq![(step % 0x1_0000_0000) as u32, (step / 0x1_0000_0000) as u32],
            },
        ),
{
    assert(entries.push(e).drop_last() =~= entries);
    let s = EntryView {
        name: "step"@,
        data: seq![(step % 0x1_0000_0000) as u32, (step / 0x1_0000_0000) as u32],
    };
    assert(s.data =~= step_entry(step).data);
    assert(s == step_entry(step));
    let meta = seq![s];
    assert(meta.drop_last() =~= Seq::<EntryView<u32>>::empty());
    assert(meta.last() == s);
    assert(encoded_entries(meta) == encoded_entries(meta.drop_last()) + encoded_entry(s));
    assert(encoded_entries(meta) =~= encoded_entry(s));
    assert(encoded(entries, step) =~= le(entries.len(), 4) + encoded_entries(entries) + le(1, 4)
        + encoded_entry(s));
}

/// Reading a parameter: its four parts have to lie within the bytes, and only
/// then its name has to be UTF-8.
pub proof fn law_entry_read(b: Seq<u8>, at: int)
    requires
        0 <= at,
    ensures
        ({
            let n = le_value(b.subrange(at, at + 4)) as int;
            let count = le_value(b.subrange(at + 4 + n, at + 8 + n)) as int;
            let end = at + 8 + n + 4 * count;
            let whole = at + 4 <= b.len() && at + 8 + n <= b.len() && end <= b.len();
            let name = b.subrange(at + 4, at + 4 + n);
            &&& entry_at(b, at) == Err::<(EntryView<u32>, int), _>(LoadError::UnexpectedEof)
                <==> !whole
            &&& entry_at(b, at) == Err::<(EntryView<u32>, int), _>(LoadError::BadName) <==> whole
                && !valid_utf8(name)
            &&& entry_at(b, at) is Ok <==> whole && valid_utf8(name)
            &&& entry_at(b, at) matches Ok((e, next)) ==> {
                &&& next == end
                &&& e.name == decode_utf8(name)
                &&& e.data.len() == count
                &&& forall|i: int|
                    0 <= i < count ==> #[trigger] e.data[i] == le_value(
                        b.subrange(at + 8 + n + 4 * i, at + 12 + n + 4 * i),
                    )
            }
        }),
{
    let n = le_value(b.subrange(at, at + 4)) as int;
    let count = le_value(b.subrange(at + 4 + n, at + 8 + n)) as int;
    let data = b.subrange(at + 8 + n, at + 8 + n + 4 * count);
    if let Ok((e, next)) = entry_at(b, at) {
        assert forall|i: int| 0 <= i < count implies #[trigger] e.data[i] == le_value(
            b.subrange(at + 8 + n + 4 * i, at + 12 + n + 4 * i),
        ) by {
            let part = data.subrange(4 * i, 4 * i + 4);
            assert(part =~= b.subrange(at + 8 + n + 4 * i, at + 12 + n + 4 * i));
            law_word_bytes(0, part);
        }
    }
}

/// Reading a file: a map of the parameters, then a map of the scalars, each the
/// number of its entries and the entries one after the other. The first entry
/// that cannot be read is why the file cannot, and a file without a step of two
/// words is refused last.
pub proof fn law_file_read(b: Seq<u8>, at: int, n: nat)
    requires
        0 <= at,
    ensures
        entries_at(b, at, 0) == Ok::<(Seq<EntryView<u32>>, int), LoadError>((Seq::empty(), at)),
        entry_at(b, at) matches Err(e) ==> entries_at(b, at, n + 1) == Err::<
            (Seq<EntryView<u32>>, int),
            LoadError,
        >(e),
        entry_at(b, at) matches Ok((first, next)) ==> match entries_at(b, next, n) {
            Err(e) => entries_at(b, at, n + 1) == Err::<(Seq<EntryView<u32>>, int), LoadError>(e),
            Ok((rest, end)) => entries_at(b, at, n + 1) == Ok::<
                (Seq<EntryView<u32>>, int),
                LoadError,
            >((seq![first] + rest, end)),
        },
        b.len() < at + 4 ==> map_at(b, at) == Err::<(Seq<EntryView<u32>>, int), LoadError>(
            LoadError::UnexpectedEof,
        ),
        at + 4 <= b.len() ==> map_at(b, at) == entries_at(
            b,
            at + 4,
            le_value(b.subrange(at, at + 4)),
        ),
        map_at(b, 0) matches Err(e) ==> decoded(b) == Err::<(Seq<EntryView<u32>>, u64), LoadError>(
            e,
        ),
        map_at(b, 0) matches Ok((entries, next)) ==> match map_at(b, next) {
            Err(e) => decoded(b) == Err::<(Seq<EntryView<u32>>, u64), LoadError>(e),
            Ok((scalars, end)) => {
                let held = map_of(scalars);
                if held.contains_key("step"@) && held["step"@].len() == 2 {
                    decoded(b) == Ok::<(Seq<EntryView<u32>>, u64), LoadError>(
                        (
                            entries,
                            (held["step"@][0] + 0x1_0000_0000 * held["step"@][1]) as u64,
                        ),
                    )
                } else {
                    decoded(b) == Err::<(Seq<EntryView<u32>>, u64), LoadError>(LoadError::NoStep)
                }
            },
        },
{
    reveal_with_fuel(entries_at, 2);
}

/// Of two parameters of one name the later counts, and no other name is
/// touched.
pub proof fn law_later_counts<T>(entries: Seq<EntryView<T>>, e: EntryView<T>)
    ensures
        map_of(Seq::<EntryView<T>>::empty()) == Map::<Seq<char>, Seq<T>>::empty(),
        map_of(entries.push(e)) == map_of(entries).insert(e.name, e.data),
{
    assert(entries.push(e).drop_last() =~= entries);
}

/// What a list of parameters holds, and when it is in order.
pub proof fn law_entries_in_order<T>(entries: Seq<(String, Vec<T>)>, i: int, j: int)
    requires
        0 <= i < j < entries.len(),
    ensures
        entry_views(entries).len() == entries.len(),
        entry_views(entries)[i].name == entries[i].0@,
        entry_views(entries)[i].data == entries[i].1@,
        ordered(entry_views(entries)) ==> follows(entries[j].0@, entries[i].0@),
{
    let (a, b) = (entry_views(entries)[i], entry_views(entries)[j]);
    assert(a.name == entries[i].0@ && b.name == entries[j].0@);
}

/// Mixing parameters keeps their names and their sizes. Each element is mixed
/// with the element at the same place of the parameter of the same name.
pub proof fn law_mixed_elements<T, F: Fn(T, T) -> T>(
    before: Map<Seq<char>, Seq<T>>,
    other: Map<Seq<char>, Seq<T>>,
    after: Map<Seq<char>, Seq<T>>,
    mix: F,
    name: Seq<char>,
    k: int,
)
    requires
        mixed(before, other, after, mix),
        before.contains_key(name),
        0 <= k < before[name].len(),
    ensures
        after.dom() == before.dom(),
        after[name].len() == before[name].len(),
        k < other[name].len() ==> call_ensures(
            mix,
            (before[name][k], other[name][k]),
            after[name][k],
        ),
        other[name].len() <= k ==> after[name][k] == before[name][k],
{
    assert(zipped(before[name], other[name], after[name], mix));
    let value = after[name][k];
}

} // verus!
