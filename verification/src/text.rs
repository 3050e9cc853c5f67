//! Small text helpers: concatenation, decimal numerals and alphabetical order.

use vstd::prelude::*;
use vstd::string::StringExecFns;

verus! {

/// The character of the decimal digit `d`.
pub open spec fn digit(d: nat) -> char
    recommends
        d < 10,
{
    (48 + d) as char
}

/// The decimal numeral of `n`, most significant digit first.
pub open spec fn decimal(n: nat) -> Seq<char>
    decreases n,
{
    if n < 10 {
        seq![digit(n)]
    } else {
        decimal(n / 10).push(digit(n % 10))
    }
}

/// `head` followed by `tail`.
pub fn join(head: &str, tail: &str) -> (s: String)
    ensures
        s@ == head@ + tail@,
{
    let mut s = String::new();
    s.append(head);
    s.append(tail);
    proof {
        assert(Seq::<char>::empty() + head@ =~= head@);
    }
    s
}

fn digit_str(d: u64) -> (s: &'static str)
    requires
        d < 10,
    ensures
        s@ == seq![digit(d as nat)],
{
    proof {
        reveal_strlit("0");
        reveal_strlit("1");
        reveal_strlit("2");
        reveal_strlit("3");
        reveal_strlit("4");
        reveal_strlit("5");
        reveal_strlit("6");
        reveal_strlit("7");
        reveal_strlit("8");
        reveal_strlit("9");
    }
    let s = match d {
        0 => "0",
        1 => "1",
        2 => "2",
        3 => "3",
        4 => "4",
        5 => "5",
        6 => "6",
        7 => "7",
        8 => "8",
        _ => "9",
    };
    assert(s@ =~= seq![digit(d as nat)]);
    s
}

/// The decimal numeral of `n`.
pub fn decimal_string(n: u64) -> (s: String)
    ensures
        s@ == decimal(n as nat),
    decreases n,
{
    if n < 10 {
        digit_str(n).to_string()
    } else {
        let mut s = decimal_string(n / 10);
        let last = digit_str(n % 10);
        s.append(last);
        assert(s@ =~= decimal(n as nat / 10).push(digit(n as nat % 10)));
        s
    }
}

/// The characters of a text.
pub fn chars_of(text: &str) -> (chars: Vec<char>)
    ensures
        chars@ == text@,
{
    let mut chars: Vec<char> = Vec::new();
    for c in it: text.chars()
        invariant
            chars@ == it.seq().take(it.index() as int),
            it.seq() == text@,
    {
        chars.push(c);
        assert(it.seq().take(it.index() + 1) =~= it.seq().take(it.index() as int).push(c));
    }
    assert(chars@ =~= text@);
    chars
}

/// `a` comes after `b` in alphabetical order, by code points.
pub open spec fn follows(a: Seq<char>, b: Seq<char>) -> bool
    decreases a.len(),
{
    if a.len() == 0 {
        false
    } else if b.len() == 0 {
        true
    } else if a[0] != b[0] {
        a[0] as int > b[0] as int
    } else {
        follows(a.drop_first(), b.drop_first())
    }
}

/// Of two texts exactly one follows the other, unless they are the same.
pub proof fn lemma_follows_total(a: Seq<char>, b: Seq<char>)
    ensures
        a == b ==> !follows(a, b),
        a != b ==> follows(a, b) != follows(b, a),
    decreases a.len(),
{
    if a.len() > 0 && b.len() > 0 && a[0] == b[0] {
        lemma_follows_total(a.drop_first(), b.drop_first());
        if a.drop_first() == b.drop_first() {
            assert(a =~= seq![a[0]] + a.drop_first());
            assert(b =~= seq![b[0]] + b.drop_first());
        }
    } else if a.len() == 0 && b.len() == 0 {
        assert(a =~= b);
    }
}

/// The order is transitive.
pub proof fn lemma_follows_transitive(a: Seq<char>, b: Seq<char>, c: Seq<char>)
    requires
        follows(a, b),
        follows(b, c),
    ensures
        follows(a, c),
    decreases a.len(),
{
    if c.len() > 0 && a[0] == b[0] && b[0] == c[0] {
        lemma_follows_transitive(a.drop_first(), b.drop_first(), c.drop_first());
    }
}

/// The code point of a character.
fn code_point(c: char) -> (u: u32)
    ensures
        u == c as int,
{
    c as u32
}

/// How a text stands to another in alphabetical order.
#[derive(Copy, Clone, Debug, PartialEq, Eq, Structural)]
pub enum Order {
    Before,
    Same,
    After,
}

/// How `a` stands to `b` in alphabetical order, by code points.
pub fn order(a: &str, b: &str) -> (r: Order)
    ensures
        r is Before <==> follows(b@, a@),
        r is Same <==> a@ == b@,
        r is After <==> follows(a@, b@),
{
    let x = chars_of(a);
    let y = chars_of(b);
    let mut i: usize = 0;
    assert(x@.skip(0) =~= x@ && y@.skip(0) =~= y@);
    while i < x.len() && i < y.len() && x[i] == y[i]
        invariant
            x@ == a@,
            y@ == b@,
            i <= x@.len(),
            i <= y@.len(),
            x@.take(i as int) == y@.take(i as int),
            follows(a@, b@) == follows(x@.skip(i as int), y@.skip(i as int)),
            follows(b@, a@) == follows(y@.skip(i as int), x@.skip(i as int)),
        decreases x@.len() - i,
    {
        assert(x@.skip(i as int).drop_first() =~= x@.skip(i + 1));
        assert(y@.skip(i as int).drop_first() =~= y@.skip(i + 1));
        assert(x@.take(i + 1) =~= x@.take(i as int).push(x@[i as int]));
        assert(y@.take(i + 1) =~= y@.take(i as int).push(y@[i as int]));
        i = i + 1;
    }
    proof {
        lemma_follows_total(a@, b@);
    }
    if i == x.len() {
        if i == y.len() {
            assert(x@ =~= x@.take(i as int) && y@ =~= y@.take(i as int));
            Order::Same
        } else {
            assert(x@.len() != y@.len());
            Order::Before
        }
    } else if i == y.len() {
        assert(x@.len() != y@.len());
        Order::After
    } else {
        assert(x@[i as int] != y@[i as int]);
        if code_point(x[i]) < code_point(y[i]) {
            Order::Before
        } else {
            Order::After
        }
    }
}

/// What some texts hold.
pub open spec fn texts(names: Seq<String>) -> Seq<Seq<char>> {
    Seq::new(names.len(), |i: int| names[i]@)
}

/// No text comes before one that it follows.
pub open spec fn in_order(names: Seq<Seq<char>>) -> bool {
    forall|i: int, j: int|
        #![trigger names[i], names[j]]
        0 <= i < j < names.len() ==> !follows(names[i], names[j])
}

/// Some names in alphabetical order.
pub fn sorted_names(names: Vec<String>) -> (r: Vec<String>)
    ensures
        in_order(texts(r@)),
        texts(r@).to_multiset() == texts(names@).to_multiset(),
{
    let ghost all = texts(names@).to_multiset();
    let mut left = names;
    let mut r: Vec<String> = Vec::new();
    proof {
        assert(texts(r@) =~= Seq::<Seq<char>>::empty());
        assert(texts(r@).to_multiset().add(texts(left@).to_multiset()) =~= all) by {
            vstd::seq_lib::to_multiset_len(texts(r@));
        }
    }
    while left.len() > 0
        invariant
            in_order(texts(r@)),
            texts(r@).to_multiset().add(texts(left@).to_multiset()) == all,
        decreases left@.len(),
    {
        let ghost before_left = texts(left@);
        let ghost before = texts(r@);
        let name = match left.pop() {
            Some(name) => name,
            None => {
                return r;
            },
        };
        let ghost view = name@;
        let mut at: usize = r.len();
        while at > 0 && !at_or_after(name.as_str(), r[at - 1].as_str())
            invariant
                at <= r@.len(),
                before == texts(r@),
                in_order(before),
                view == name@,
                forall|j: int|
                    #![trigger before[j]]
                    at <= j < before.len() ==> follows(before[j], view),
            decreases at,
        {
            assert(before[at - 1] == r@[at - 1]@);
            at = at - 1;
        }
        proof {
            if at > 0 {
                assert(before[at - 1] == r@[at - 1]@);
            }
        }
        r.insert(at, name);
        proof {
            let after = texts(r@);
            assert(after =~= before.insert(at as int, view));
            lemma_insert_in_order(before, at as int, view);
            vstd::seq_lib::to_multiset_insert(before, at as int, view);
            assert(before_left =~= texts(left@).push(view));
            vstd::seq_lib::to_multiset_build(texts(left@), view);
            assert(after.to_multiset().add(texts(left@).to_multiset())
                =~= before.to_multiset().add(before_left.to_multiset()));
        }
    }
    proof {
        assert(texts(left@) =~= Seq::<Seq<char>>::empty());
        vstd::seq_lib::to_multiset_len(texts(left@));
        assert(texts(r@).to_multiset().add(texts(left@).to_multiset())
            =~= texts(r@).to_multiset());
    }
    r
}

/// Whether `a` is `b` or comes after it.
fn at_or_after(a: &str, b: &str) -> (r: bool)
    ensures
        r == !follows(b@, a@),
{
    match order(b, a) {
        Order::After => false,
        _ => true,
    }
}

/// A text put between those that it does not come before and those that follow
/// it keeps the order.
proof fn lemma_insert_in_order(names: Seq<Seq<char>>, at: int, name: Seq<char>)
    requires
        in_order(names),
        0 <= at <= names.len(),
        at > 0 ==> !follows(names[at - 1], name),
        forall|j: int| #![trigger names[j]] at <= j < names.len() ==> follows(names[j], name),
    ensures
        in_order(names.insert(at, name)),
{
    let after = names.insert(at, name);
    assert forall|i: int, j: int|
        #![trigger after[i], after[j]]
        0 <= i < j < after.len() implies !follows(after[i], after[j]) by {
        if i == at {
            assert(after[j] == names[j - 1]);
            lemma_follows_total(names[j - 1], name);
        } else if j == at {
            assert(after[i] == names[i]);
            if i < at - 1 && follows(names[i], name) {
                assert(!follows(names[i], names[at - 1]));
                lemma_follows_total(names[at - 1], name);
                lemma_follows_total(names[i], names[at - 1]);
                if names[at - 1] != name && names[i] != names[at - 1] {
                    lemma_follows_transitive(name, names[at - 1], names[i]);
                    lemma_follows_total(names[i], name);
                }
            }
        } else {
            let a = if i < at {
                i
            } else {
                i - 1
            };
            let b = if j < at {
                j
            } else {
                j - 1
            };
            assert(after[i] == names[a] && after[j] == names[b]);
        }
    }
}

/// The first place where two texts differ decides their order: there the one
/// with the higher code point follows, and a text follows every text that it
/// continues.
pub proof fn law_first_difference_decides(a: Seq<char>, b: Seq<char>, k: int)
    requires
        0 <= k <= a.len(),
        k <= b.len(),
        forall|i: int| 0 <= i < k ==> a[i] == b[i],
    ensures
        k < a.len() && k < b.len() && a[k] != b[k] ==> (follows(a, b) <==> a[k] as int
            > b[k] as int),
        k < a.len() && k == b.len() ==> follows(a, b),
        k == a.len() ==> !follows(a, b),
    decreases k,
{
    if k > 0 {
        let (c, d) = (a.drop_first(), b.drop_first());
        assert forall|i: int| 0 <= i < k - 1 implies c[i] == d[i] by {
            assert(c[i] == a[i + 1] && d[i] == b[i + 1]);
        }
        law_first_difference_decides(c, d, k - 1);
    }
}

/// A numeral: of a number below ten one digit, and of any other the numeral of
/// its tens with its last digit behind it. The digits are `'0'` to `'9'`, in
/// this order.
pub proof fn law_numerals(n: nat)
    ensures
        n < 10 ==> decimal(n).len() == 1 && decimal(n)[0] as int == '0' as int + n,
        n >= 10 ==> decimal(n).len() == decimal(n / 10).len() + 1,
        n >= 10 ==> decimal(n).drop_last() == decimal(n / 10),
        decimal(n).last() as int == '0' as int + n % 10,
        n > 0 ==> decimal(n)[0] != '0',
    decreases n,
{
    if n >= 10 {
        law_numerals(n / 10);
        assert(decimal(n).drop_last() =~= decimal(n / 10));
    }
}

/// Names in order: none follows a name behind it.
pub proof fn law_names_in_order(names: Seq<String>, i: int, j: int)
    requires
        0 <= i < j < names.len(),
        in_order(texts(names)),
    ensures
        texts(names).len() == names.len(),
        texts(names)[i] == names[i]@,
        !follows(names[i]@, names[j]@),
{
    let (a, b) = (texts(names)[i], texts(names)[j]);
    assert(a == names[i]@ && b == names[j]@);
}

} // verus!
