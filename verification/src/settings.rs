//! The settings file of a level: a text of lines such as `Map Power X=11`.

use crate::text::{chars_of, decimal, decimal_string};
use vstd::arithmetic::power2::pow2;
use vstd::prelude::*;
use vstd::string::{StrSliceExecFns, StringExecFns};

verus! {

/// A character is white space, as Unicode has it.
pub open spec fn is_space(c: char) -> bool {
    let u = c as u32;
    ||| 0x9 <= u <= 0xd
    ||| u == 0x20
    ||| u == 0x85
    ||| u == 0xa0
    ||| u == 0x1680
    ||| 0x2000 <= u <= 0x200a
    ||| u == 0x2028
    ||| u == 0x2029
    ||| u == 0x202f
    ||| u == 0x205f
    ||| u == 0x3000
}

/// Whether a character is white space, as Unicode has it.
pub fn is_whitespace(c: char) -> (r: bool)
    ensures
        r == is_space(c),
{
    let u = c as u32;
    (0x9 <= u && u <= 0xd) || u == 0x20 || u == 0x85 || u == 0xa0 || u == 0x1680 || (0x2000 <= u
        && u <= 0x200a) || u == 0x2028 || u == 0x2029 || u == 0x202f || u == 0x205f || u == 0x3000
}

/// A text without the white space that it starts with.
pub open spec fn trim_start(s: Seq<char>) -> Seq<char>
    decreases s.len(),
{
    if s.len() > 0 && is_space(s[0]) {
        trim_start(s.drop_first())
    } else {
        s
    }
}

/// A text without the white space that it ends with.
pub open spec fn trim_end(s: Seq<char>) -> Seq<char>
    decreases s.len(),
{
    if s.len() > 0 && is_space(s.last()) {
        trim_end(s.drop_last())
    } else {
        s
    }
}

/// A text without the white space around it.
pub open spec fn trimmed(s: Seq<char>) -> Seq<char> {
    trim_end(trim_start(s))
}

/// Where the line that holds position `i` ends: at a line feed, or at the end
/// of the text.
pub open spec fn line_end(s: Seq<char>, i: int) -> int
    decreases s.len() - i,
{
    if i >= s.len() || s[i] == '\n' {
        i
    } else {
        line_end(s, i + 1)
    }
}

/// A line without the carriage return of its line ending.
pub open spec fn without_return(line: Seq<char>) -> Seq<char> {
    if line.len() > 0 && line.last() == '\r' {
        line.drop_last()
    } else {
        line
    }
}

/// The lines of a text from position `i` on. A line feed ends a line, and a
/// carriage return just before it belongs to the line ending.
pub open spec fn lines_from(s: Seq<char>, i: int) -> Seq<Seq<char>>
    decreases s.len() - i,
{
    if i < 0 || i >= s.len() {
        Seq::empty()
    } else {
        let e = line_end(s, i);
        if i <= e < s.len() {
            seq![without_return(s.subrange(i, e))] + lines_from(s, e + 1)
        } else {
            seq![s.subrange(i, s.len() as int)]
        }
    }
}

/// The lines of a text.
pub open spec fn lines_of(s: Seq<char>) -> Seq<Seq<char>> {
    lines_from(s, 0)
}

/// The parts of a text between the given positions.
pub open spec fn parts(s: Seq<char>, spans: Seq<(usize, usize)>) -> Seq<Seq<char>> {
    Seq::new(spans.len(), |k: int| s.subrange(spans[k].0 as int, spans[k].1 as int))
}

/// A line ends at or after each of its positions.
proof fn lemma_line_end(s: Seq<char>, i: int)
    requires
        0 <= i <= s.len(),
    ensures
        i <= line_end(s, i) <= s.len(),
        line_end(s, i) < s.len() ==> s[line_end(s, i)] == '\n',
        forall|j: int| i <= j < line_end(s, i) ==> #[trigger] s[j] != '\n',
    decreases s.len() - i,
{
    if i < s.len() && s[i] != '\n' {
        lemma_line_end(s, i + 1);
    }
}

/// Where each line of a text starts and ends.
fn line_spans(chars: &Vec<char>) -> (spans: Vec<(usize, usize)>)
    ensures
        parts(chars@, spans@) == lines_of(chars@),
        forall|k: int|
            #![trigger spans@[k]]
            0 <= k < spans@.len() ==> spans@[k].0 <= spans@[k].1 <= chars@.len(),
{
    let ghost s = chars@;
    let n = chars.len();
    let mut spans: Vec<(usize, usize)> = Vec::new();
    let mut i: usize = 0;
    assert(parts(s, spans@) + lines_from(s, 0) =~= lines_of(s));
    while i < n
        invariant
            s == chars@,
            n == s.len(),
            i <= n,
            parts(s, spans@) + lines_from(s, i as int) == lines_of(s),
            forall|k: int|
                #![trigger spans@[k]]
                0 <= k < spans@.len() ==> spans@[k].0 <= spans@[k].1 <= n,
        decreases n - i,
    {
        let mut e: usize = i;
        while e < n && chars[e] != '\n'
            invariant
                s == chars@,
                n == s.len(),
                i <= e <= n,
                line_end(s, e as int) == line_end(s, i as int),
            decreases n - e,
        {
            e = e + 1;
        }
        let ghost before = spans@;
        if e < n {
            let end: usize = if e > i && chars[e - 1] == '\r' {
                e - 1
            } else {
                e
            };
            spans.push((i, end));
            proof {
                let line = s.subrange(i as int, e as int);
                assert(without_return(line) =~= s.subrange(i as int, end as int));
                assert(parts(s, spans@) =~= parts(s, before).push(without_return(line)));
                assert(parts(s, before) + (seq![without_return(line)] + lines_from(s, e + 1))
                    =~= parts(s, spans@) + lines_from(s, e + 1));
            }
            i = e + 1;
        } else {
            spans.push((i, n));
            proof {
                let line = s.subrange(i as int, n as int);
                assert(parts(s, spans@) =~= parts(s, before).push(line));
                assert(parts(s, before) + seq![line] =~= parts(s, spans@) + lines_from(
                    s,
                    n as int,
                ));
            }
            i = n;
        }
    }
    assert(parts(s, spans@) + lines_from(s, n as int) =~= parts(s, spans@));
    spans
}

/// Where the trimmed form of a part of a text starts and ends.
fn trim_span(chars: &Vec<char>, from: usize, to: usize) -> (r: (usize, usize))
    requires
        from <= to <= chars@.len(),
    ensures
        from <= r.0 <= r.1 <= to,
        chars@.subrange(r.0 as int, r.1 as int) == trimmed(
            chars@.subrange(from as int, to as int),
        ),
{
    let ghost s = chars@;
    let mut a: usize = from;
    while a < to && is_whitespace(chars[a])
        invariant
            s == chars@,
            from <= a <= to <= s.len(),
            trim_start(s.subrange(a as int, to as int)) == trim_start(
                s.subrange(from as int, to as int),
            ),
        decreases to - a,
    {
        assert(s.subrange(a as int, to as int).drop_first() =~= s.subrange(a + 1, to as int));
        a = a + 1;
    }
    assert(trim_start(s.subrange(a as int, to as int)) == s.subrange(a as int, to as int));
    let mut b: usize = to;
    while a < b && is_whitespace(chars[b - 1])
        invariant
            s == chars@,
            a <= b <= to <= s.len(),
            trim_end(s.subrange(a as int, b as int)) == trim_end(
                s.subrange(a as int, to as int),
            ),
        decreases b - a,
    {
        assert(s.subrange(a as int, b as int).drop_last() =~= s.subrange(a as int, b - 1));
        b = b - 1;
    }
    assert(trim_end(s.subrange(a as int, b as int)) == s.subrange(a as int, b as int));
    (a, b)
}

/// Whether a part of a text starts with a prefix.
fn part_starts_with(chars: &Vec<char>, from: usize, to: usize, prefix: &str) -> (r: bool)
    requires
        from <= to <= chars@.len(),
    ensures
        r == prefix@.is_prefix_of(chars@.subrange(from as int, to as int)),
{
    let wanted = chars_of(prefix);
    let part = Ghost(chars@.subrange(from as int, to as int));
    if wanted.len() > to - from {
        return false;
    }
    let mut k: usize = 0;
    while k < wanted.len()
        invariant
            wanted@ == prefix@,
            part@ == chars@.subrange(from as int, to as int),
            wanted@.len() <= to - from,
            from <= to <= chars@.len(),
            k <= wanted@.len(),
            forall|j: int| 0 <= j < k ==> wanted@[j] == #[trigger] part@[j],
        decreases wanted@.len() - k,
    {
        assert(part@[k as int] == chars@[from + k]);
        if chars[from + k] != wanted[k] {
            assert(part@.take(wanted@.len() as int)[k as int] != prefix@[k as int]);
            return false;
        }
        k = k + 1;
    }
    assert(part@.take(wanted@.len() as int) =~= prefix@);
    true
}

/// Lines put together, with a line feed between each two.
pub open spec fn joined(lines: Seq<Seq<char>>) -> Seq<char>
    decreases lines.len(),
{
    if lines.len() == 0 {
        Seq::empty()
    } else if lines.len() == 1 {
        lines[0]
    } else {
        joined(lines.drop_last()).push('\n') + lines.last()
    }
}

/// A line of the settings of a level of 2^`px` x 2^`py` texels whose data is
/// not compressed.
pub open spec fn rewritten(line: Seq<char>, px: nat, py: nat) -> Seq<char> {
    let l = trimmed(line);
    if "Map Power X"@.is_prefix_of(l) {
        "Map Power X="@ + decimal(px)
    } else if "Map Power Y"@.is_prefix_of(l) {
        "Map Power Y="@ + decimal(py)
    } else if "Compressed Format Using"@.is_prefix_of(l) {
        "Compressed Format Using=0"@
    } else {
        line
    }
}

/// The settings of a level like a given one, of 2^`px` x 2^`py` texels, whose
/// data is not compressed.
pub open spec fn rewritten_settings(text: Seq<char>, px: nat, py: nat) -> Seq<char> {
    joined(lines_of(text).map_values(|line: Seq<char>| rewritten(line, px, py)))
}

/// The settings of a level like a given one, of 2^`px` x 2^`py` texels, whose
/// data is not compressed.
pub fn rewrite_settings(text: &str, px: u32, py: u32) -> (r: String)
    ensures
        r@ == rewritten_settings(text@, px as nat, py as nat),
{
    let chars = chars_of(text);
    let spans = line_spans(&chars);
    let ghost all = lines_of(text@).map_values(
        |line: Seq<char>| rewritten(line, px as nat, py as nat),
    );
    let mut r = String::new();
    let mut k: usize = 0;
    assert(r@ =~= joined(all.take(0)));
    while k < spans.len()
        invariant
            k <= spans@.len(),
            chars@ == text@,
            parts(chars@, spans@) == lines_of(chars@),
            forall|j: int|
                #![trigger spans@[j]]
                0 <= j < spans@.len() ==> spans@[j].0 <= spans@[j].1 <= chars@.len(),
            all == lines_of(text@).map_values(
                |line: Seq<char>| rewritten(line, px as nat, py as nat),
            ),
            all.len() == spans@.len(),
            r@ == joined(all.take(k as int)),
        decreases spans@.len() - k,
    {
        let (from, to) = spans[k];
        let (a, b) = trim_span(&chars, from, to);
        let ghost before = r@;
        let ghost line = text@.subrange(from as int, to as int);
        assert(parts(chars@, spans@)[k as int] == line);
        if k > 0 {
            r.append("\n");
            proof {
                reveal_strlit("\n");
                assert(r@ =~= before.push('\n'));
            }
        }
        let ghost opened = r@;
        if part_starts_with(&chars, a, b, "Map Power X") {
            r.append("Map Power X=");
            let power = decimal_string(px as u64);
            r.append(power.as_str());
            assert(r@ =~= opened + ("Map Power X="@ + decimal(px as nat)));
        } else if part_starts_with(&chars, a, b, "Map Power Y") {
            r.append("Map Power Y=");
            let power = decimal_string(py as u64);
            r.append(power.as_str());
            assert(r@ =~= opened + ("Map Power Y="@ + decimal(py as nat)));
        } else if part_starts_with(&chars, a, b, "Compressed Format Using") {
            r.append("Compressed Format Using=0");
        } else {
            r.append(text.substring_char(from, to));
        }
        proof {
            assert(r@ =~= opened + rewritten(line, px as nat, py as nat));
            assert(all[k as int] == rewritten(line, px as nat, py as nat));
            let now = all.take(k + 1);
            assert(now.drop_last() =~= all.take(k as int));
            assert(now.last() == all[k as int]);
            if k == 0 {
                assert(before =~= Seq::<char>::empty());
                assert(r@ =~= now[0]);
            }
        }
        k = k + 1;
    }
    assert(all.take(all.len() as int) =~= all);
    r
}

/// What follows `Palette File=` on the first of some lines that has it, or the
/// default palette.
pub open spec fn palette_in(lines: Seq<Seq<char>>) -> Seq<char>
    decreases lines.len(),
{
    if lines.len() == 0 {
        "harmony.pal"@
    } else if "Palette File="@.is_prefix_of(trimmed(lines[0])) {
        trimmed(lines[0]).skip("Palette File="@.len() as int)
    } else {
        palette_in(lines.drop_first())
    }
}

/// The file name of the palette that the settings of a level name.
pub open spec fn palette_of(text: Seq<char>) -> Seq<char> {
    trimmed(palette_in(lines_of(text)))
}

/// A text without the white space around it.
fn trim(text: &str) -> (r: String)
    ensures
        r@ == trimmed(text@),
{
    let chars = chars_of(text);
    let (a, b) = trim_span(&chars, 0, chars.len());
    assert(text@.subrange(0, text@.len() as int) =~= text@);
    text.substring_char(a, b).to_string()
}

/// The file name of the palette that the settings of a level name.
pub fn palette_name(text: &str) -> (r: String)
    ensures
        r@ == palette_of(text@),
{
    let chars = chars_of(text);
    let spans = line_spans(&chars);
    let ghost all = lines_of(text@);
    let mut k: usize = 0;
    assert(all.skip(0) =~= all);
    while k < spans.len()
        invariant
            k <= spans@.len(),
            chars@ == text@,
            all == lines_of(text@),
            parts(chars@, spans@) == all,
            all.len() == spans@.len(),
            forall|j: int|
                #![trigger spans@[j]]
                0 <= j < spans@.len() ==> spans@[j].0 <= spans@[j].1 <= chars@.len(),
            palette_in(all.skip(k as int)) == palette_in(all),
        decreases spans@.len() - k,
    {
        let (from, to) = spans[k];
        let (a, b) = trim_span(&chars, from, to);
        assert(parts(chars@, spans@)[k as int] == text@.subrange(from as int, to as int));
        assert(all.skip(k as int)[0] == all[k as int]);
        proof {
            reveal_strlit("Palette File=");
        }
        if part_starts_with(&chars, a, b, "Palette File=") {
            assert("Palette File="@.len() == 13);
            let name = text.substring_char(a + 13, b);
            assert(name@ =~= text@.subrange(a as int, b as int).skip(13));
            return trim(name);
        }
        assert(all.skip(k as int).drop_first() =~= all.skip(k + 1));
        k = k + 1;
    }
    trim("harmony.pal")
}

/// An odd number above one times a power of two is no power of two.
proof fn lemma_no_power(v: nat, p: nat, q: nat)
    requires
        v % 2 == 1,
        v > 1,
    ensures
        v * pow2(p) != pow2(q),
{
    if v * pow2(p) == pow2(q) {
        vstd::arithmetic::power2::lemma_pow2_pos(p);
        if q < p {
            vstd::arithmetic::power2::lemma_pow2_strictly_increases(q, p);
            assert(v * pow2(p) >= pow2(p)) by (nonlinear_arith)
                requires
                    v > 1,
                    pow2(p) > 0,
            ;
        } else {
            let r = (q - p) as nat;
            vstd::arithmetic::power2::lemma_pow2_adds(r, p);
            assert(v == pow2(r)) by (nonlinear_arith)
                requires
                    v * pow2(p) == pow2(r) * pow2(p),
                    pow2(p) > 0,
            ;
            if r > 0 {
                vstd::arithmetic::power2::lemma_pow2_unfold(r);
            } else {
                vstd::arithmetic::power2::lemma2_to64();
            }
        }
    }
}

/// The exponent of an extent that is a power of two.
pub fn map_power(extent: usize) -> (r: Option<u32>)
    ensures
        r matches Some(p) ==> extent == pow2(p as nat),
        r is None ==> forall|p: nat| extent != #[trigger] pow2(p),
{
    if extent == 0 {
        proof {
            assert forall|p: nat| extent != #[trigger] pow2(p) by {
                vstd::arithmetic::power2::lemma_pow2_pos(p);
            }
        }
        return None;
    }
    let mut v: usize = extent;
    let mut p: u32 = 0;
    proof {
        vstd::arithmetic::power2::lemma2_to64();
    }
    while v % 2 == 0
        invariant
            0 < v,
            extent == v * pow2(p as nat),
            v + p <= extent,
            p < 64,
        decreases v,
    {
        let ghost half = v as nat / 2;
        proof {
            vstd::arithmetic::power2::lemma_pow2_unfold((p + 1) as nat);
            assert(v * pow2(p as nat) == half * pow2((p + 1) as nat)) by (nonlinear_arith)
                requires
                    v == 2 * half,
                    pow2((p + 1) as nat) == 2 * pow2(p as nat),
            ;
            if p + 1 >= 64 {
                vstd::arithmetic::power2::lemma2_to64_rest();
                assert(half * pow2(64) >= pow2(64)) by (nonlinear_arith)
                    requires
                        half >= 1,
                ;
            }
        }
        v = v / 2;
        p = p + 1;
    }
    if v == 1 {
        Some(p)
    } else {
        proof {
            assert forall|q: nat| extent != #[trigger] pow2(q) by {
                lemma_no_power(v as nat, p as nat, q);
            }
        }
        None
    }
}

/// A text holds no line feed.
spec fn one_line(s: Seq<char>) -> bool {
    forall|j: int| 0 <= j < s.len() ==> #[trigger] s[j] != '\n'
}

/// A text ends where its first line feed is.
proof fn lemma_line_end_at(s: Seq<char>, i: int, e: int)
    requires
        0 <= i <= e <= s.len(),
        forall|j: int| i <= j < e ==> #[trigger] s[j] != '\n',
        e < s.len() ==> s[e] == '\n',
    ensures
        line_end(s, i) == e,
    decreases e - i,
{
    if i < e {
        lemma_line_end_at(s, i + 1, e);
    }
}

/// Lines hold no line feed.
proof fn lemma_lines(s: Seq<char>, i: int)
    requires
        0 <= i <= s.len(),
    ensures
        forall|k: int| 0 <= k < lines_from(s, i).len() ==> one_line(#[trigger] lines_from(s, i)[k]),
    decreases s.len() - i,
{
    if i < s.len() {
        lemma_line_end(s, i);
        let e = line_end(s, i);
        let all = lines_from(s, i);
        if e < s.len() {
            lemma_lines(s, e + 1);
            let rest = lines_from(s, e + 1);
            assert forall|k: int| 0 <= k < all.len() implies one_line(#[trigger] all[k]) by {
                if k > 0 {
                    assert(all[k] == rest[k - 1]);
                }
            }
        }
    }
}

/// The lines of the rest of a text are those of the text from there on.
proof fn lemma_lines_shift(s: Seq<char>, k: int, i: int)
    requires
        0 <= k <= i <= s.len(),
    ensures
        lines_from(s, i) == lines_from(s.skip(k), i - k),
    decreases s.len() - i,
{
    let t = s.skip(k);
    if i < s.len() {
        lemma_line_end(s, i);
        let e = line_end(s, i);
        assert forall|j: int| i - k <= j < e - k implies #[trigger] t[j] != '\n' by {
            assert(t[j] == s[j + k]);
        }
        lemma_line_end_at(t, i - k, e - k);
        assert(t.subrange(i - k, e - k) =~= s.subrange(i, e));
        if e < s.len() {
            lemma_lines_shift(s, k, e + 1);
        }
    }
}

/// Lines put together start with the first.
proof fn lemma_joined_front(lines: Seq<Seq<char>>)
    requires
        lines.len() >= 2,
    ensures
        joined(lines) == lines[0].push('\n') + joined(lines.drop_first()),
    decreases lines.len(),
{
    let init = lines.drop_last();
    let rest = lines.drop_first();
    if lines.len() == 2 {
        assert(joined(init) == lines[0]);
        assert(joined(rest) == lines[1]);
    } else {
        lemma_joined_front(init);
        assert(init.drop_first() =~= rest.drop_last());
        assert(joined(lines) =~= lines[0].push('\n') + joined(rest));
    }
}

/// White space at the end does not matter to the trimmed text.
proof fn lemma_trim_last(s: Seq<char>)
    requires
        s.len() > 0,
        is_space(s.last()),
    ensures
        trimmed(s.drop_last()) == trimmed(s),
    decreases s.len(),
{
    let t = s.drop_last();
    if is_space(s[0]) {
        if s.len() == 1 {
            assert(s.drop_first() =~= t);
        } else {
            lemma_trim_last(s.drop_first());
            assert(s.drop_first().drop_last() =~= t.drop_first());
        }
    } else {
        assert(s.len() >= 2);
    }
}

/// A text without the white space at its end is a prefix of it.
proof fn lemma_trim_end_prefix(s: Seq<char>)
    ensures
        trim_end(s).is_prefix_of(s),
    decreases s.len(),
{
    if s.len() > 0 && is_space(s.last()) {
        lemma_trim_end_prefix(s.drop_last());
        let n = trim_end(s).len() as int;
        assert(s.subrange(0, n) =~= s.drop_last().subrange(0, n));
    } else {
        assert(s.subrange(0, s.len() as int) =~= s);
    }
}

/// The palette that lines name is the same after they were put together and
/// taken apart again.
proof fn lemma_palette_of_joined(lines: Seq<Seq<char>>)
    requires
        forall|k: int| 0 <= k < lines.len() ==> one_line(#[trigger] lines[k]),
    ensures
        palette_in(lines_of(joined(lines))) == palette_in(lines),
    decreases lines.len(),
{
    let text = joined(lines);
    if lines.len() == 1 {
        let line = lines[0];
        if line.len() == 0 {
            reveal_strlit("Palette File=");
            assert(trimmed(line).len() == 0);
            assert(palette_in(lines.drop_first()) == "harmony.pal"@);
            assert(lines_of(text).len() == 0);
        } else {
            assert forall|j: int| 0 <= j < line.len() implies #[trigger] line[j] != '\n' by {
                assert(one_line(lines[0]));
            }
            lemma_line_end_at(line, 0, line.len() as int);
            assert(line.subrange(0, line.len() as int) =~= line);
            assert(lines_of(text) =~= lines);
        }
    } else if lines.len() >= 2 {
        let line = lines[0];
        let rest = lines.drop_first();
        let n = line.len() as int;
        lemma_joined_front(lines);
        assert forall|j: int| 0 <= j < n implies #[trigger] text[j] != '\n' by {
            assert(one_line(lines[0]));
            assert(text[j] == line[j]);
        }
        assert(text[n] == '\n');
        lemma_line_end_at(text, 0, n);
        assert(text.subrange(0, n) =~= line);
        lemma_lines_shift(text, n + 1, n + 1);
        assert(text.skip(n + 1) =~= joined(rest));
        assert forall|k: int| 0 <= k < rest.len() implies one_line(#[trigger] rest[k]) by {
            assert(rest[k] == lines[k + 1]);
        }
        lemma_palette_of_joined(rest);
        let again = lines_of(text);
        assert(again == seq![without_return(line)] + lines_of(joined(rest)));
        assert(again.drop_first() =~= lines_of(joined(rest)));
        if without_return(line) != line {
            lemma_trim_last(line);
        }
        assert(trimmed(again[0]) == trimmed(line));
    } else {
        assert(lines_of(text) =~= lines);
    }
}

/// A numeral holds no line feed.
proof fn lemma_decimal_one_line(n: nat)
    ensures
        one_line(decimal(n)),
    decreases n,
{
    if n >= 10 {
        lemma_decimal_one_line(n / 10);
        let rest = decimal(n / 10);
        assert forall|j: int| 0 <= j < decimal(n).len() implies #[trigger] decimal(n)[j] != '\n' by {
            if j < rest.len() {
                assert(decimal(n)[j] == rest[j]);
            }
        }
    }
}

/// A text that starts with another character than a prefix, which is no white
/// space, does not start with the prefix when trimmed.
proof fn lemma_other_start(s: Seq<char>, prefix: Seq<char>)
    requires
        s.len() > 0,
        !is_space(s[0]),
        prefix.len() > 0,
        s[0] != prefix[0],
    ensures
        !prefix.is_prefix_of(trimmed(s)),
{
    lemma_trim_end_prefix(s);
    let t = trim_end(s);
    if prefix.is_prefix_of(t) {
        assert(t.subrange(0, prefix.len() as int)[0] == prefix[0]);
        assert(s.subrange(0, t.len() as int)[0] == t[0]);
    }
}

/// Rewriting a line neither makes it name a palette nor keeps it from it.
proof fn lemma_rewritten(line: Seq<char>, px: nat, py: nat)
    requires
        one_line(line),
    ensures
        one_line(rewritten(line, px, py)),
        "Palette File="@.is_prefix_of(trimmed(rewritten(line, px, py)))
            <==> "Palette File="@.is_prefix_of(trimmed(line)),
        "Palette File="@.is_prefix_of(trimmed(line)) ==> rewritten(line, px, py) == line,
{
    reveal_strlit("Palette File=");
    reveal_strlit("Map Power X");
    reveal_strlit("Map Power Y");
    reveal_strlit("Map Power X=");
    reveal_strlit("Map Power Y=");
    reveal_strlit("Compressed Format Using");
    reveal_strlit("Compressed Format Using=0");
    lemma_decimal_one_line(px);
    lemma_decimal_one_line(py);
    let l = trimmed(line);
    let r = rewritten(line, px, py);
    let x = "Map Power X"@;
    let y = "Map Power Y"@;
    let c = "Compressed Format Using"@;
    let p = "Palette File="@;
    if p.is_prefix_of(l) {
        assert(l[0] == l.subrange(0, p.len() as int)[0]);
        if x.is_prefix_of(l) {
            assert(l[0] == l.subrange(0, x.len() as int)[0]);
        }
        if y.is_prefix_of(l) {
            assert(l[0] == l.subrange(0, y.len() as int)[0]);
        }
        if c.is_prefix_of(l) {
            assert(l[0] == l.subrange(0, c.len() as int)[0]);
        }
    }
    if x.is_prefix_of(l) || y.is_prefix_of(l) || c.is_prefix_of(l) {
        assert(r[0] == 'M' || r[0] == 'C');
        lemma_other_start(r, p);
        let head = if x.is_prefix_of(l) {
            "Map Power X="@
        } else if y.is_prefix_of(l) {
            "Map Power Y="@
        } else {
            "Compressed Format Using=0"@
        };
        assert(one_line(head));
        assert forall|j: int| 0 <= j < r.len() implies #[trigger] r[j] != '\n' by {
            if j < head.len() {
                assert(r[j] == head[j]);
            } else if x.is_prefix_of(l) {
                assert(r[j] == decimal(px)[j - head.len()]);
            } else {
                assert(r[j] == decimal(py)[j - head.len()]);
            }
        }
    }
}

/// Rewriting lines keeps the palette that they name.
proof fn lemma_palette_of_rewritten(lines: Seq<Seq<char>>, px: nat, py: nat)
    requires
        forall|k: int| 0 <= k < lines.len() ==> one_line(#[trigger] lines[k]),
    ensures
        ({
            let after = lines.map_values(|line: Seq<char>| rewritten(line, px, py));
            &&& palette_in(after) == palette_in(lines)
            &&& forall|k: int| 0 <= k < after.len() ==> one_line(#[trigger] after[k])
        }),
    decreases lines.len(),
{
    let after = lines.map_values(|line: Seq<char>| rewritten(line, px, py));
    if lines.len() > 0 {
        let rest = lines.drop_first();
        assert forall|k: int| 0 <= k < rest.len() implies one_line(#[trigger] rest[k]) by {
            assert(rest[k] == lines[k + 1]);
        }
        lemma_palette_of_rewritten(rest, px, py);
        assert(after.drop_first() =~= rest.map_values(
            |line: Seq<char>| rewritten(line, px, py),
        ));
        assert(one_line(lines[0]));
        lemma_rewritten(lines[0], px, py);
        assert forall|k: int| 0 <= k < after.len() implies one_line(#[trigger] after[k]) by {
            assert(one_line(lines[k]));
            lemma_rewritten(lines[k], px, py);
        }
    }
}

/// Rewritten settings name the palette that the settings named.
pub proof fn law_palette_is_kept(text: Seq<char>, px: nat, py: nat)
    ensures
        palette_of(rewritten_settings(text, px, py)) == palette_of(text),
{
    let lines = lines_of(text);
    lemma_lines(text, 0);
    lemma_palette_of_rewritten(lines, px, py);
    lemma_palette_of_joined(lines.map_values(|line: Seq<char>| rewritten(line, px, py)));
}

/// White space is removed on both sides, all of it, and nothing else: what is
/// left lies between two runs of white space and neither starts nor ends with
/// any.
pub proof fn law_trimmed(s: Seq<char>) -> (span: (int, int))
    ensures
        0 <= span.0 <= span.1 <= s.len(),
        trimmed(s) == s.subrange(span.0, span.1),
        forall|i: int| 0 <= i < span.0 ==> is_space(#[trigger] s[i]),
        forall|i: int| span.1 <= i < s.len() ==> is_space(#[trigger] s[i]),
        span.0 < span.1 ==> !is_space(s[span.0]) && !is_space(s[span.1 - 1]),
{
    let a = lemma_trim_start(s);
    let t = s.subrange(a, s.len() as int);
    let b = lemma_trim_end(t);
    assert(t.subrange(0, b) =~= s.subrange(a, a + b));
    assert forall|i: int| a + b <= i < s.len() implies is_space(#[trigger] s[i]) by {
        assert(t[i - a] == s[i]);
    }
    if b > 0 {
        assert(t[b - 1] == s[a + b - 1]);
        assert(t[0] == s[a]);
        if is_space(s[a]) {
            assert(false);
        }
    }
    (a, a + b)
}

proof fn lemma_trim_start(s: Seq<char>) -> (a: int)
    ensures
        0 <= a <= s.len(),
        trim_start(s) == s.subrange(a, s.len() as int),
        forall|i: int| 0 <= i < a ==> is_space(#[trigger] s[i]),
        a < s.len() ==> !is_space(s[a]),
    decreases s.len(),
{
    if s.len() > 0 && is_space(s[0]) {
        let t = s.drop_first();
        let b = lemma_trim_start(t);
        assert(t.subrange(b, t.len() as int) =~= s.subrange(b + 1, s.len() as int));
        assert forall|i: int| 0 <= i < b + 1 implies is_space(#[trigger] s[i]) by {
            if i > 0 {
                assert(t[i - 1] == s[i]);
            }
        }
        if b < t.len() {
            assert(t[b] == s[b + 1]);
        }
        b + 1
    } else {
        assert(s.subrange(0, s.len() as int) =~= s);
        0
    }
}

proof fn lemma_trim_end(s: Seq<char>) -> (b: int)
    ensures
        0 <= b <= s.len(),
        trim_end(s) == s.subrange(0, b),
        forall|i: int| b <= i < s.len() ==> is_space(#[trigger] s[i]),
        0 < b ==> !is_space(s[b - 1]),
    decreases s.len(),
{
    if s.len() > 0 && is_space(s.last()) {
        let t = s.drop_last();
        let b = lemma_trim_end(t);
        assert(t.subrange(0, b) =~= s.subrange(0, b));
        assert forall|i: int| b <= i < s.len() implies is_space(#[trigger] s[i]) by {
            if i < t.len() {
                assert(t[i] == s[i]);
            }
        }
        if b > 0 {
            assert(t[b - 1] == s[b - 1]);
        }
        b
    } else {
        assert(s.subrange(0, s.len() as int) =~= s);
        s.len() as int
    }
}

/// White space: the ASCII controls from tab to carriage return, the space, and
/// the other spaces and separators of Unicode; no letter, digit or sign of
/// ASCII.
pub proof fn law_white_space(c: char)
    ensures
        is_space(' ') && is_space('\t') && is_space('\n') && is_space('\r'),
        (c as u32) < 128 && is_space(c) ==> c == ' ' || 9 <= c as u32 <= 13,
        9 <= c as u32 <= 13 ==> is_space(c),
        (c as u32) >= 128 && is_space(c) <==> {
            ||| c as u32 == 0x85
            ||| c as u32 == 0xa0
            ||| c as u32 == 0x1680
            ||| 0x2000 <= c as u32 <= 0x200a
            ||| 0x2028 <= c as u32 <= 0x2029
            ||| c as u32 == 0x202f
            ||| c as u32 == 0x205f
            ||| c as u32 == 0x3000
        },
{
}

/// The lines of a text: what precedes its first line feed, without a carriage
/// return at its end, and then the lines of what follows it. A text without a
/// line feed is one line, and an empty one has none.
pub proof fn law_lines(head: Seq<char>, rest: Seq<char>)
    requires
        forall|j: int| 0 <= j < head.len() ==> #[trigger] head[j] != '\n',
    ensures
        lines_of(Seq::<char>::empty()) == Seq::<Seq<char>>::empty(),
        head.len() > 0 ==> lines_of(head) == seq![head],
        head.len() > 0 && head.last() == '\r' ==> lines_of(head.push('\n') + rest) == seq![
            head.drop_last(),
        ] + lines_of(rest),
        head.len() == 0 || head.last() != '\r' ==> lines_of(head.push('\n') + rest) == seq![head]
            + lines_of(rest),
{
    if head.len() > 0 {
        lemma_line_end_at(head, 0, head.len() as int);
        assert(head.subrange(0, head.len() as int) =~= head);
    }
    let s = head.push('\n') + rest;
    let e = head.len() as int;
    assert forall|j: int| 0 <= j < e implies #[trigger] s[j] != '\n' by {
        assert(s[j] == head[j]);
    }
    lemma_line_end_at(s, 0, e);
    assert(s.subrange(0, e) =~= head);
    lemma_lines_shifted(head.push('\n'), rest, 0);
}

/// The lines from a position on do not depend on what precedes it.
proof fn lemma_lines_shifted(before: Seq<char>, s: Seq<char>, i: int)
    requires
        0 <= i <= s.len(),
    ensures
        lines_from(before + s, before.len() + i) == lines_from(s, i),
    decreases s.len() - i,
{
    let all = before + s;
    let n = before.len() as int;
    if i < s.len() {
        lemma_line_end(s, i);
        let e = line_end(s, i);
        assert forall|j: int| n + i <= j < n + e implies #[trigger] all[j] != '\n' by {
            assert(all[j] == s[j - n]);
        }
        lemma_line_end_at(all, n + i, n + e);
        assert(all.subrange(n + i, n + e) =~= s.subrange(i, e));
        if e < s.len() {
            lemma_lines_shifted(before, s, e + 1);
        } else {
            assert(all.subrange(n + i, all.len() as int) =~= s.subrange(i, s.len() as int));
        }
    }
}

/// Settings are rewritten line by line: a line that starts, after white space,
/// with one of the three keys is replaced whole, and every other line is kept
/// as it is, white space and all.
pub proof fn law_rewritten_line(line: Seq<char>, px: nat, py: nat)
    ensures
        ({
            let l = trimmed(line);
            let x = "Map Power X"@.is_prefix_of(l);
            let y = "Map Power Y"@.is_prefix_of(l);
            let packed = "Compressed Format Using"@.is_prefix_of(l);
            &&& x ==> rewritten(line, px, py) == "Map Power X="@ + decimal(px)
            &&& y ==> rewritten(line, px, py) == "Map Power Y="@ + decimal(py)
            &&& packed ==> rewritten(line, px, py) == "Compressed Format Using=0"@
            &&& !x && !y && !packed ==> rewritten(line, px, py) == line
        }),
{
    let l = trimmed(line);
    reveal_strlit("Map Power X");
    reveal_strlit("Map Power Y");
    reveal_strlit("Compressed Format Using");
    if "Map Power X"@.is_prefix_of(l) {
        assert(l[10] == l.subrange(0, 11)[10] && l[0] == l.subrange(0, 11)[0]);
    }
    if "Map Power Y"@.is_prefix_of(l) {
        assert(l[10] == l.subrange(0, 11)[10] && l[0] == l.subrange(0, 11)[0]);
    }
    if "Compressed Format Using"@.is_prefix_of(l) {
        assert(l[0] == l.subrange(0, 23)[0]);
    }
}

/// The rewritten settings are the rewritten lines in their order, with a line
/// feed between each two and none at the end.
pub proof fn law_rewritten_lines(
    text: Seq<char>,
    px: nat,
    py: nat,
    line: Seq<char>,
    lines: Seq<Seq<char>>,
)
    ensures
        rewritten_settings(text, px, py) == joined(
            Seq::new(lines_of(text).len(), |k: int| rewritten(lines_of(text)[k], px, py)),
        ),
        joined(Seq::<Seq<char>>::empty()) == Seq::<char>::empty(),
        joined(seq![line]) == line,
        lines.len() > 0 ==> joined(lines.push(line)) == joined(lines) + seq!['\n'] + line,
{
    assert(Seq::new(lines_of(text).len(), |k: int| rewritten(lines_of(text)[k], px, py))
        =~= lines_of(text).map_values(|line: Seq<char>| rewritten(line, px, py)));
    if lines.len() > 0 {
        assert(lines.push(line).drop_last() =~= lines);
        assert(joined(lines.push(line)) =~= joined(lines) + seq!['\n'] + line);
    }
}

/// The palette is what follows `Palette File=` on the first line that has it,
/// without the white space around it, and `harmony.pal` where no line has it.
pub proof fn law_palette(text: Seq<char>, k: int)
    requires
        0 <= k <= lines_of(text).len(),
        forall|i: int|
            0 <= i < k ==> !"Palette File="@.is_prefix_of(trimmed(#[trigger] lines_of(text)[i])),
    ensures
        k < lines_of(text).len() && "Palette File="@.is_prefix_of(trimmed(lines_of(text)[k]))
            ==> palette_of(text) == trimmed(trimmed(lines_of(text)[k]).skip(13)),
        k == lines_of(text).len() ==> palette_of(text) == "harmony.pal"@,
{
    lemma_palette_from(lines_of(text), k);
    lemma_default_palette();
    assert("Palette File="@.len() == 13) by {
        reveal_strlit("Palette File=");
    }
}

/// The default palette has no white space around it.
proof fn lemma_default_palette()
    ensures
        trimmed("harmony.pal"@) == "harmony.pal"@,
{
    reveal_strlit("harmony.pal");
    let s = "harmony.pal"@;
    assert(s.len() == 11 && s[0] == 'h' && s[10] == 'l');
    let (a, b) = law_trimmed(s);
    if a > 0 {
        assert(is_space(s[0]));
    }
    if b < s.len() {
        assert(is_space(s[10]));
    }
    assert(s.subrange(0, s.len() as int) =~= s);
}

proof fn lemma_palette_from(lines: Seq<Seq<char>>, k: int)
    requires
        0 <= k <= lines.len(),
        forall|i: int| 0 <= i < k ==> !"Palette File="@.is_prefix_of(trimmed(#[trigger] lines[i])),
    ensures
        k < lines.len() && "Palette File="@.is_prefix_of(trimmed(lines[k])) ==> palette_in(lines)
            == trimmed(lines[k]).skip("Palette File="@.len() as int),
        k == lines.len() ==> palette_in(lines) == "harmony.pal"@,
    decreases k,
{
    if k > 0 {
        assert(!"Palette File="@.is_prefix_of(trimmed(lines[0])));
        let rest = lines.drop_first();
        assert forall|i: int| 0 <= i < k - 1 implies !"Palette File="@.is_prefix_of(
            trimmed(#[trigger] rest[i]),
        ) by {
            assert(rest[i] == lines[i + 1]);
        }
        lemma_palette_from(rest, k - 1);
        if k < lines.len() {
            assert(rest[k - 1] == lines[k]);
        }
    }
}

} // verus!
