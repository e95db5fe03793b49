//! Text operations, by what was put together and is taken apart again.
use crate::sorted::{
    ascending, lemma_listing, lemma_text_order, lemma_text_transitive,
    listing, text_less,
};
use crate::text::{
    constant_case, decimal, digit, hexadecimal, is_white_space, lemma_position_is, lines,
    replaced, separated, split_at_first, trimmed_end, trimmed_start, upper_case, without_prefix,
};
use vstd::prelude::*;

verus! {

/// A text is split at the first separator: what was before it and what was after it come back.
pub proof fn lemma_split(before: Seq<char>, c: char, after: Seq<char>)
    requires
        !before.contains(c),
    ensures
        split_at_first(before + seq![c] + after, c) == Some((before, after)),
{
    let s = before + seq![c] + after;
    let p = before.len() as int;
    assert forall|i: int| 0 <= i < p implies s[i] != c by {
        assert(before.contains(before[i]));
    }
    assert(s[p] == c);
    lemma_position_is(s, c, p);
    assert(s.take(p) =~= before);
    assert(s.skip(p + 1) =~= after);
}

/// A text without the separator is not split.
pub proof fn lemma_no_split(s: Seq<char>, c: char)
    requires
        !s.contains(c),
    ensures
        split_at_first(s, c) is None,
{
    assert forall|i: int| 0 <= i < s.len() implies s[i] != c by {
        assert(s.contains(s[i]));
    }
    lemma_position_is(s, c, s.len() as int);
}

/// A prefix that was put before a text comes off again.
pub proof fn lemma_prefix(prefix: Seq<char>, rest: Seq<char>)
    ensures
        without_prefix(prefix + rest, prefix) == Some(rest),
{
    assert(prefix =~= (prefix + rest).subrange(0, prefix.len() as int));
    assert((prefix + rest).skip(prefix.len() as int) =~= rest);
}

/// A prefix comes off only where it was put before the rest.
pub proof fn lemma_prefix_only(s: Seq<char>, prefix: Seq<char>)
    ensures
        without_prefix(s, prefix) matches Some(rest) ==> s == prefix + rest,
{
    if prefix.is_prefix_of(s) {
        assert(s =~= prefix + s.skip(prefix.len() as int));
    }
}

/// Lines that are written one after the other are read one after the other, with either line end.
pub proof fn lemma_lines(line: Seq<char>, rest: Seq<char>)
    requires
        !line.contains('\n'),
    ensures
        line.len() > 0 && line.last() == '\r' || lines(line + seq!['\n'] + rest) == seq![line]
            + lines(rest),
        lines(line + seq!['\r', '\n'] + rest) == seq![line] + lines(rest),
        line.len() > 0 ==> lines(line) == seq![line],
        lines(Seq::empty()) == Seq::<Seq<char>>::empty(),
{
    let p = line.len() as int;
    let short = line + seq!['\n'] + rest;
    let long = line + seq!['\r', '\n'] + rest;
    assert forall|i: int| 0 <= i < p implies line[i] != '\n' by {
        assert(line.contains(line[i]));
    }
    lemma_position_is(short, '\n', p);
    assert(short.take(p) =~= line);
    assert(short.skip(p + 1) =~= rest);
    assert(long[p] == '\r' && long[p + 1] == '\n');
    lemma_position_is(long, '\n', p + 1);
    assert(long.take(p + 1) =~= line.push('\r'));
    assert(line.push('\r').drop_last() =~= line);
    assert(long.skip(p + 2) =~= rest);
    lemma_position_is(line, '\n', p);
}

proof fn lemma_trimmed_start(s: Seq<char>)
    ensures
        trimmed_start(s).len() <= s.len(),
        trimmed_start(s) == s.skip(s.len() - trimmed_start(s).len()),
        forall|k: int|
            0 <= k < s.len() - trimmed_start(s).len() ==> is_white_space(#[trigger] s[k]),
        trimmed_start(s).len() > 0 ==> !is_white_space(trimmed_start(s)[0]),
    decreases s.len(),
{
    if s.len() > 0 && is_white_space(s[0]) {
        let t = s.drop_first();
        lemma_trimmed_start(t);
        let n = s.len() - trimmed_start(s).len();
        assert forall|k: int| 0 <= k < n implies is_white_space(#[trigger] s[k]) by {
            if k > 0 {
                assert(t[k - 1] == s[k]);
            }
        }
        assert(trimmed_start(s) =~= s.skip(n));
    } else {
        assert(s.skip(0) =~= s);
    }
}

proof fn lemma_trimmed_end(s: Seq<char>)
    ensures
        trimmed_end(s).len() <= s.len(),
        trimmed_end(s) == s.take(trimmed_end(s).len() as int),
        forall|k: int| trimmed_end(s).len() <= k < s.len() ==> is_white_space(#[trigger] s[k]),
        trimmed_end(s).len() > 0 ==> !is_white_space(trimmed_end(s).last()),
    decreases s.len(),
{
    if s.len() > 0 && is_white_space(s.last()) {
        let t = s.drop_last();
        lemma_trimmed_end(t);
        assert forall|k: int| trimmed_end(s).len() <= k < s.len() implies is_white_space(
            #[trigger] s[k],
        ) by {
            if k < t.len() {
                assert(t[k] == s[k]);
            }
        }
        assert(trimmed_end(s) =~= s.take(trimmed_end(s).len() as int));
    } else {
        assert(s.take(s.len() as int) =~= s);
    }
}

/// Trimming takes white space off both ends, nothing else, and all of it.
pub proof fn lemma_trimmed(s: Seq<char>) -> (from: int)
    ensures
        ({
            let t = trimmed_end(trimmed_start(s));
            &&& 0 <= from <= from + t.len() <= s.len()
            &&& t == s.subrange(from, from + t.len())
            &&& forall|k: int|
                0 <= k < from || from + t.len() <= k < s.len() ==> is_white_space(#[trigger] s[k])
            &&& t.len() > 0 ==> !is_white_space(t[0]) && !is_white_space(t.last())
        }),
{
    let m = trimmed_start(s);
    let t = trimmed_end(m);
    lemma_trimmed_start(s);
    lemma_trimmed_end(m);
    let from = s.len() - m.len();
    assert(t =~= s.subrange(from, from + t.len()));
    assert forall|k: int| 0 <= k < from || from + t.len() <= k < s.len() implies is_white_space(
        #[trigger] s[k],
    ) by {
        if k >= from {
            assert(m[k - from] == s[k]);
        }
    }
    if t.len() > 0 {
        assert(t[0] == m[0]);
    }
    from
}

/// Replacing a character changes that character, everywhere, and no other.
pub proof fn lemma_replaced(s: Seq<char>, from: char, to: char)
    ensures
        replaced(s, from, to).len() == s.len(),
        forall|k: int|
            0 <= k < s.len() ==> (#[trigger] replaced(s, from, to)[k]) == if s[k] == from {
                to
            } else {
                s[k]
            },
{
}

/// A name is written as constants are: in upper case, with every `-` turned into `_`.
pub proof fn lemma_constant_case(s: Seq<char>)
    ensures
        constant_case(s).len() == upper_case(s).len(),
        forall|k: int|
            0 <= k < upper_case(s).len() ==> (#[trigger] constant_case(s)[k]) == if upper_case(
                s,
            )[k] == '-' {
                '_'
            } else {
                upper_case(s)[k]
            },
{
}

/// The number that a character stands for as a digit.
pub open spec fn digit_value(c: char) -> int {
    if c <= '9' {
        c as int - '0' as int
    } else {
        c as int - 'a' as int + 10
    }
}

/// The number that digits stand for.
pub open spec fn number(digits: Seq<char>, base: int) -> int
    decreases digits.len(),
{
    if digits.len() == 0 {
        0
    } else {
        number(digits.drop_last(), base) * base + digit_value(digits.last())
    }
}

proof fn lemma_digit(d: int)
    requires
        0 <= d < 16,
    ensures
        digit_value(digit(d)) == d,
        d < 10 ==> '0' <= digit(d) <= '9',
        d >= 10 ==> 'a' <= digit(d) <= 'f',
{
    reveal_strlit("0123456789abcdef");
}

/// A number that was written in decimal can be read back, and has no leading zeros.
pub proof fn lemma_decimal(n: nat)
    ensures
        number(decimal(n), 10) == n,
        decimal(n).len() > 0,
        forall|k: int| 0 <= k < decimal(n).len() ==> '0' <= #[trigger] decimal(n)[k] <= '9',
        n > 0 ==> decimal(n)[0] != '0',
    decreases n,
{
    if n < 10 {
        lemma_digit(n as int);
        let d = decimal(n);
        assert(d.drop_last() =~= Seq::empty());
        assert(number(d.drop_last(), 10) == 0);
    } else {
        lemma_decimal(n / 10);
        lemma_digit((n % 10) as int);
        assert(decimal(n).drop_last() =~= decimal(n / 10));
        assert(decimal(n)[0] == decimal(n / 10)[0]);
    }
}

/// How many numbers there are of a given number of hexadecimal digits.
pub open spec fn room(width: nat) -> int
    decreases width,
{
    if width == 0 {
        1
    } else {
        16 * room((width - 1) as nat)
    }
}

/// A number that was written in hexadecimal can be read back, and is as wide as it should be.
pub proof fn lemma_hexadecimal(n: nat, width: nat)
    requires
        n < room(width),
    ensures
        number(hexadecimal(n, width), 16) == n,
        hexadecimal(n, width).len() == width,
        forall|k: int|
            0 <= k < width ==> '0' <= #[trigger] hexadecimal(n, width)[k] <= '9' || 'a'
                <= hexadecimal(n, width)[k] <= 'f',
    decreases width,
{
    if width > 0 {
        let less = (width - 1) as nat;
        lemma_hexadecimal(n / 16, less);
        lemma_digit((n % 16) as int);
        assert(hexadecimal(n, width).drop_last() =~= hexadecimal(n / 16, less));
    }
}

/// A hash takes sixteen digits, and these tell it from every other.
pub proof fn lemma_hash_digits(a: u64, b: u64)
    ensures
        hexadecimal(a as nat, 16).len() == 16,
        number(hexadecimal(a as nat, 16), 16) == a,
        hexadecimal(a as nat, 16) == hexadecimal(b as nat, 16) ==> a == b,
{
    reveal_with_fuel(room, 17);
    lemma_hexadecimal(a as nat, 16);
    lemma_hexadecimal(b as nat, 16);
}

/// Texts that are put together in two groups come out as when they are put together at once.
pub proof fn lemma_separated(a: Seq<Seq<char>>, b: Seq<Seq<char>>, separator: Seq<char>)
    requires
        a.len() > 0,
        b.len() > 0,
    ensures
        separated(a + b, separator) == separated(a, separator) + separator + separated(
            b,
            separator,
        ),
    decreases b.len(),
{
    let all = a + b;
    assert(all.last() == b.last());
    if b.len() == 1 {
        assert(all.drop_last() =~= a);
    } else {
        let less = b.drop_last();
        lemma_separated(a, less, separator);
        assert(all.drop_last() =~= a + less);
        assert(separated(all, separator) =~= separated(a, separator) + separator + separated(
            b,
            separator,
        ));
    }
}

/// One text alone is put together as it is, and none gives the empty text.
pub proof fn lemma_separated_one(a: Seq<char>, separator: Seq<char>)
    ensures
        separated(seq![a], separator) == a,
        separated(Seq::empty(), separator) == Seq::<char>::empty(),
{
}

/// The order of texts is decided by the first character in which they differ; a text comes after
/// its own beginnings.
pub proof fn lemma_text_less(a: Seq<char>, b: Seq<char>)
    ensures
        text_less(a, b) <==> exists|k: int|
            {
                &&& 0 <= k <= a.len()
                &&& k < b.len()
                &&& #[trigger] a.take(k) == b.take(k)
                &&& k == a.len() || a[k] < b[k]
            },
    decreases a.len(),
{
    if b.len() == 0 {
    } else if a.len() == 0 {
        assert(a.take(0) =~= b.take(0));
    } else if a[0] != b[0] {
        if a[0] < b[0] {
            assert(a.take(0) =~= b.take(0));
        }
        assert forall|k: int| 0 < k <= a.len() && k < b.len() implies #[trigger] a.take(k)
            != b.take(k) by {
            assert(a.take(k)[0] != b.take(k)[0]);
        }
    } else {
        let x = a.drop_first();
        let y = b.drop_first();
        lemma_text_less(x, y);
        if text_less(x, y) {
            let k = choose|k: int|
                {
                    &&& 0 <= k <= x.len()
                    &&& k < y.len()
                    &&& #[trigger] x.take(k) == y.take(k)
                    &&& k == x.len() || x[k] < y[k]
                };
            assert forall|i: int| 0 <= i < k + 1 implies a[i] == b[i] by {
                if i > 0 {
                    assert(x.take(k)[i - 1] == y.take(k)[i - 1]);
                }
            }
            assert(a.take(k + 1) =~= b.take(k + 1));
        }
        if exists|k: int|
            {
                &&& 0 <= k <= a.len()
                &&& k < b.len()
                &&& #[trigger] a.take(k) == b.take(k)
                &&& k == a.len() || a[k] < b[k]
            } {
            let k = choose|k: int|
                {
                    &&& 0 <= k <= a.len()
                    &&& k < b.len()
                    &&& #[trigger] a.take(k) == b.take(k)
                    &&& k == a.len() || a[k] < b[k]
                };
            assert(k > 0);
            assert forall|i: int| 0 <= i < k - 1 implies x[i] == y[i] by {
                assert(a.take(k)[i + 1] == b.take(k)[i + 1]);
            }
            assert(x.take(k - 1) =~= y.take(k - 1));
        }
    }
}

/// Every list of texts has an ascending list of the same texts.
proof fn lemma_sortable(q: Seq<Seq<char>>) -> (r: Seq<Seq<char>>)
    ensures
        ascending(r),
        r.to_set() == q.to_set(),
    decreases q.len(),
{
    if q.len() == 0 {
        q
    } else {
        let x = q.last();
        let before = lemma_sortable(q.drop_last());
        let r = lemma_place(before, x);
        assert forall|y: Seq<char>| r.to_set().contains(y) <==> q.to_set().contains(y) by {
            if q.contains(y) && y != x {
                let k = choose|k: int| 0 <= k < q.len() && q[k] == y;
                assert(q.drop_last()[k] == y);
                assert(q.drop_last().to_set().contains(y));
                assert(before.to_set().contains(y));
            }
            if before.to_set().contains(y) {
                assert(q.drop_last().to_set().contains(y));
                let k = choose|k: int| 0 <= k < q.drop_last().len() && q.drop_last()[k] == y;
                assert(q[k] == y);
            }
            if y == x {
                assert(q[q.len() - 1] == y);
            }
        }
        assert(r.to_set() =~= q.to_set());
        r
    }
}

proof fn lemma_place(q: Seq<Seq<char>>, x: Seq<char>) -> (r: Seq<Seq<char>>)
    requires
        ascending(q),
    ensures
        ascending(r),
        r.to_set() == q.to_set().insert(x),
    decreases q.len(),
{
    if q.len() == 0 {
        let r = seq![x];
        assert forall|y: Seq<char>| r.to_set().contains(y) <==> q.to_set().insert(x).contains(
            y,
        ) by {
            if y == x {
                assert(r[0] == x);
            }
        }
        assert(r.to_set() =~= q.to_set().insert(x));
        r
    } else {
        let last = q.last();
        lemma_text_order(last, x);
        if last == x {
            assert(q[q.len() - 1] == x);
            assert(q.to_set().insert(x) =~= q.to_set());
            q
        } else if text_less(last, x) {
            let r = q.push(x);
            assert forall|i: int, j: int| 0 <= i < j < r.len() implies text_less(
                #[trigger] r[i],
                #[trigger] r[j],
            ) by {
                if j == q.len() && i < q.len() - 1 {
                    lemma_text_transitive(q[i], last, x);
                }
            }
            lemma_pushed(q, x);
            r
        } else {
            let front = q.drop_last();
            let less = lemma_place(front, x);
            let r = less.push(last);
            assert forall|i: int, j: int| 0 <= i < j < r.len() implies text_less(
                #[trigger] r[i],
                #[trigger] r[j],
            ) by {
                if j == less.len() {
                    assert(less.to_set().contains(less[i]));
                    if less[i] != x {
                        assert(front.to_set().contains(less[i]));
                        let k = choose|k: int| 0 <= k < front.len() && front[k] == less[i];
                        assert(text_less(q[k], q[q.len() - 1]));
                    }
                }
            }
            lemma_pushed(less, last);
            lemma_pushed(front, last);
            assert(front.push(last) =~= q);
            assert(r.to_set() =~= q.to_set().insert(x));
            r
        }
    }
}

proof fn lemma_pushed(q: Seq<Seq<char>>, x: Seq<char>)
    ensures
        q.push(x).to_set() == q.to_set().insert(x),
{
    let r = q.push(x);
    assert forall|y: Seq<char>| r.to_set().contains(y) <==> q.to_set().insert(x).contains(y) by {
        if r.contains(y) && y != x {
            let k = choose|k: int| 0 <= k < r.len() && r[k] == y;
            assert(q[k] == y);
        }
        if q.contains(y) {
            let k = choose|k: int| 0 <= k < q.len() && q[k] == y;
            assert(r[k] == y);
        }
        if y == x {
            assert(r[q.len() as int] == y);
        }
    }
    assert(r.to_set() =~= q.to_set().insert(x));
}

/// The listing of some texts holds each of them once, and nothing else, in ascending order.
pub proof fn lemma_listed(q: Seq<Seq<char>>)
    ensures
        ascending(listing(q.to_set())),
        listing(q.to_set()).no_duplicates(),
        forall|x: Seq<char>| #[trigger] listing(q.to_set()).contains(x) <==> q.contains(x),
{
    let r = lemma_sortable(q);
    lemma_listing(r);
    assert forall|i: int, j: int| 0 <= i < r.len() && 0 <= j < r.len() && i != j implies r[i]
        != r[j] by {
        lemma_text_order(r[i], r[i]);
        lemma_text_order(r[j], r[j]);
        if i < j {
            assert(text_less(r[i], r[j]));
        } else {
            assert(text_less(r[j], r[i]));
        }
    }
    assert forall|x: Seq<char>| #[trigger] r.contains(x) <==> q.contains(x) by {
        assert(r.to_set().contains(x) <==> q.to_set().contains(x));
    }
}

} // verus!
