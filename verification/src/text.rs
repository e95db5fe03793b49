//! Text operations on strings of characters.
use vstd::prelude::*;
use vstd::utf8::is_ascii_chars;

verus! {

/// Where `c` first stands in `s`, or the length of `s` if it does not.
pub open spec fn position(s: Seq<char>, c: char) -> int
    decreases s.len(),
{
    if s.len() == 0 || s[0] == c {
        0
    } else {
        1 + position(s.drop_first(), c)
    }
}

/// The text before and after the first `c`, if there is one.
pub open spec fn split_at_first(s: Seq<char>, c: char) -> Option<(Seq<char>, Seq<char>)> {
    let p = position(s, c);
    if p < s.len() {
        Some((s.take(p), s.skip(p + 1)))
    } else {
        None
    }
}

/// What is left of `s` after `prefix`, if it starts with it.
pub open spec fn without_prefix(s: Seq<char>, prefix: Seq<char>) -> Option<Seq<char>> {
    if prefix.is_prefix_of(s) {
        Some(s.skip(prefix.len() as int))
    } else {
        None
    }
}

/// `s` without one carriage return at its end.
pub open spec fn without_cr(s: Seq<char>) -> Seq<char> {
    if s.len() > 0 && s.last() == '\r' {
        s.drop_last()
    } else {
        s
    }
}

/// The lines of `s`. Each ends in `\n` or `\r\n`, which do not belong to it; the last line may go
/// without.
pub open spec fn lines(s: Seq<char>) -> Seq<Seq<char>>
    decreases s.len(),
{
    let p = position(s, '\n');
    if s.len() == 0 {
        Seq::empty()
    } else if p < 0 || p >= s.len() {
        seq![s]
    } else {
        seq![without_cr(s.take(p))] + lines(s.skip(p + 1))
    }
}

/// `s` with every `from` turned into `to`.
pub open spec fn replaced(s: Seq<char>, from: char, to: char) -> Seq<char> {
    s.map_values(
        |c: char|
            if c == from {
                to
            } else {
                c
            },
    )
}

/// The characters that Unicode gives the property White_Space.
pub open spec fn is_white_space(c: char) -> bool {
    ||| '\u{9}' <= c <= '\u{d}'
    ||| c == '\u{20}'
    ||| c == '\u{85}'
    ||| c == '\u{a0}'
    ||| c == '\u{1680}'
    ||| '\u{2000}' <= c <= '\u{200a}'
    ||| c == '\u{2028}'
    ||| c == '\u{2029}'
    ||| c == '\u{202f}'
    ||| c == '\u{205f}'
    ||| c == '\u{3000}'
}

/// `s` without the white space at its start.
pub open spec fn trimmed_start(s: Seq<char>) -> Seq<char>
    decreases s.len(),
{
    if s.len() > 0 && is_white_space(s[0]) {
        trimmed_start(s.drop_first())
    } else {
        s
    }
}

/// `s` without the white space at its end.
pub open spec fn trimmed_end(s: Seq<char>) -> Seq<char>
    decreases s.len(),
{
    if s.len() > 0 && is_white_space(s.last()) {
        trimmed_end(s.drop_last())
    } else {
        s
    }
}

/// The character for a digit below sixteen.
pub open spec fn digit(d: int) -> char {
    "0123456789abcdef"@[d]
}

/// `n` in decimal, without leading zeros.
pub open spec fn decimal(n: nat) -> Seq<char>
    decreases n,
{
    if n < 10 {
        seq![digit(n as int)]
    } else {
        decimal(n / 10).push(digit((n % 10) as int))
    }
}

/// The last `width` digits of `n` in hexadecimal, with leading zeros.
pub open spec fn hexadecimal(n: nat, width: nat) -> Seq<char>
    decreases width,
{
    if width == 0 {
        Seq::empty()
    } else {
        hexadecimal(n / 16, (width - 1) as nat).push(digit((n % 16) as int))
    }
}

/// The capital of an ASCII letter; any other character as it is.
pub open spec fn ascii_capital(c: char) -> char {
    if 'a' <= c <= 'z' {
        (c as u32 - 32) as char
    } else {
        c
    }
}

/// What Unicode's mapping to upper case makes of a text.
pub uninterp spec fn upper_case(s: Seq<char>) -> Seq<char>;

/// `str::to_uppercase`. The result depends on the text alone; on ASCII text it is known in full:
/// the letters become capitals and nothing else changes.
pub assume_specification[ str::to_uppercase ](s: &str) -> (r: String)
    ensures
        r@ == upper_case(s@),
        is_ascii_chars(s@) ==> r@ == s@.map_values(|c: char| ascii_capital(c)),
;

pub proof fn lemma_position(s: Seq<char>, c: char)
    ensures
        0 <= position(s, c) <= s.len(),
        position(s, c) < s.len() ==> s[position(s, c)] == c,
        forall|i: int| 0 <= i < position(s, c) ==> s[i] != c,
    decreases s.len(),
{
    if s.len() > 0 && s[0] != c {
        lemma_position(s.drop_first(), c);
        assert forall|i: int| 0 <= i < position(s, c) implies s[i] != c by {
            if i > 0 {
                assert(s.drop_first()[i - 1] == s[i]);
            }
        }
    }
}

/// `position` is the only index with these properties.
pub proof fn lemma_position_is(s: Seq<char>, c: char, p: int)
    requires
        0 <= p <= s.len(),
        p < s.len() ==> s[p] == c,
        forall|i: int| 0 <= i < p ==> s[i] != c,
    ensures
        position(s, c) == p,
{
    lemma_position(s, c);
    let q = position(s, c);
    if q < p {
        assert(s[q] != c);
    } else if p < q {
        assert(s[p] != c);
    }
}

/// The characters of a string.
pub fn to_chars(s: &str) -> (v: Vec<char>)
    ensures
        v@ == s@,
{
    let mut v: Vec<char> = Vec::new();
    for c in it: s.chars()
        invariant
            v@ == it.seq().take(it.index()),
            it.seq() == s@,
    {
        v.push(c);
        proof {
            assert(it.seq().take(it.index() + 1) =~= it.seq().take(it.index()).push(c));
        }
    }
    assert(s@.take(s@.len() as int) =~= s@);
    v
}

/// The first `c` at or after `from`, or the length.
fn find_from(cs: &Vec<char>, c: char, from: usize) -> (p: usize)
    requires
        from <= cs@.len(),
    ensures
        from <= p <= cs@.len(),
        p == from + position(cs@.skip(from as int), c),
        p < cs@.len() ==> cs@[p as int] == c,
{
    let mut p: usize = from;
    while p < cs.len() && cs[p] != c
        invariant
            from <= p <= cs@.len(),
            forall|i: int| from <= i < p ==> cs@[i] != c,
        decreases cs@.len() - p,
    {
        p = p + 1;
    }
    proof {
        lemma_position_is(cs@.skip(from as int), c, p - from);
    }
    p
}

/// Splits at the first `c`.
pub fn split_once<'a>(s: &'a str, c: char) -> (r: Option<(&'a str, &'a str)>)
    ensures
        match r {
            Some((before, after)) => split_at_first(s@, c) == Some((before@, after@)),
            None => split_at_first(s@, c) is None,
        },
{
    let cs = to_chars(s);
    let p = find_from(&cs, c, 0);
    assert(cs@.skip(0) =~= s@);
    if p < cs.len() {
        let before = s.substring_char(0, p);
        let after = s.substring_char(p + 1, cs.len());
        assert(before@ =~= s@.take(p as int));
        assert(after@ =~= s@.skip(p + 1));
        Some((before, after))
    } else {
        None
    }
}

/// Takes `prefix` off the start of `s`.
pub fn strip_prefix<'a>(s: &'a str, prefix: &str) -> (r: Option<&'a str>)
    ensures
        match r {
            Some(rest) => without_prefix(s@, prefix@) == Some(rest@),
            None => without_prefix(s@, prefix@) is None,
        },
{
    let cs = to_chars(s);
    let ps = to_chars(prefix);
    if ps.len() > cs.len() {
        return None;
    }
    let mut i: usize = 0;
    while i < ps.len()
        invariant
            cs@ == s@,
            ps@ == prefix@,
            i <= ps@.len() <= cs@.len(),
            forall|j: int| 0 <= j < i ==> cs@[j] == ps@[j],
        decreases ps@.len() - i,
    {
        if cs[i] != ps[i] {
            assert(!prefix@.is_prefix_of(s@)) by {
                if prefix@.is_prefix_of(s@) {
                    assert(prefix@[i as int] == s@.subrange(0, prefix@.len() as int)[i as int]);
                }
            }
            return None;
        }
        i = i + 1;
    }
    assert(prefix@ =~= s@.subrange(0, prefix@.len() as int));
    let rest = s.substring_char(ps.len(), cs.len());
    assert(rest@ =~= s@.skip(prefix@.len() as int));
    Some(rest)
}

/// Whether two strings are the same text.
pub fn same_text(a: &str, b: &str) -> (r: bool)
    ensures
        r == (a@ == b@),
{
    a.to_owned() == b.to_owned()
}

/// The characters that a list of strings holds.
pub open spec fn views(v: Seq<&str>) -> Seq<Seq<char>> {
    v.map_values(|s: &str| s@)
}

/// The characters of several strings.
pub open spec fn texts(v: Seq<String>) -> Seq<Seq<char>> {
    v.map_values(|s: String| s@)
}

/// Splits a text into its lines.
pub fn split_lines<'a>(s: &'a str) -> (r: Vec<&'a str>)
    ensures
        views(r@) == lines(s@),
{
    let cs = to_chars(s);
    let mut r: Vec<&'a str> = Vec::new();
    let mut from: usize = 0;
    assert(s@.skip(0) =~= s@);
    while from < cs.len()
        invariant
            cs@ == s@,
            from <= cs@.len(),
            views(r@) + lines(s@.skip(from as int)) =~= lines(s@),
        decreases cs@.len() - from,
    {
        let p = find_from(&cs, '\n', from);
        let ghost rest = s@.skip(from as int);
        let ghost done = r@;
        if p < cs.len() {
            let end = if p > from && cs[p - 1] == '\r' {
                p - 1
            } else {
                p
            };
            let line = s.substring_char(from, end);
            proof {
                assert(rest.take(p - from) =~= s@.subrange(from as int, p as int));
                assert(line@ =~= without_cr(rest.take(p - from)));
                assert(rest.skip(p - from + 1) =~= s@.skip(p + 1));
            }
            r.push(line);
            from = p + 1;
            assert(views(r@) =~= views(done).push(line@));
        } else {
            let line = s.substring_char(from, cs.len());
            assert(line@ =~= rest);
            r.push(line);
            from = cs.len();
            assert(views(r@) =~= views(done).push(line@));
            assert(s@.skip(from as int) =~= Seq::empty());
        }
    }
    assert(s@.skip(from as int) =~= Seq::empty());
    assert(views(r@) =~= lines(s@));
    r
}

/// The texts one after the other, with `separator` between them.
pub open spec fn separated(parts: Seq<Seq<char>>, separator: Seq<char>) -> Seq<char>
    decreases parts.len(),
{
    if parts.len() == 0 {
        Seq::empty()
    } else if parts.len() == 1 {
        parts[0]
    } else {
        separated(parts.drop_last(), separator) + separator + parts.last()
    }
}

/// Puts texts together, with `separator` between them.
pub fn join_texts(parts: &Vec<&str>, separator: &str) -> (r: String)
    ensures
        r@ == separated(views(parts@), separator@),
{
    let mut r = String::new();
    let mut k: usize = 0;
    assert(views(parts@).take(0) =~= Seq::empty());
    while k < parts.len()
        invariant
            k <= parts@.len(),
            r@ == separated(views(parts@).take(k as int), separator@),
        decreases parts@.len() - k,
    {
        let ghost longer = views(parts@).take(k + 1);
        assert(longer.drop_last() =~= views(parts@).take(k as int));
        assert(longer.last() == parts@[k as int]@);
        if k > 0 {
            r.append(separator);
        }
        r.append(parts[k]);
        assert(r@ =~= separated(longer, separator@));
        k = k + 1;
    }
    assert(views(parts@).take(k as int) =~= views(parts@));
    r
}

/// Turns every `from` into the one character of `to`.
pub fn replace_char(s: &str, from: char, to: &str) -> (r: String)
    requires
        to@.len() == 1,
    ensures
        r@ == replaced(s@, from, to@[0]),
{
    let cs = to_chars(s);
    let mut r = String::new();
    let mut i: usize = 0;
    while i < cs.len()
        invariant
            cs@ == s@,
            to@.len() == 1,
            i <= cs@.len(),
            r@ == replaced(s@.take(i as int), from, to@[0]),
        decreases cs@.len() - i,
    {
        let piece = if cs[i] == from {
            to
        } else {
            s.substring_char(i, i + 1)
        };
        r.append(piece);
        proof {
            assert(r@ =~= replaced(s@.take(i + 1), from, to@[0]));
        }
        i = i + 1;
    }
    assert(s@.take(i as int) =~= s@);
    r
}

/// A name as constants and environment variables are written: in upper case, with `_` for `-`.
pub open spec fn constant_case(s: Seq<char>) -> Seq<char> {
    replaced(upper_case(s), '-', '_')
}

/// `constant_case` of ASCII text.
pub open spec fn ascii_constant_case(s: Seq<char>) -> Seq<char> {
    replaced(s.map_values(|c: char| ascii_capital(c)), '-', '_')
}

/// Writes a name as constants and environment variables are written.
pub fn constant_name(s: &str) -> (r: String)
    ensures
        r@ == constant_case(s@),
        is_ascii_chars(s@) ==> r@ == ascii_constant_case(s@),
{
    let upper = s.to_uppercase();
    proof {
        reveal_strlit("_");
    }
    replace_char(upper.as_str(), '-', "_")
}

/// Whether a character is white space.
fn white_space(c: char) -> (r: bool)
    ensures
        r == is_white_space(c),
{
    ('\u{9}' <= c && c <= '\u{d}') || c == '\u{20}' || c == '\u{85}' || c == '\u{a0}' || c
        == '\u{1680}' || ('\u{2000}' <= c && c <= '\u{200a}') || c == '\u{2028}' || c == '\u{2029}'
        || c == '\u{202f}' || c == '\u{205f}' || c == '\u{3000}'
}

/// Takes the white space off both ends.
pub fn trim<'a>(s: &'a str) -> (r: &'a str)
    ensures
        r@ == trimmed_end(trimmed_start(s@)),
{
    let cs = to_chars(s);
    let mut from: usize = 0;
    assert(s@.skip(0) =~= s@);
    while from < cs.len() && white_space(cs[from])
        invariant
            cs@ == s@,
            from <= cs@.len(),
            trimmed_start(s@.skip(from as int)) == trimmed_start(s@),
        decreases cs@.len() - from,
    {
        assert(s@.skip(from as int).drop_first() =~= s@.skip(from + 1));
        from = from + 1;
    }
    let ghost rest = s@.skip(from as int);
    let mut to: usize = cs.len();
    assert(s@.subrange(from as int, to as int) =~= rest);
    while to > from && white_space(cs[to - 1])
        invariant
            cs@ == s@,
            from <= to <= cs@.len(),
            trimmed_end(s@.subrange(from as int, to as int)) == trimmed_end(rest),
        decreases to,
    {
        assert(s@.subrange(from as int, to as int).drop_last() =~= s@.subrange(
            from as int,
            to - 1,
        ));
        to = to - 1;
    }
    s.substring_char(from, to)
}

/// The digit as a string of its own.
fn digit_str(d: usize) -> (r: &'static str)
    requires
        d < 16,
    ensures
        r@ == seq![digit(d as int)],
{
    proof {
        reveal_strlit("0123456789abcdef");
    }
    let r = "0123456789abcdef".substring_char(d, d + 1);
    assert(r@ =~= seq![digit(d as int)]);
    r
}

/// Writes a number in decimal.
pub fn decimal_string(n: u64) -> (r: String)
    ensures
        r@ == decimal(n as nat),
    decreases n,
{
    let mut r = if n < 10 {
        String::new()
    } else {
        decimal_string(n / 10)
    };
    r.append(digit_str((n % 10) as usize));
    assert(r@ =~= decimal(n as nat));
    r
}

/// Writes the last `width` hexadecimal digits of a number.
pub fn hex_string(n: u64, width: usize) -> (r: String)
    ensures
        r@ == hexadecimal(n as nat, width as nat),
    decreases width,
{
    if width == 0 {
        return String::new();
    }
    let mut r = hex_string(n / 16, width - 1);
    r.append(digit_str((n % 16) as usize));
    assert(r@ =~= hexadecimal(n as nat, width as nat));
    r
}

} // verus!
