//! How the components of a path follow from those of its parts.
use crate::path::{
    below, component_end, components, file_name_of, joined, lemma_span_starts, lemma_spans,
    name_end, names, parent_of, spans, starts_component, stretch, DOT, SLASH,
};
use vstd::prelude::*;

verus! {

spec fn shifted(s: Seq<(int, int)>, by: int) -> Seq<(int, int)> {
    s.map_values(|c: (int, int)| (c.0 + by, c.1 + by))
}

/// A path may be cut at `e` without cutting through a component.
spec fn ends_at(p: Seq<u8>, e: int) -> bool {
    e == p.len() || p[e] == SLASH || (e > 0 && p[e - 1] == SLASH)
}

/// A name has no separator in it and ends at one, or with the path.
proof fn lemma_name(p: Seq<u8>, i: int)
    requires
        0 <= i <= p.len(),
    ensures
        i <= name_end(p, i) <= p.len(),
        name_end(p, i) == p.len() || p[name_end(p, i)] == SLASH,
        forall|j: int| i <= j < name_end(p, i) ==> p[j] != SLASH,
    decreases p.len() - i,
{
    if i < p.len() && p[i] != SLASH {
        lemma_name(p, i + 1);
    }
}

proof fn lemma_cut_name(p: Seq<u8>, s: int, e: int, i: int)
    requires
        0 <= s <= e <= p.len(),
        ends_at(p, e),
        0 <= i < e - s,
    ensures
        name_end(p.subrange(s, e), i) + s == name_end(p, s + i),
    decreases e - i,
{
    let q = p.subrange(s, e);
    if q[i] != SLASH {
        if i + 1 < e - s {
            lemma_cut_name(p, s, e, i + 1);
        } else {
            assert(name_end(q, i + 1) == i + 1);
            assert(name_end(p, e) == e);
        }
    }
}

/// The components that start in a part of a path are those of that part.
proof fn lemma_cut(p: Seq<u8>, s: int, e: int, n: int)
    requires
        0 <= s <= e <= p.len(),
        0 <= n <= e - s,
        ends_at(p, e),
        s == 0 || s == e || (p[s] != SLASH && p[s - 1] == SLASH && starts_component(p, s)),
    ensures
        spans(p, s + n) == spans(p, s) + shifted(spans(p.subrange(s, e), n), s),
    decreases n,
{
    let q = p.subrange(s, e);
    if n <= 0 {
        assert(spans(p, s + n) =~= spans(p, s) + shifted(spans(q, n), s));
    } else {
        let i = n - 1;
        lemma_cut(p, s, e, i);
        lemma_cut_name(p, s, e, i);
        assert(q[i] == p[s + i]);
        assert(starts_component(q, i) == starts_component(p, s + i));
        assert(component_end(q, i) + s == component_end(p, s + i));
        assert(spans(p, s + n) =~= spans(p, s) + shifted(spans(q, n), s));
    }
}

/// The components before a component are those that start before it.
proof fn lemma_before(p: Seq<u8>, n: int, k: int)
    requires
        0 <= n <= p.len(),
        0 <= k < spans(p, n).len(),
    ensures
        0 <= spans(p, n)[k].0 < n,
        starts_component(p, spans(p, n)[k].0),
        spans(p, spans(p, n)[k].0) == spans(p, n).take(k),
    decreases n,
{
    lemma_spans(p, n);
    lemma_span_starts(p, n, k);
    if n > 0 {
        let shorter = spans(p, n - 1);
        if k < shorter.len() {
            lemma_before(p, n - 1, k);
            assert(spans(p, n).take(k) =~= shorter.take(k));
        } else {
            assert(spans(p, n).take(k) =~= shorter);
        }
    }
}

/// No component starts inside another.
proof fn lemma_inside(p: Seq<u8>, x: int, j: int)
    requires
        0 <= x < p.len(),
        starts_component(p, x),
        x + 1 <= j <= component_end(p, x),
    ensures
        spans(p, j) == spans(p, x + 1),
    decreases j,
{
    lemma_name(p, x);
    if j > x + 1 {
        lemma_inside(p, x, j - 1);
        assert(p[j - 1] != SLASH && p[j - 2] != SLASH);
        assert(!starts_component(p, j - 1));
    }
}

/// A stretch of a path leads through the components that it was cut out for. If it does not begin
/// at the start of the path, it is relative and does not begin with `.`.
pub proof fn lemma_stretch(p: Seq<u8>, from: int, to: int)
    requires
        0 <= from <= to <= components(p).len(),
    ensures
        names(stretch(p, from, to)) == names(p).subrange(from, to),
        from > 0 && from < to ==> !leads_off(stretch(p, from, to)),
{
    let all = components(p);
    let q = stretch(p, from, to);
    if from == to {
        assert(names(q) =~= names(p).subrange(from, to));
    } else {
        let len = p.len() as int;
        lemma_spans(p, len);
        lemma_before(p, len, from);
        lemma_before(p, len, to - 1);
        lemma_span_starts(p, len, to - 1);
        let s = all[from].0;
        let x = all[to - 1].0;
        let e = all[to - 1].1;
        assert(from < to - 1 ==> s < x);
        lemma_name(p, x);
        if from > 0 {
            assert(all[0].0 < all[from].0);
            assert(s > 0 && p[s] != SLASH && p[s - 1] == SLASH);
        } else {
            assert(s == 0);
        }
        assert(ends_at(p, e));
        lemma_cut(p, s, e, e - s);
        lemma_inside(p, x, e);
        assert(spans(p, e) =~= all.take(to)) by {
            assert(spans(p, x + 1) =~= all.take(to - 1).push(all[to - 1]));
        }
        let own = components(q);
        assert(spans(p, e) == all.take(from) + shifted(own, s));
        assert(own.len() == to - from);
        lemma_spans(q, q.len() as int);
        assert forall|k: int| 0 <= k < own.len() implies names(q)[k] == names(p)[from + k] by {
            assert(all.take(to)[from + k] == (all.take(from) + shifted(own, s))[from + k]);
            assert(all[from + k] == (own[k].0 + s, own[k].1 + s));
            assert(names(q)[k] =~= names(p)[from + k]);
        }
        assert(names(q) =~= names(p).subrange(from, to));
        if from > 0 {
            assert(q[0] == p[s]);
            if q.len() == 1 {
                assert(e == s + 1);
            } else {
                assert(q[1] == p[s + 1]);
            }
            assert(!leads_off(q));
        }
    }
}

/// A stretch of a path is cut out of it in one piece, and no separator is left at its end unless it
/// is the root.
pub proof fn lemma_stretch_piece(p: Seq<u8>, from: int, to: int) -> (s: int)
    requires
        0 <= from < to <= components(p).len(),
    ensures
        0 <= s < s + stretch(p, from, to).len() <= p.len(),
        stretch(p, from, to) == p.subrange(s, s + stretch(p, from, to).len()),
        from == 0 ==> s == 0,
        stretch(p, from, to).last() != SLASH || stretch(p, from, to) == seq![SLASH],
{
    let n = p.len() as int;
    lemma_spans(p, n);
    lemma_span_starts(p, n, to - 1);
    let s = components(p)[from].0;
    let x = components(p)[to - 1].0;
    let e = components(p)[to - 1].1;
    assert(from < to - 1 ==> s < x);
    lemma_name(p, x);
    let q = stretch(p, from, to);
    assert(q =~= p.subrange(s, s + q.len()));
    assert(q.last() == p[e - 1]);
    if p[x] == SLASH {
        assert(x == 0);
        assert(q =~= seq![SLASH]);
    }
    s
}

/// Appending such a path to another does not add its components: it is absolute or begins with `.`.
pub open spec fn leads_off(p: Seq<u8>) -> bool {
    p.len() > 0 && (p[0] == SLASH || (p[0] == DOT && (p.len() == 1 || p[1] == SLASH)))
}

/// The parent of a path leads through all of its components but the last.
pub proof fn lemma_parent(p: Seq<u8>)
    requires
        parent_of(p) is Some,
    ensures
        names(parent_of(p)->0) == names(p).drop_last(),
{
    let n = components(p).len() as int;
    lemma_stretch(p, 0, n - 1);
    assert(names(p).subrange(0, n - 1) =~= names(p).drop_last());
}

proof fn lemma_joined_components(base: Seq<u8>, rest: Seq<u8>)
    requires
        base.len() > 0,
        !leads_off(rest),
    ensures
        ({
            let p = joined(base, rest);
            components(p) == shifted(components(base), 0) + shifted(
                components(rest),
                p.len() - rest.len(),
            )
        }),
{
    let p = joined(base, rest);
    let b = base.len() as int;
    let s = p.len() - rest.len();
    assert(p.subrange(0, b) =~= base);
    assert(p.subrange(s, p.len() as int) =~= rest);
    assert(ends_at(p, b));
    lemma_cut(p, 0, b, b);
    if s > b {
        assert(p[b] == SLASH);
    }
    assert(spans(p, s) == spans(p, b));
    if rest.len() > 0 {
        assert(p[s] == rest[0]);
        assert(p[s - 1] == SLASH);
        if rest.len() > 1 {
            assert(p[s + 1] == rest[1]);
        }
        assert(starts_component(p, s));
    }
    lemma_cut(p, s, p.len() as int, rest.len() as int);
    assert(components(p) =~= shifted(components(base), 0) + shifted(components(rest), s));
}

/// A path that is appended to another leads through the components of both.
pub proof fn lemma_joined(base: Seq<u8>, rest: Seq<u8>)
    requires
        !leads_off(rest),
    ensures
        names(joined(base, rest)) == names(base) + names(rest),
{
    let p = joined(base, rest);
    let b = base.len() as int;
    let s = p.len() - rest.len();
    if b == 0 {
        assert(p =~= rest);
        assert(names(p) =~= names(base) + names(rest));
    } else {
        lemma_joined_components(base, rest);
        let x = components(base);
        let y = components(rest);
        lemma_spans(base, b);
        lemma_spans(rest, rest.len() as int);
        assert forall|k: int| 0 <= k < names(p).len() implies names(p)[k] == (names(base) + names(
            rest,
        ))[k] by {
            if k < x.len() {
                assert(components(p)[k] == (x[k].0, x[k].1));
                assert(names(p)[k] =~= names(base)[k]);
            } else {
                let j = k - x.len();
                assert(components(p)[k] == (y[j].0 + s, y[j].1 + s));
                assert(names(p)[k] =~= names(rest)[j]);
            }
        }
        assert(names(p) =~= names(base) + names(rest));
    }
}

/// Every separator but the first of a path only ends what is before it: at the very start it is the
/// root.
pub proof fn lemma_separator_names(base: Seq<u8>)
    ensures
        names(base.push(SLASH)) == if base.len() == 0 {
            seq![seq![SLASH]]
        } else {
            names(base)
        },
        names(Seq::empty()) == Seq::<Seq<u8>>::empty(),
{
    let p = base.push(SLASH);
    let b = base.len() as int;
    if b == 0 {
        reveal_with_fuel(spans, 3);
        assert(p =~= seq![SLASH]);
        assert(components(p) =~= seq![(0int, 1int)]);
        assert(p.subrange(0, 1) =~= seq![SLASH]);
        assert(names(p) =~= seq![seq![SLASH]]);
    } else {
        assert(p.subrange(0, b) =~= base);
        lemma_cut(p, 0, b, b);
        assert(components(p) =~= shifted(components(base), 0));
        lemma_spans(base, b);
        assert forall|k: int| 0 <= k < names(p).len() implies names(p)[k] == names(base)[k] by {
            let c = components(base)[k];
            assert(components(p)[k] == (c.0, c.1));
            assert(names(p)[k] =~= names(base)[k]);
        }
        assert(names(p) =~= names(base));
    }
    assert(names(Seq::<u8>::empty()) =~= Seq::<Seq<u8>>::empty());
}

/// A name: some bytes without a separator.
pub open spec fn is_name(name: Seq<u8>) -> bool {
    name.len() > 0 && !name.contains(SLASH)
}

proof fn lemma_name_alone(name: Seq<u8>)
    requires
        is_name(name),
    ensures
        components(name) == seq![(0int, name.len() as int)],
        names(name) == seq![name],
{
    let n = name.len() as int;
    lemma_name(name, 0);
    assert(name_end(name, 0) == n) by {
        if name_end(name, 0) < n {
            assert(name.contains(name[name_end(name, 0)]));
        }
    }
    assert(name[0] != SLASH) by {
        assert(name.contains(name[0]));
    }
    lemma_inside(name, 0, n);
    reveal_with_fuel(spans, 2);
    assert(components(name) =~= seq![(0int, n)]);
    assert(name.subrange(0, n) =~= name);
    assert(names(name) =~= seq![name]);
}

/// A name after a separator is one more component, unless it is `.`, which leads nowhere. A name
/// alone is the only component.
pub proof fn lemma_name_added(base: Seq<u8>, name: Seq<u8>)
    requires
        is_name(name),
    ensures
        names(name) == seq![name],
        names(base.push(SLASH) + name) == names(base.push(SLASH)) + if name == seq![DOT] {
            Seq::<Seq<u8>>::empty()
        } else {
            seq![name]
        },
{
    let q = base.push(SLASH);
    let p = q + name;
    lemma_name_alone(name);
    assert(name[0] != SLASH) by {
        assert(name.contains(name[0]));
    }
    if name == seq![DOT] {
        let n = q.len() as int;
        assert(p.subrange(0, n) =~= q);
        assert(p[n - 1] == SLASH);
        lemma_cut(p, 0, n, n);
        assert(spans(p, n + 1) == spans(p, n));
        assert(components(p) =~= shifted(components(q), 0));
        lemma_spans(q, n);
        assert forall|k: int| 0 <= k < names(p).len() implies names(p)[k] == names(q)[k] by {
            let c = components(q)[k];
            assert(components(p)[k] == (c.0, c.1));
            assert(names(p)[k] =~= names(q)[k]);
        }
        assert(names(p) =~= names(q) + Seq::<Seq<u8>>::empty());
    } else {
        assert(!leads_off(name)) by {
            if name[0] == DOT && name.len() == 1 {
                assert(name =~= seq![DOT]);
            }
            if name.len() > 1 {
                assert(name.contains(name[1]));
            }
        }
        lemma_joined(q, name);
        assert(joined(q, name) =~= p);
    }
}

/// A path ends with a name that counts.
pub open spec fn ends_tidy(p: Seq<u8>) -> bool {
    &&& p.len() > 0
    &&& p.last() != SLASH
    &&& !(p.len() > 1 && p.last() == DOT && p[p.len() - 2] == SLASH)
}

proof fn lemma_start_listed(p: Seq<u8>, n: int, i: int) -> (k: int)
    requires
        0 <= i < n <= p.len(),
        starts_component(p, i),
    ensures
        0 <= k < spans(p, n).len(),
        spans(p, n)[k].0 == i,
    decreases n,
{
    if i == n - 1 {
        spans(p, n).len() - 1
    } else {
        lemma_start_listed(p, n - 1, i)
    }
}

proof fn lemma_last_separator(p: Seq<u8>, e: int, m: int) -> (i: int)
    requires
        0 <= e < m < p.len(),
        p[e] == SLASH,
        forall|j: int| m <= j < p.len() ==> p[j] != SLASH,
    ensures
        e < i < p.len(),
        p[i - 1] == SLASH,
        forall|j: int| i <= j < p.len() ==> p[j] != SLASH,
    decreases m,
{
    if p[m - 1] == SLASH {
        m
    } else {
        lemma_last_separator(p, e, m - 1)
    }
}

proof fn lemma_last_component(p: Seq<u8>)
    requires
        ends_tidy(p),
    ensures
        components(p).len() > 0,
        components(p).last().1 == p.len(),
{
    let n = p.len() as int;
    lemma_spans(p, n);
    let last = components(p).len() - 1;
    lemma_span_starts(p, n, last);
    let x = components(p)[last].0;
    let e = components(p)[last].1;
    lemma_name(p, x);
    if e < n {
        if p[x] == SLASH {
            assert(e == 1);
            let m = n - 1;
            let i = if p[e] == SLASH {
                lemma_last_separator(p, e, m)
            } else {
                lemma_last_separator(p, 0, m)
            };
            if !starts_component(p, i) {
                assert(i + 1 == n);
            }
            let k = lemma_start_listed(p, n, i);
            assert(i > x);
        } else {
            let i = lemma_last_separator(p, e, n - 1);
            if !starts_component(p, i) {
                assert(i + 1 == n);
            }
            let k = lemma_start_listed(p, n, i);
            assert(i > x);
        }
    }
}

/// What was appended to a directory is what lies below it, byte for byte.
pub proof fn lemma_below(base: Seq<u8>, rest: Seq<u8>)
    requires
        base.len() > 0,
        !leads_off(rest),
        ends_tidy(rest),
    ensures
        below(joined(base, rest), base) == Some(rest),
{
    let p = joined(base, rest);
    let s = p.len() - rest.len();
    lemma_joined(base, rest);
    lemma_joined_components(base, rest);
    lemma_last_component(rest);
    lemma_spans(rest, rest.len() as int);
    let k = components(base).len() as int;
    let n = components(p).len() as int;
    assert(names(base) =~= names(p).subrange(0, k));
    assert(components(p)[k] == (components(rest)[0].0 + s, components(rest)[0].1 + s));
    assert(components(p)[n - 1] == (
        components(rest).last().0 + s,
        components(rest).last().1 + s,
    ));
    assert(stretch(p, k, n) =~= rest);
}

/// A name that was appended to a directory comes off again: what is left is the directory.
pub proof fn lemma_parent_of(base: Seq<u8>, name: Seq<u8>)
    requires
        ends_tidy(base),
        is_name(name),
        name != seq![DOT],
    ensures
        parent_of(base.push(SLASH) + name) == Some(base),
        parent_of(seq![SLASH] + name) == Some(seq![SLASH]),
        parent_of(name) == Some(Seq::<u8>::empty()),
{
    lemma_name_alone(name);
    assert(name[0] != SLASH) by {
        assert(name.contains(name[0]));
    }
    assert(!leads_off(name)) by {
        if name[0] == DOT && name.len() == 1 {
            assert(name =~= seq![DOT]);
        }
        if name.len() > 1 {
            assert(name.contains(name[1]));
        }
    }
    assert(name != seq![SLASH]) by {
        if name == seq![SLASH] {
            assert(name[0] == SLASH);
        }
    }
    let p = base.push(SLASH) + name;
    assert(joined(base, name) =~= p);
    lemma_joined(base, name);
    lemma_joined_components(base, name);
    lemma_last_component(base);
    let n = components(p).len() as int;
    assert(names(p)[n - 1] == name);
    lemma_spans(base, base.len() as int);
    assert(components(p)[n - 2] == (components(base).last().0, components(base).last().1));
    assert(components(p)[0] == (components(base)[0].0, components(base)[0].1));
    assert(stretch(p, 0, n - 1) =~= base);

    let root = seq![SLASH];
    let r = root + name;
    assert(joined(root, name) =~= r);
    lemma_joined(root, name);
    lemma_joined_components(root, name);
    lemma_separator_names(Seq::empty());
    assert(Seq::<u8>::empty().push(SLASH) =~= root);
    assert(components(root).len() == names(root).len());
    let c = components(root)[0];
    lemma_spans(root, 1);
    lemma_span_starts(root, 1, 0);
    assert(components(r)[0] == (c.0, c.1));
    assert(names(r)[1] == name);
    assert(stretch(r, 0, 1) =~= root);

    assert(names(name)[0] == name);
    assert(stretch(name, 0, 0) =~= Seq::<u8>::empty());
}

/// The last name of a path is its file name, if it is a plain one.
pub proof fn lemma_file_name(base: Seq<u8>, name: Seq<u8>)
    requires
        is_name(name),
    ensures
        name != seq![DOT] && name != seq![DOT, DOT] ==> {
            &&& file_name_of(base.push(SLASH) + name) == Some(name)
            &&& file_name_of(name) == Some(name)
        },
        file_name_of(base.push(SLASH) + seq![DOT, DOT]) is None,
        file_name_of(seq![DOT, DOT]) is None,
        file_name_of(Seq::empty()) is None,
{
    lemma_name_added(base, name);
    assert(name != seq![SLASH]) by {
        if name == seq![SLASH] {
            assert(name.contains(name[0]));
        }
    }
    let dots = seq![DOT, DOT];
    assert(!dots.contains(SLASH));
    assert(dots.len() != seq![DOT].len());
    lemma_name_added(base, dots);
    lemma_separator_names(base);
}

/// Appending puts one separator between two paths where there is none; an absolute path stands for
/// itself.
pub proof fn lemma_joined_bytes(base: Seq<u8>, rest: Seq<u8>)
    ensures
        joined(base, seq![SLASH] + rest) == seq![SLASH] + rest,
        rest.len() == 0 || rest[0] != SLASH ==> {
            &&& joined(base.push(SLASH), rest) == base + seq![SLASH] + rest
            &&& joined(Seq::empty(), rest) == rest
            &&& base.len() > 0 && base.last() != SLASH ==> joined(base, rest) == base + seq![SLASH]
                + rest
        },
{
    assert((seq![SLASH] + rest)[0] == SLASH);
    if rest.len() == 0 || rest[0] != SLASH {
        assert(joined(base.push(SLASH), rest) =~= base + seq![SLASH] + rest);
        assert(joined(Seq::empty(), rest) =~= rest);
        assert(base.push(SLASH) + rest =~= base + seq![SLASH] + rest);
    }
}

/// What lies below one directory lies at the same place below another once it is moved there.
pub proof fn lemma_moved(p: Seq<u8>, from: Seq<u8>, to: Seq<u8>)
    requires
        below(p, from) is Some,
        names(from).len() > 0,
    ensures
        names(joined(to, below(p, from)->0)) == names(to) + names(p).skip(names(from).len() as int),
{
    let k = names(from).len() as int;
    let n = names(p).len() as int;
    lemma_stretch(p, k, n);
    lemma_joined(to, below(p, from)->0);
    assert(names(p).subrange(k, n) =~= names(p).skip(k));
}

} // verus!
