//! Texts in ascending order, each once.
use crate::text::{same_text, to_chars, views};
use vstd::prelude::*;

verus! {

/// `a` comes before `b`: at the first character in which they differ it has the smaller one, or it
/// ends there. UTF-8 keeps this order, so the encoded texts compare alike.
pub open spec fn text_less(a: Seq<char>, b: Seq<char>) -> bool
    decreases a.len(),
{
    if b.len() == 0 {
        false
    } else if a.len() == 0 {
        true
    } else if a[0] != b[0] {
        a[0] < b[0]
    } else {
        text_less(a.drop_first(), b.drop_first())
    }
}

/// Every text of the list comes before those after it.
pub open spec fn ascending(q: Seq<Seq<char>>) -> bool {
    forall|i: int, j: int|
        0 <= i < j < q.len() ==> text_less(#[trigger] q[i], #[trigger] q[j])
}

/// The texts of a set in ascending order.
pub open spec fn listing(s: Set<Seq<char>>) -> Seq<Seq<char>> {
    choose|q: Seq<Seq<char>>| #[trigger] ascending(q) && q.to_set() == s
}

/// The order is strict and total.
pub proof fn lemma_text_order(a: Seq<char>, b: Seq<char>)
    ensures
        !(text_less(a, b) && text_less(b, a)),
        !text_less(a, a),
        text_less(a, b) || a == b || text_less(b, a),
    decreases a.len(),
{
    if a.len() > 0 {
        lemma_text_order(a.drop_first(), a.drop_first());
        if b.len() > 0 && a[0] == b[0] {
            lemma_text_order(a.drop_first(), b.drop_first());
            if a.drop_first() == b.drop_first() {
                assert(a =~= seq![a[0]] + a.drop_first());
                assert(b =~= seq![b[0]] + b.drop_first());
            }
        }
    } else if b.len() == 0 {
        assert(a =~= b);
    }
}

pub proof fn lemma_text_transitive(a: Seq<char>, b: Seq<char>, c: Seq<char>)
    requires
        text_less(a, b),
        text_less(b, c),
    ensures
        text_less(a, c),
    decreases a.len(),
{
    if a.len() > 0 && a[0] == b[0] && b[0] == c[0] {
        lemma_text_transitive(a.drop_first(), b.drop_first(), c.drop_first());
    }
}

/// A set of texts has only one ascending list.
pub proof fn lemma_ascending_unique(p: Seq<Seq<char>>, q: Seq<Seq<char>>)
    requires
        ascending(p),
        ascending(q),
        p.to_set() == q.to_set(),
    ensures
        p == q,
    decreases p.len(),
{
    if p.len() == 0 {
        if q.len() > 0 {
            assert(q.to_set().contains(q[0]));
            assert(p.contains(q[0]));
        }
        assert(p =~= q);
    } else {
        assert(p.to_set().contains(p[0]));
        assert(q.contains(p[0]));
        let i = choose|i: int| 0 <= i < q.len() && q[i] == p[0];
        assert(q.to_set().contains(q[0]));
        assert(p.contains(q[0]));
        let j = choose|j: int| 0 <= j < p.len() && p[j] == q[0];
        lemma_text_order(p[0], q[0]);
        assert(p[0] == q[0]);
        let a = p.drop_first();
        let b = q.drop_first();
        assert forall|x: Seq<char>| a.to_set().contains(x) <==> b.to_set().contains(x) by {
            lemma_text_order(x, x);
            if a.contains(x) {
                let k = choose|k: int| 0 <= k < a.len() && a[k] == x;
                assert(p[k + 1] == x);
                assert(p.to_set().contains(x));
                assert(q.contains(x));
                let l = choose|l: int| 0 <= l < q.len() && q[l] == x;
                assert(l != 0);
                assert(b[l - 1] == x);
            }
            if b.contains(x) {
                let k = choose|k: int| 0 <= k < b.len() && b[k] == x;
                assert(q[k + 1] == x);
                assert(q.to_set().contains(x));
                assert(p.contains(x));
                let l = choose|l: int| 0 <= l < p.len() && p[l] == x;
                assert(l != 0);
                assert(a[l - 1] == x);
            }
        }
        assert(a.to_set() =~= b.to_set());
        lemma_ascending_unique(a, b);
        assert(p =~= seq![p[0]] + a);
        assert(q =~= seq![q[0]] + b);
    }
}

/// An ascending list is the one that its elements have.
pub proof fn lemma_listing(q: Seq<Seq<char>>)
    requires
        ascending(q),
    ensures
        listing(q.to_set()) == q,
{
    lemma_ascending_unique(listing(q.to_set()), q);
}

/// Whether `a` comes before `b`.
fn comes_before(a: &str, b: &str) -> (r: bool)
    ensures
        r == text_less(a@, b@),
{
    let cs = to_chars(a);
    let ds = to_chars(b);
    let mut i: usize = 0;
    assert(a@.skip(0) =~= a@);
    assert(b@.skip(0) =~= b@);
    while i < cs.len() && i < ds.len()
        invariant
            cs@ == a@,
            ds@ == b@,
            i <= cs@.len(),
            i <= ds@.len(),
            text_less(a@.skip(i as int), b@.skip(i as int)) == text_less(a@, b@),
        decreases cs@.len() - i,
    {
        if cs[i] != ds[i] {
            return cs[i] < ds[i];
        }
        assert(a@.skip(i as int).drop_first() =~= a@.skip(i + 1));
        assert(b@.skip(i as int).drop_first() =~= b@.skip(i + 1));
        i = i + 1;
    }
    i < ds.len()
}

/// Puts a text into its place in an ascending list, unless it is there.
fn insert_sorted<'a>(v: &mut Vec<&'a str>, s: &'a str)
    requires
        ascending(views(old(v)@)),
    ensures
        ascending(views(final(v)@)),
        views(final(v)@).to_set() == views(old(v)@).to_set().insert(s@),
{
    let ghost before = views(v@);
    let mut p: usize = 0;
    while p < v.len() && comes_before(v[p], s)
        invariant
            p <= v@.len(),
            before == views(v@),
            forall|i: int| 0 <= i < p ==> text_less(#[trigger] before[i], s@),
        decreases v@.len() - p,
    {
        assert(before[p as int] == v@[p as int]@);
        p = p + 1;
    }
    assert(before.len() == v@.len());
    if p < v.len() && same_text(v[p], s) {
        assert(before[p as int] == s@);
        assert(before.to_set().contains(s@));
        assert(before.to_set() =~= before.to_set().insert(s@));
        return ;
    }
    proof {
        if p < v@.len() {
            assert(before[p as int] == v@[p as int]@);
            lemma_text_order(before[p as int], s@);
        }
    }
    v.insert(p, s);
    proof {
        let after = views(v@);
        assert(after =~= before.insert(p as int, s@));
        assert forall|i: int, j: int| 0 <= i < j < after.len() implies text_less(
            #[trigger] after[i],
            #[trigger] after[j],
        ) by {
            if i < p && j > p {
                assert(after[i] == before[i] && after[j] == before[j - 1]);
            } else if i == p {
                assert(after[j] == before[j - 1]);
                if j - 1 > p {
                    lemma_text_transitive(s@, before[p as int], before[j - 1]);
                }
            } else if i > p {
                assert(after[i] == before[i - 1] && after[j] == before[j - 1]);
            } else {
                assert(after[i] == before[i]);
            }
        }
        assert forall|x: Seq<char>| after.to_set().contains(x) <==> before.to_set().insert(
            s@,
        ).contains(x) by {
            if after.contains(x) {
                let k = choose|k: int| 0 <= k < after.len() && after[k] == x;
                if k < p {
                    assert(before[k] == x);
                } else if k > p {
                    assert(before[k - 1] == x);
                }
            }
            if before.contains(x) {
                let k = choose|k: int| 0 <= k < before.len() && before[k] == x;
                if k < p {
                    assert(after[k] == x);
                } else {
                    assert(after[k + 1] == x);
                }
            }
            if x == s@ {
                assert(after[p as int] == x);
            }
        }
        assert(after.to_set() =~= before.to_set().insert(s@));
    }
}

/// The texts of a list in ascending order, each once.
pub fn sort_texts<'a>(v: &Vec<&'a str>) -> (r: Vec<&'a str>)
    ensures
        views(r@) == listing(views(v@).to_set()),
        ascending(views(r@)),
        views(r@).to_set() == views(v@).to_set(),
{
    let mut r: Vec<&'a str> = Vec::new();
    let mut k: usize = 0;
    assert(views(r@).to_set() =~= views(v@).take(0).to_set());
    while k < v.len()
        invariant
            k <= v@.len(),
            ascending(views(r@)),
            views(r@).to_set() == views(v@).take(k as int).to_set(),
        decreases v@.len() - k,
    {
        insert_sorted(&mut r, v[k]);
        proof {
            let shorter = views(v@).take(k as int);
            let longer = views(v@).take(k + 1);
            assert(longer =~= shorter.push(v@[k as int]@));
            assert forall|x: Seq<char>| longer.to_set().contains(x) <==> shorter.to_set().insert(
                v@[k as int]@,
            ).contains(x) by {
                if longer.contains(x) {
                    let i = choose|i: int| 0 <= i < longer.len() && longer[i] == x;
                    if i < k {
                        assert(shorter[i] == x);
                    }
                }
                if shorter.contains(x) {
                    let i = choose|i: int| 0 <= i < shorter.len() && shorter[i] == x;
                    assert(longer[i] == x);
                }
                if x == v@[k as int]@ {
                    assert(longer[k as int] == x);
                }
            }
            assert(longer.to_set() =~= shorter.to_set().insert(v@[k as int]@));
        }
        k = k + 1;
    }
    proof {
        assert(views(v@).take(k as int) =~= views(v@));
        lemma_listing(views(r@));
    }
    r
}

} // verus!
