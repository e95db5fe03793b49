//! Orders the units so that each comes after everything it depends on.
use std::collections::{BTreeSet, HashMap};

use crate::unit_graph::{
    depends, edges, grounded, lemma_grounded_monotone, lemma_reaches_step, orderable, reaches, Unit,
};
use vstd::prelude::*;

verus! {

/// How far an ordering has come: what each finished unit depends on, and the finished units.
pub struct Progress {
    pub deps: Map<usize, Set<usize>>,
    pub order: Seq<usize>,
}

/// The progress that a map of dependency sets and a list of units stand for.
pub open spec fn progress(
    deps: HashMap<usize, BTreeSet<usize>>,
    order: Vec<usize>,
) -> Progress {
    Progress { deps: deps@.map_values(|s: BTreeSet<usize>| s@), order: order@ }
}

/// Visits `idx` depth first: its dependencies in the order in which they are listed, then `idx`
/// itself. A unit that is already finished is not visited again.
pub open spec fn visit(units: Seq<Unit>, at: Progress, idx: usize, fuel: nat) -> Progress
    decreases fuel, 0nat,
{
    if at.deps.contains_key(idx) || fuel == 0 {
        at
    } else {
        let (below, deps) = visit_deps(
            units,
            at,
            idx,
            edges(units, idx).len(),
            (fuel - 1) as nat,
        );
        Progress { deps: below.deps.insert(idx, deps), order: below.order.push(idx) }
    }
}

/// Visits the first `n` dependencies of `idx`, and collects what `idx` depends on through them.
pub open spec fn visit_deps(
    units: Seq<Unit>,
    at: Progress,
    idx: usize,
    n: nat,
    fuel: nat,
) -> (Progress, Set<usize>)
    decreases fuel, n,
{
    if n == 0 {
        (at, Set::empty())
    } else {
        let (before, deps) = visit_deps(units, at, idx, (n - 1) as nat, fuel);
        let dep = edges(units, idx)[n - 1];
        let after = visit(units, before, dep, fuel);
        (after, deps.union(after.deps[dep]).insert(dep))
    }
}

/// The progress once `idx` is finished. How much fuel the visit is given does not matter as long
/// as it is enough, see [`lemma_visit_fuel`].
pub open spec fn ordered(units: Seq<Unit>, at: Progress, idx: usize) -> Progress {
    visit(units, at, idx, choose|fuel: nat| grounded(units, at.deps.dom(), idx, fuel))
}

/// What was finished stays as it was.
pub open spec fn extends(before: Progress, after: Progress) -> bool {
    &&& forall|k: usize| #[trigger]
        before.deps.contains_key(k) ==> after.deps.contains_key(k) && after.deps[k]
            == before.deps[k]
    &&& before.order.is_prefix_of(after.order)
}

/// Every unit in the list comes after the units that it depends on.
pub open spec fn topological(units: Seq<Unit>, order: Seq<usize>) -> bool {
    forall|p: int, to: usize| #![trigger depends(units, order[p], to)]
        0 <= p < order.len() && depends(units, order[p], to) ==> order.take(p).contains(to)
}

/// The progress describes the graph: the finished units are listed once each, after all that they
/// depend on, and each has recorded exactly the units that it reaches.
pub open spec fn consistent(units: Seq<Unit>, at: Progress) -> bool {
    &&& at.order.no_duplicates()
    &&& at.order.to_set() == at.deps.dom()
    &&& topological(units, at.order)
    &&& forall|k: usize| #[trigger] at.deps.contains_key(k) ==> k < units.len()
    &&& forall|k: usize, to: usize| #![trigger at.deps[k].contains(to)]
        at.deps.contains_key(k) ==> (at.deps[k].contains(to) <==> reaches(units, k, to))
}

proof fn lemma_extends_transitive(a: Progress, b: Progress, c: Progress)
    requires
        extends(a, b),
        extends(b, c),
    ensures
        extends(a, c),
{
    assert(a.order =~= c.order.subrange(0, a.order.len() as int));
}

/// A visit with enough fuel comes out the same with more, finishes `idx` and keeps what was
/// finished.
pub proof fn lemma_visit_fuel(units: Seq<Unit>, at: Progress, idx: usize, fuel: nat, more: nat)
    requires
        grounded(units, at.deps.dom(), idx, fuel),
        fuel <= more,
    ensures
        visit(units, at, idx, more) == visit(units, at, idx, fuel),
        visit(units, at, idx, fuel).deps.contains_key(idx),
        extends(at, visit(units, at, idx, fuel)),
    decreases fuel, 0nat,
{
    if !at.deps.contains_key(idx) {
        let n = edges(units, idx).len();
        lemma_visit_deps_fuel(units, at, idx, n, (fuel - 1) as nat, (more - 1) as nat);
    }
}

proof fn lemma_visit_deps_fuel(
    units: Seq<Unit>,
    at: Progress,
    idx: usize,
    n: nat,
    fuel: nat,
    more: nat,
)
    requires
        n <= edges(units, idx).len(),
        forall|i: int|
            0 <= i < edges(units, idx).len() ==> grounded(
                units,
                at.deps.dom(),
                #[trigger] edges(units, idx)[i],
                fuel,
            ),
        fuel <= more,
    ensures
        visit_deps(units, at, idx, n, more) == visit_deps(units, at, idx, n, fuel),
        extends(at, visit_deps(units, at, idx, n, fuel).0),
    decreases fuel, n,
{
    if n > 0 {
        lemma_visit_deps_fuel(units, at, idx, (n - 1) as nat, fuel, more);
        let before = visit_deps(units, at, idx, (n - 1) as nat, fuel).0;
        let dep = edges(units, idx)[n - 1];
        lemma_grounded_monotone(units, at.deps.dom(), before.deps.dom(), dep, fuel, fuel);
        lemma_visit_fuel(units, before, dep, fuel, more);
        lemma_extends_transitive(at, before, visit(units, before, dep, fuel));
    }
}

/// Everything that a visit finishes is grounded in what was finished before it.
proof fn lemma_visit_grounded(
    units: Seq<Unit>,
    base: Set<usize>,
    at: Progress,
    idx: usize,
    fuel: nat,
    bound: nat,
)
    requires
        base.subset_of(at.deps.dom()),
        forall|k: usize| #[trigger] at.deps.contains_key(k) ==> grounded(units, base, k, bound),
        grounded(units, base, idx, fuel),
        fuel <= bound,
    ensures
        forall|k: usize| #[trigger]
            visit(units, at, idx, fuel).deps.contains_key(k) ==> grounded(units, base, k, bound),
    decreases fuel, 0nat,
{
    if !at.deps.contains_key(idx) && fuel > 0 {
        assert(!base.contains(idx));
        lemma_visit_deps_grounded(
            units,
            base,
            at,
            idx,
            edges(units, idx).len(),
            (fuel - 1) as nat,
            bound,
        );
        lemma_grounded_monotone(units, base, base, idx, fuel, bound);
    }
}

proof fn lemma_visit_deps_grounded(
    units: Seq<Unit>,
    base: Set<usize>,
    at: Progress,
    idx: usize,
    n: nat,
    fuel: nat,
    bound: nat,
)
    requires
        base.subset_of(at.deps.dom()),
        forall|k: usize| #[trigger] at.deps.contains_key(k) ==> grounded(units, base, k, bound),
        n <= edges(units, idx).len(),
        forall|i: int|
            0 <= i < edges(units, idx).len() ==> grounded(
                units,
                base,
                #[trigger] edges(units, idx)[i],
                fuel,
            ),
        fuel <= bound,
    ensures
        forall|k: usize| #[trigger]
            visit_deps(units, at, idx, n, fuel).0.deps.contains_key(k) ==> grounded(
                units,
                base,
                k,
                bound,
            ),
        base.subset_of(visit_deps(units, at, idx, n, fuel).0.deps.dom()),
    decreases fuel, n,
{
    if n > 0 {
        lemma_visit_deps_grounded(units, base, at, idx, (n - 1) as nat, fuel, bound);
        let before = visit_deps(units, at, idx, (n - 1) as nat, fuel).0;
        let dep = edges(units, idx)[n - 1];
        lemma_visit_grounded(units, base, before, dep, fuel, bound);
        lemma_grounded_monotone(units, base, before.deps.dom(), dep, fuel, fuel);
        lemma_visit_fuel(units, before, dep, fuel, fuel);
    }
}

/// The least fuel that grounds a unit.
proof fn lemma_least_fuel(units: Seq<Unit>, seen: Set<usize>, idx: usize, fuel: nat) -> (least: nat)
    requires
        grounded(units, seen, idx, fuel),
    ensures
        least <= fuel,
        grounded(units, seen, idx, least),
        least > 0 ==> !grounded(units, seen, idx, (least - 1) as nat),
    decreases fuel,
{
    if fuel > 0 && grounded(units, seen, idx, (fuel - 1) as nat) {
        lemma_least_fuel(units, seen, idx, (fuel - 1) as nat)
    } else {
        fuel
    }
}

/// A visit keeps the progress true to the graph.
pub proof fn lemma_visit_consistent(units: Seq<Unit>, at: Progress, idx: usize, fuel: nat)
    requires
        grounded(units, at.deps.dom(), idx, fuel),
        consistent(units, at),
    ensures
        consistent(units, visit(units, at, idx, fuel)),
    decreases fuel, 0nat,
{
    if !at.deps.contains_key(idx) {
        let least = lemma_least_fuel(units, at.deps.dom(), idx, fuel);
        lemma_visit_fuel(units, at, idx, least, fuel);
        let n = edges(units, idx).len();
        let f = (least - 1) as nat;
        lemma_visit_deps_consistent(units, at, idx, n, f);
        assert forall|k: usize| #[trigger] at.deps.contains_key(k) implies grounded(
            units,
            at.deps.dom(),
            k,
            f,
        ) by {
            assert(at.deps.dom().contains(k));
        }
        lemma_visit_deps_grounded(units, at.deps.dom(), at, idx, n, f, f);
        let (below, deps) = visit_deps(units, at, idx, n, f);
        assert(!below.deps.contains_key(idx));
        let after = Progress { deps: below.deps.insert(idx, deps), order: below.order.push(idx) };
        assert(after == visit(units, at, idx, least));
        assert(!below.order.contains(idx)) by {
            if below.order.contains(idx) {
                assert(below.order.to_set().contains(idx));
            }
        }
        assert(after.order.no_duplicates());
        assert(after.order.to_set() =~= after.deps.dom()) by {
            assert forall|k: usize| after.order.to_set().contains(k)
                <==> after.deps.dom().contains(k) by {
                if after.order.contains(k) && k != idx {
                    let p = choose|p: int| 0 <= p < after.order.len() && after.order[p] == k;
                    assert(below.order[p] == k);
                    assert(below.order.to_set().contains(k));
                }
                if after.deps.dom().contains(k) {
                    if k == idx {
                        assert(after.order[after.order.len() - 1] == idx);
                    } else {
                        assert(below.order.to_set().contains(k));
                        let p = choose|p: int| 0 <= p < below.order.len() && below.order[p] == k;
                        assert(after.order[p] == k);
                    }
                }
            }
        }
        assert(topological(units, after.order)) by {
            assert forall|p: int, to: usize| #![trigger depends(units, after.order[p], to)]
                0 <= p < after.order.len() && depends(units, after.order[p], to) implies
                after.order.take(p).contains(to) by {
                if p < below.order.len() {
                    assert(after.order[p] == below.order[p]);
                    assert(after.order.take(p) =~= below.order.take(p));
                } else {
                    assert(after.order.take(p) =~= below.order);
                    let i = choose|i: int| 0 <= i < n && edges(units, idx)[i] == to;
                    assert(edges(units, idx)[i] == to);
                    assert(below.deps.contains_key(to));
                    assert(below.order.to_set().contains(to));
                }
            }
        }
        assert forall|k: usize, to: usize| #![trigger after.deps[k].contains(to)]
            after.deps.contains_key(k) implies (after.deps[k].contains(to) <==> reaches(
            units,
            k,
            to,
        )) by {
            if k == idx {
                lemma_reaches_step(units, idx, to);
                if deps.contains(to) {
                    let i = choose|i: int|
                        0 <= i < n && ((#[trigger] edges(units, idx)[i]) == to || reaches(
                            units,
                            edges(units, idx)[i],
                            to,
                        ));
                    assert(depends(units, idx, edges(units, idx)[i]));
                }
                if reaches(units, idx, to) {
                    let mid = choose|mid: usize| #[trigger]
                        depends(units, idx, mid) && (mid == to || reaches(units, mid, to));
                    let i = choose|i: int| 0 <= i < n && edges(units, idx)[i] == mid;
                    assert(edges(units, idx)[i] == to || reaches(units, edges(units, idx)[i], to));
                }
            } else {
                assert(below.deps.contains_key(k));
            }
        }
    }
}

proof fn lemma_visit_deps_consistent(
    units: Seq<Unit>,
    at: Progress,
    idx: usize,
    n: nat,
    fuel: nat,
)
    requires
        n <= edges(units, idx).len(),
        forall|i: int|
            0 <= i < edges(units, idx).len() ==> grounded(
                units,
                at.deps.dom(),
                #[trigger] edges(units, idx)[i],
                fuel,
            ),
        consistent(units, at),
    ensures
        consistent(units, visit_deps(units, at, idx, n, fuel).0),
        forall|i: int|
            0 <= i < n ==> visit_deps(units, at, idx, n, fuel).0.deps.contains_key(
                #[trigger] edges(units, idx)[i],
            ),
        forall|to: usize| #[trigger]
            visit_deps(units, at, idx, n, fuel).1.contains(to) <==> exists|i: int|
                0 <= i < n && ((#[trigger] edges(units, idx)[i]) == to || reaches(
                    units,
                    edges(units, idx)[i],
                    to,
                )),
    decreases fuel, n,
{
    if n > 0 {
        let m = (n - 1) as nat;
        lemma_visit_deps_consistent(units, at, idx, m, fuel);
        lemma_visit_deps_fuel(units, at, idx, m, fuel, fuel);
        let (before, deps) = visit_deps(units, at, idx, m, fuel);
        let dep = edges(units, idx)[n - 1];
        lemma_grounded_monotone(units, at.deps.dom(), before.deps.dom(), dep, fuel, fuel);
        lemma_visit_consistent(units, before, dep, fuel);
        lemma_visit_fuel(units, before, dep, fuel, fuel);
        let after = visit(units, before, dep, fuel);
        let all = deps.union(after.deps[dep]).insert(dep);
        assert forall|to: usize| #[trigger] all.contains(to) <==> exists|i: int|
            0 <= i < n && ((#[trigger] edges(units, idx)[i]) == to || reaches(
                units,
                edges(units, idx)[i],
                to,
            )) by {
            if all.contains(to) {
                if deps.contains(to) {
                    let i = choose|i: int|
                        0 <= i < m && ((#[trigger] edges(units, idx)[i]) == to || reaches(
                            units,
                            edges(units, idx)[i],
                            to,
                        ));
                    assert(0 <= i < n);
                } else {
                    assert(edges(units, idx)[n - 1] == to || after.deps[dep].contains(to));
                }
            }
            if exists|i: int|
                0 <= i < n && ((#[trigger] edges(units, idx)[i]) == to || reaches(
                    units,
                    edges(units, idx)[i],
                    to,
                )) {
                let i = choose|i: int|
                    0 <= i < n && ((#[trigger] edges(units, idx)[i]) == to || reaches(
                        units,
                        edges(units, idx)[i],
                        to,
                    ));
                if i < m {
                    assert(deps.contains(to));
                } else {
                    assert(to == dep || after.deps[dep].contains(to));
                }
            }
        }
    }
}

/// A visit finishes nothing but `idx` and units that it reaches.
pub proof fn lemma_visit_reaches(units: Seq<Unit>, at: Progress, idx: usize, fuel: nat)
    requires
        grounded(units, at.deps.dom(), idx, fuel),
    ensures
        forall|k: usize| #[trigger]
            visit(units, at, idx, fuel).deps.contains_key(k) ==> at.deps.contains_key(k) || k
                == idx || reaches(units, idx, k),
    decreases fuel, 0nat,
{
    if !at.deps.contains_key(idx) {
        let n = edges(units, idx).len();
        let below = visit_deps(units, at, idx, n, (fuel - 1) as nat).0;
        lemma_visit_deps_reaches(units, at, idx, n, (fuel - 1) as nat);
        assert forall|k: usize| #[trigger]
            visit(units, at, idx, fuel).deps.contains_key(k) implies at.deps.contains_key(k) || k
            == idx || reaches(units, idx, k) by {
            assert(k == idx || below.deps.contains_key(k));
        }
    }
}

proof fn lemma_visit_deps_reaches(units: Seq<Unit>, at: Progress, idx: usize, n: nat, fuel: nat)
    requires
        idx < units.len(),
        n <= edges(units, idx).len(),
        forall|i: int|
            0 <= i < edges(units, idx).len() ==> grounded(
                units,
                at.deps.dom(),
                #[trigger] edges(units, idx)[i],
                fuel,
            ),
    ensures
        forall|k: usize| #[trigger]
            visit_deps(units, at, idx, n, fuel).0.deps.contains_key(k) ==> at.deps.contains_key(k)
                || reaches(units, idx, k),
    decreases fuel, n,
{
    if n > 0 {
        let m = (n - 1) as nat;
        lemma_visit_deps_reaches(units, at, idx, m, fuel);
        lemma_visit_deps_fuel(units, at, idx, m, fuel, fuel);
        let before = visit_deps(units, at, idx, m, fuel).0;
        let dep = edges(units, idx)[n - 1];
        lemma_grounded_monotone(units, at.deps.dom(), before.deps.dom(), dep, fuel, fuel);
        lemma_visit_reaches(units, before, dep, fuel);
        let after = visit(units, before, dep, fuel);
        assert forall|k: usize| #[trigger] after.deps.contains_key(k) implies at.deps.contains_key(
            k,
        ) || reaches(units, idx, k) by {
            if !before.deps.contains_key(k) {
                assert(depends(units, idx, dep));
                lemma_reaches_step(units, idx, k);
            }
        }
    }
}

/// In an order that respects dependencies, whatever a unit reaches comes before it.
pub proof fn lemma_reached_before(units: Seq<Unit>, order: Seq<usize>, p: int, to: usize)
    requires
        topological(units, order),
        0 <= p < order.len(),
        reaches(units, order[p], to),
    ensures
        order.take(p).contains(to),
    decreases p,
{
    let from = order[p];
    lemma_reaches_step(units, from, to);
    let mid = choose|mid: usize| #[trigger]
        depends(units, from, mid) && (mid == to || reaches(units, mid, to));
    assert(depends(units, order[p], mid));
    assert(order.take(p).contains(mid));
    if mid != to {
        let q = choose|q: int| 0 <= q < p && order.take(p)[q] == mid;
        lemma_reached_before(units, order, q, to);
        let r = choose|r: int| 0 <= r < q && order.take(q)[r] == to;
        assert(order.take(p)[r] == to);
    }
}

/// Adds every element of `other` to `set`.
fn add_all(set: &mut BTreeSet<usize>, other: &BTreeSet<usize>)
    ensures
        final(set)@ == old(set)@.union(other@),
{
    broadcast use {vstd::std_specs::btree::group_btree_axioms, vstd::laws_cmp::group_laws_cmp};

    let ghost before = set@;
    for x in it: other.iter()
        invariant
            forall|e: usize| #[trigger]
                other@.contains(e) <==> exists|j: int|
                    0 <= j < it.seq().len() && it.seq().unref()[j] == e,
            forall|e: usize| #[trigger]
                set@.contains(e) <==> before.contains(e) || exists|j: int|
                    0 <= j < it.index() && it.seq().unref()[j] == e,
    {
        let ghost prior = set@;
        set.insert(*x);
        proof {
            let all = it.seq().unref();
            let i = it.index();
            assert(all[i] == *x);
            assert forall|e: usize| #[trigger] set@.contains(e) <==> before.contains(e) || exists|
                j: int,
            | 0 <= j < i + 1 && all[j] == e by {
                if prior.contains(e) && !before.contains(e) {
                    let j = choose|j: int| 0 <= j < i && all[j] == e;
                    assert(0 <= j < i + 1 && all[j] == e);
                }
            }
        }
    }
    proof {
        assert(set@ =~= before.union(other@));
    }
}

/// Finishes unit `idx` and all that it depends on, depth first.
///
/// `all_transitive_deps` gains, for every unit that was not in it, the units that it depends on;
/// `ordered_units` gains those units, each after its dependencies.
pub fn order_units(
    all_transitive_deps: &mut HashMap<usize, BTreeSet<usize>>,
    ordered_units: &mut Vec<usize>,
    all_units: &[Unit],
    idx: usize,
)
    requires
        orderable(all_units@, old(all_transitive_deps)@.dom(), idx),
    ensures
        progress(*final(all_transitive_deps), *final(ordered_units)) == ordered(
            all_units@,
            progress(*old(all_transitive_deps), *old(ordered_units)),
            idx,
        ),
        extends(
            progress(*old(all_transitive_deps), *old(ordered_units)),
            progress(*final(all_transitive_deps), *final(ordered_units)),
        ),
        final(all_transitive_deps)@.contains_key(idx),
        consistent(all_units@, progress(*old(all_transitive_deps), *old(ordered_units)))
            ==> consistent(
            all_units@,
            progress(*final(all_transitive_deps), *final(ordered_units)),
        ),
{
    let ghost at = progress(*all_transitive_deps, *ordered_units);
    let ghost fuel = choose|fuel: nat| grounded(all_units@, at.deps.dom(), idx, fuel);
    proof {
        assert(at.deps.dom() =~= all_transitive_deps@.dom());
        assert(exists|fuel: nat| grounded(all_units@, at.deps.dom(), idx, fuel));
        lemma_visit_fuel(all_units@, at, idx, fuel, fuel);
        if consistent(all_units@, at) {
            lemma_visit_consistent(all_units@, at, idx, fuel);
        }
    }
    visit_unit(all_transitive_deps, ordered_units, all_units, idx, Ghost(fuel));
    proof {
        let after = progress(*all_transitive_deps, *ordered_units);
        assert(after.deps.dom() =~= all_transitive_deps@.dom());
    }
}

fn visit_unit(
    all_transitive_deps: &mut HashMap<usize, BTreeSet<usize>>,
    ordered_units: &mut Vec<usize>,
    all_units: &[Unit],
    idx: usize,
    Ghost(fuel): Ghost<nat>,
)
    requires
        grounded(
            all_units@,
            progress(*old(all_transitive_deps), *old(ordered_units)).deps.dom(),
            idx,
            fuel,
        ),
    ensures
        progress(*final(all_transitive_deps), *final(ordered_units)) == visit(
            all_units@,
            progress(*old(all_transitive_deps), *old(ordered_units)),
            idx,
            fuel,
        ),
    decreases fuel,
{
    broadcast use vstd::std_specs::hash::group_hash_axioms;

    let ghost units = all_units@;
    let ghost at = progress(*all_transitive_deps, *ordered_units);
    if all_transitive_deps.contains_key(&idx) {
        assert(at.deps.contains_key(idx));
        return ;
    }
    assert(!at.deps.contains_key(idx));
    let ghost less = (fuel - 1) as nat;
    let mut transitive_deps: BTreeSet<usize> = BTreeSet::new();
    let unit = &all_units[idx as usize];
    let mut n: usize = 0;
    while n < unit.dependencies.len()
        invariant
            units == all_units@,
            idx < units.len(),
            *unit == units[idx as int],
            n <= unit.dependencies.len(),
            (progress(*all_transitive_deps, *ordered_units), transitive_deps@) == visit_deps(
                units,
                at,
                idx,
                n as nat,
                less,
            ),
            forall|i: int|
                0 <= i < edges(units, idx).len() ==> grounded(
                    units,
                    at.deps.dom(),
                    #[trigger] edges(units, idx)[i],
                    less,
                ),
            fuel == less + 1,
        decreases unit.dependencies.len() - n,
    {
        let dep = unit.dependencies[n].index;
        let ghost before = progress(*all_transitive_deps, *ordered_units);
        proof {
            assert(edges(units, idx)[n as int] == dep);
            lemma_visit_deps_fuel(units, at, idx, n as nat, less, less);
            lemma_grounded_monotone(units, at.deps.dom(), before.deps.dom(), dep, less, less);
            lemma_visit_fuel(units, before, dep, less, less);
        }
        visit_unit(all_transitive_deps, ordered_units, all_units, dep, Ghost(less));
        let ghost after = progress(*all_transitive_deps, *ordered_units);
        assert(after.deps.contains_key(dep));
        match all_transitive_deps.get(&dep) {
            Some(below) => {
                assert(below@ == after.deps[dep]);
                add_all(&mut transitive_deps, below);
            },
            None => {},
        }
        insert_unit(&mut transitive_deps, dep);
        n = n + 1;
    }
    all_transitive_deps.insert(idx, transitive_deps);
    ordered_units.push(idx);
    proof {
        let after = progress(*all_transitive_deps, *ordered_units);
        assert(after.deps =~= visit(units, at, idx, fuel).deps);
        assert(after.order =~= visit(units, at, idx, fuel).order);
    }
}

/// Whether `x` is in `set`.
pub fn contains_unit(set: &BTreeSet<usize>, x: usize) -> (r: bool)
    ensures
        r == set@.contains(x),
{
    broadcast use {vstd::std_specs::btree::group_btree_axioms, vstd::laws_cmp::group_laws_cmp};

    set.contains(&x)
}

/// Adds one element to `set`.
fn insert_unit(set: &mut BTreeSet<usize>, x: usize)
    ensures
        final(set)@ == old(set)@.insert(x),
{
    broadcast use {vstd::std_specs::btree::group_btree_axioms, vstd::laws_cmp::group_laws_cmp};

    set.insert(x);
}

/// How many units are not marked among the first `n`.
spec fn unmarked(marks: Seq<bool>, n: nat) -> nat
    decreases n,
{
    if n == 0 {
        0
    } else {
        unmarked(marks, (n - 1) as nat) + if marks[n - 1] {
            0nat
        } else {
            1nat
        }
    }
}

proof fn lemma_unmarked_drops(marks: Seq<bool>, i: int, n: nat)
    requires
        0 <= i < marks.len(),
        n <= marks.len(),
        !marks[i],
    ensures
        unmarked(marks.update(i, true), n) == unmarked(marks, n) - if i < n {
            1int
        } else {
            0int
        },
    decreases n,
{
    if n > 0 {
        lemma_unmarked_drops(marks, i, (n - 1) as nat);
    }
}

/// If every unit that is not marked has a dependency that is not marked, no such unit is grounded.
proof fn lemma_stuck(units: Seq<Unit>, marks: Seq<bool>, idx: usize, fuel: nat)
    requires
        marks.len() == units.len(),
        forall|i: usize|
            i < units.len() && !#[trigger] marks[i as int] ==> exists|n: int|
                0 <= n < edges(units, i).len() && !(#[trigger] edges(units, i)[n] < units.len()
                    && marks[edges(units, i)[n] as int]),
        !(idx < units.len() && marks[idx as int]),
    ensures
        !grounded(units, Set::empty(), idx, fuel),
    decreases fuel,
{
    if fuel > 0 && idx < units.len() {
        let n = choose|n: int|
            0 <= n < edges(units, idx).len() && !(#[trigger] edges(units, idx)[n] < units.len()
                && marks[edges(units, idx)[n] as int]);
        lemma_stuck(units, marks, edges(units, idx)[n], (fuel - 1) as nat);
    }
}

/// If all dependencies of a unit can be ordered, so can the unit.
proof fn lemma_orderable_step(units: Seq<Unit>, idx: usize, n: nat) -> (fuel: nat)
    requires
        idx < units.len(),
        n <= edges(units, idx).len(),
        forall|i: int|
            0 <= i < n ==> orderable(units, Set::empty(), #[trigger] edges(units, idx)[i]),
    ensures
        forall|i: int|
            0 <= i < n ==> grounded(units, Set::empty(), #[trigger] edges(units, idx)[i], fuel),
        n == edges(units, idx).len() ==> grounded(units, Set::empty(), idx, fuel + 1),
    decreases n,
{
    if n == 0 {
        0
    } else {
        let before = lemma_orderable_step(units, idx, (n - 1) as nat);
        let last = edges(units, idx)[n - 1];
        let own = choose|fuel: nat| grounded(units, Set::empty(), last, fuel);
        let fuel = if before < own {
            own
        } else {
            before
        };
        lemma_grounded_monotone(units, Set::empty(), Set::empty(), last, own, fuel);
        assert forall|i: int| 0 <= i < n implies grounded(
            units,
            Set::empty(),
            #[trigger] edges(units, idx)[i],
            fuel,
        ) by {
            if i < n - 1 {
                lemma_grounded_monotone(
                    units,
                    Set::empty(),
                    Set::empty(),
                    edges(units, idx)[i],
                    before,
                    fuel,
                );
            }
        }
        fuel
    }
}

/// Whether all dependencies of unit `idx` exist and are marked.
fn deps_marked(all_units: &[Unit], marks: &Vec<bool>, idx: usize) -> (r: bool)
    requires
        idx < all_units@.len(),
        marks@.len() == all_units@.len(),
    ensures
        r == forall|n: int|
            0 <= n < edges(all_units@, idx).len() ==> #[trigger] edges(all_units@, idx)[n]
                < all_units@.len() && marks@[edges(all_units@, idx)[n] as int],
{
    let unit = &all_units[idx];
    let mut n: usize = 0;
    while n < unit.dependencies.len()
        invariant
            idx < all_units@.len(),
            marks@.len() == all_units@.len(),
            *unit == all_units@[idx as int],
            n <= unit.dependencies.len(),
            forall|i: int|
                0 <= i < n ==> #[trigger] edges(all_units@, idx)[i] < all_units@.len()
                    && marks@[edges(all_units@, idx)[i] as int],
        decreases unit.dependencies.len() - n,
    {
        let dep = unit.dependencies[n].index;
        assert(edges(all_units@, idx)[n as int] == dep);
        if dep >= all_units.len() || !marks[dep] {
            return false;
        }
        n = n + 1;
    }
    true
}

/// Marks the units that can be ordered: those from which no walk leaves the graph or goes on
/// for ever.
pub fn orderable_units(all_units: &[Unit]) -> (marks: Vec<bool>)
    ensures
        marks@.len() == all_units@.len(),
        forall|i: usize|
            i < all_units@.len() ==> #[trigger] marks@[i as int] == orderable(
                all_units@,
                Set::empty(),
                i,
            ),
{
    let ghost units = all_units@;
    let count = all_units.len();
    let mut marks: Vec<bool> = Vec::new();
    let mut k: usize = 0;
    while k < count
        invariant
            k <= count,
            marks@.len() == k,
            forall|i: int| 0 <= i < k ==> !#[trigger] marks@[i],
        decreases count - k,
    {
        marks.push(false);
        k = k + 1;
    }
    let mut changed = true;
    while changed
        invariant
            units == all_units@,
            count == units.len(),
            marks@.len() == count,
            forall|i: usize|
                i < count && #[trigger] marks@[i as int] ==> orderable(units, Set::empty(), i),
            !changed ==> forall|i: usize|
                i < count && !#[trigger] marks@[i as int] ==> exists|n: int|
                    0 <= n < edges(units, i).len() && !(#[trigger] edges(units, i)[n] < count
                        && marks@[edges(units, i)[n] as int]),
        decreases unmarked(marks@, count as nat), if changed { 1nat } else { 0nat },
    {
        changed = false;
        let ghost before = unmarked(marks@, count as nat);
        let mut idx: usize = 0;
        while idx < count
            invariant
                units == all_units@,
                count == units.len(),
                idx <= count,
                marks@.len() == count,
                forall|i: usize|
                    i < count && #[trigger] marks@[i as int] ==> orderable(units, Set::empty(), i),
                changed ==> unmarked(marks@, count as nat) < before,
                !changed ==> unmarked(marks@, count as nat) == before,
                !changed ==> forall|i: usize|
                    i < idx && !#[trigger] marks@[i as int] ==> exists|n: int|
                        0 <= n < edges(units, i).len() && !(#[trigger] edges(units, i)[n] < count
                            && marks@[edges(units, i)[n] as int]),
            decreases count - idx,
        {
            if !marks[idx] && deps_marked(all_units, &marks, idx) {
                proof {
                    lemma_unmarked_drops(marks@, idx as int, count as nat);
                    assert forall|i: int| 0 <= i < edges(units, idx).len() implies orderable(
                        units,
                        Set::empty(),
                        #[trigger] edges(units, idx)[i],
                    ) by {
                        assert(marks@[edges(units, idx)[i] as int]);
                    }
                    let fuel = lemma_orderable_step(units, idx, edges(units, idx).len());
                    assert(grounded(units, Set::empty(), idx, fuel + 1));
                }
                marks.set(idx, true);
                changed = true;
            }
            idx = idx + 1;
        }
    }
    proof {
        assert forall|i: usize| i < count implies #[trigger] marks@[i as int] == orderable(
            units,
            Set::empty(),
            i,
        ) by {
            if !marks@[i as int] && orderable(units, Set::empty(), i) {
                let fuel = choose|fuel: nat| grounded(units, Set::empty(), i, fuel);
                lemma_stuck(units, marks@, i, fuel);
            }
        }
    }
    marks
}

} // verus!
