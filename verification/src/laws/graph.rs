//! The unit graph, and the order in which its units are taken up.
use crate::order::{
    consistent, lemma_visit_consistent, lemma_visit_fuel, ordered, topological, visit, visit_deps,
    Progress,
};
use crate::planner::{drv_of, lemma_plan, planned, roots_orderable, wanted};
use crate::survey::{reach, reach_deps, Survey};
use crate::unit_drv::{dep_cache, UnitCache};
use crate::unit_graph::{
    depends, edges, grounded, lemma_grounded_monotone, orderable, Unit,
};
use vstd::prelude::*;

verus! {

/// A unit depends on another exactly if it lists it.
pub proof fn lemma_depends(units: Seq<Unit>, from: usize, to: usize)
    ensures
        depends(units, from, to) <==> from < units.len() && exists|d: int|
            0 <= d < units[from as int].dependencies@.len() && (
            #[trigger] units[from as int].dependencies@[d]).index == to,
        from < units.len() ==> edges(units, from).len() == units[from as int].dependencies@.len(),
        forall|d: int|
            0 <= d < units[from as int].dependencies@.len() ==> (#[trigger] edges(units, from)[d])
                == units[from as int].dependencies@[d].index,
{
    if from < units.len() {
        let deps = units[from as int].dependencies@;
        if depends(units, from, to) {
            let d = choose|d: int| 0 <= d < edges(units, from).len() && edges(units, from)[d] == to;
            assert(deps[d].index == to);
        }
        if exists|d: int| 0 <= d < deps.len() && (#[trigger] deps[d]).index == to {
            let d = choose|d: int| 0 <= d < deps.len() && (#[trigger] deps[d]).index == to;
            assert(edges(units, from)[d] == to);
        }
    }
}

/// Whatever can be put in an order in which dependencies come first can be planned.
pub proof fn lemma_orderable(units: Seq<Unit>, order: Seq<usize>, p: int)
    requires
        topological(units, order),
        forall|k: int| 0 <= k < order.len() ==> (#[trigger] order[k]) < units.len(),
        0 <= p < order.len(),
    ensures
        grounded(units, Set::empty(), order[p], (p + 1) as nat),
        orderable(units, Set::empty(), order[p]),
    decreases p,
{
    let idx = order[p];
    assert forall|n: int| 0 <= n < edges(units, idx).len() implies grounded(
        units,
        Set::empty(),
        #[trigger] edges(units, idx)[n],
        p as nat,
    ) by {
        let dep = edges(units, idx)[n];
        assert(edges(units, idx).contains(dep));
        assert(depends(units, order[p], dep));
        let q = choose|q: int| 0 <= q < p && order.take(p)[q] == dep;
        lemma_orderable(units, order, q);
        lemma_grounded_monotone(
            units,
            Set::empty(),
            Set::empty(),
            order[q],
            (q + 1) as nat,
            p as nat,
        );
    }
}

/// Whatever can be planned can be put in an order in which dependencies come first and everything
/// exists.
pub proof fn lemma_orderable_only(units: Seq<Unit>, idx: usize) -> (order: Seq<usize>)
    requires
        orderable(units, Set::empty(), idx),
    ensures
        topological(units, order),
        order.contains(idx),
        order.no_duplicates(),
        forall|k: int| 0 <= k < order.len() ==> (#[trigger] order[k]) < units.len(),
{
    let start = Progress { deps: Map::empty(), order: Seq::empty() };
    let fuel = choose|fuel: nat| grounded(units, Set::empty(), idx, fuel);
    assert(start.deps.dom() =~= Set::empty());
    assert(start.order.to_set() =~= start.deps.dom());
    assert(consistent(units, start));
    lemma_visit_consistent(units, start, idx, fuel);
    lemma_visit_fuel(units, start, idx, fuel, fuel);
    let after = visit(units, start, idx, fuel);
    assert(after.order.to_set().contains(idx));
    assert forall|k: int| 0 <= k < after.order.len() implies (#[trigger] after.order[k])
        < units.len() by {
        assert(after.order.to_set().contains(after.order[k]));
        assert(after.deps.contains_key(after.order[k]));
    }
    after.order
}

/// A graph is planned if and only if all that is asked for can be put in one order in which
/// dependencies come first and everything exists.
pub proof fn lemma_roots_orderable(units: Seq<Unit>, roots: Seq<usize>)
    ensures
        roots_orderable(units, roots) <==> exists|order: Seq<usize>| #[trigger]
            is_order_for(units, roots, order),
{
    if exists|order: Seq<usize>| #[trigger] is_order_for(units, roots, order) {
        let order = choose|order: Seq<usize>| #[trigger] is_order_for(units, roots, order);
        assert forall|k: int| 0 <= k < roots.len() implies orderable(
            units,
            Set::empty(),
            #[trigger] roots[k],
        ) by {
            assert(order.contains(roots[k]));
            let p = choose|p: int| 0 <= p < order.len() && order[p] == roots[k];
            lemma_orderable(units, order, p);
        }
    }
    if roots_orderable(units, roots) {
        let n = roots.len() as int;
        lemma_plan(units, roots, n);
        let plan = planned(units, roots, n);
        assert forall|k: int| 0 <= k < plan.order.len() implies (#[trigger] plan.order[k])
            < units.len() by {
            assert(plan.order.to_set().contains(plan.order[k]));
            assert(plan.deps.contains_key(plan.order[k]));
        }
        assert forall|k: int| 0 <= k < roots.len() implies plan.order.contains(
            #[trigger] roots[k],
        ) by {
            assert(roots.take(n)[k] == roots[k]);
            assert(wanted(units, roots.take(n), roots[k]));
        }
        assert(is_order_for(units, roots, plan.order));
    }
}

/// An order of units that exist, in which dependencies come first and all roots occur.
pub open spec fn is_order_for(units: Seq<Unit>, roots: Seq<usize>, order: Seq<usize>) -> bool {
    &&& topological(units, order)
    &&& forall|k: int| 0 <= k < order.len() ==> (#[trigger] order[k]) < units.len()
    &&& forall|k: int| 0 <= k < roots.len() ==> order.contains(#[trigger] roots[k])
}

/// Visits several units one after the other.
pub open spec fn visit_all(units: Seq<Unit>, at: Progress, list: Seq<usize>, fuel: nat) -> Progress
    decreases list.len(),
{
    if list.len() == 0 {
        at
    } else {
        visit_all(units, visit(units, at, list[0], fuel), list.drop_first(), fuel)
    }
}

proof fn lemma_visit_all_push(
    units: Seq<Unit>,
    at: Progress,
    list: Seq<usize>,
    last: usize,
    fuel: nat,
)
    ensures
        visit_all(units, at, list.push(last), fuel) == visit(
            units,
            visit_all(units, at, list, fuel),
            last,
            fuel,
        ),
    decreases list.len(),
{
    let all = list.push(last);
    if list.len() == 0 {
        assert(all.drop_first() =~= Seq::empty());
        reveal_with_fuel(visit_all, 2);
    } else {
        assert(all.drop_first() =~= list.drop_first().push(last));
        lemma_visit_all_push(
            units,
            visit(units, at, list[0], fuel),
            list.drop_first(),
            last,
            fuel,
        );
    }
}

proof fn lemma_visit_deps_all(units: Seq<Unit>, at: Progress, idx: usize, n: nat, fuel: nat)
    requires
        n <= edges(units, idx).len(),
    ensures
        visit_deps(units, at, idx, n, fuel).0 == visit_all(
            units,
            at,
            edges(units, idx).take(n as int),
            fuel,
        ),
    decreases n,
{
    let list = edges(units, idx);
    if n == 0 {
        assert(list.take(0) =~= Seq::empty());
    } else {
        let m = (n - 1) as nat;
        lemma_visit_deps_all(units, at, idx, m, fuel);
        assert(list.take(n as int) =~= list.take(m as int).push(list[n - 1]));
        lemma_visit_all_push(units, at, list.take(m as int), list[n - 1], fuel);
    }
}

/// To take up a unit is to take up its dependencies in the order in which it lists them, and then
/// the unit itself; one that was taken up before is not taken up again.
pub proof fn lemma_visit_order(units: Seq<Unit>, at: Progress, idx: usize, fuel: nat)
    requires
        fuel > 0,
    ensures
        at.deps.contains_key(idx) ==> visit(units, at, idx, fuel) == at,
        !at.deps.contains_key(idx) ==> visit(units, at, idx, fuel).order == visit_all(
            units,
            at,
            edges(units, idx),
            (fuel - 1) as nat,
        ).order.push(idx),
{
    let list = edges(units, idx);
    lemma_visit_deps_all(units, at, idx, list.len(), (fuel - 1) as nat);
    assert(list.take(list.len() as int) =~= list);
}

/// Plans the roots one after the other.
pub open spec fn plan_all(units: Seq<Unit>, at: Progress, roots: Seq<usize>) -> Progress
    decreases roots.len(),
{
    if roots.len() == 0 {
        at
    } else {
        plan_all(units, ordered(units, at, roots[0]), roots.drop_first())
    }
}

proof fn lemma_plan_all_push(units: Seq<Unit>, at: Progress, roots: Seq<usize>, last: usize)
    ensures
        plan_all(units, at, roots.push(last)) == ordered(
            units,
            plan_all(units, at, roots),
            last,
        ),
    decreases roots.len(),
{
    let all = roots.push(last);
    if roots.len() == 0 {
        assert(all.drop_first() =~= Seq::empty());
        reveal_with_fuel(plan_all, 2);
    } else {
        assert(all.drop_first() =~= roots.drop_first().push(last));
        lemma_plan_all_push(units, ordered(units, at, roots[0]), roots.drop_first(), last);
    }
}

/// The roots are planned in the order in which they are asked for.
pub proof fn lemma_planned(units: Seq<Unit>, roots: Seq<usize>, n: int)
    requires
        0 <= n <= roots.len(),
    ensures
        planned(units, roots, n) == plan_all(
            units,
            Progress { deps: Map::empty(), order: Seq::empty() },
            roots.take(n),
        ),
    decreases n,
{
    let start = Progress { deps: Map::empty(), order: Seq::empty() };
    if n == 0 {
        assert(roots.take(0) =~= Seq::empty());
    } else {
        lemma_planned(units, roots, n - 1);
        assert(roots.take(n) =~= roots.take(n - 1).push(roots[n - 1]));
        lemma_plan_all_push(units, start, roots.take(n - 1), roots[n - 1]);
    }
}

/// What is known of a unit is kept under its index.
pub proof fn lemma_known(unit: Unit, cache: Seq<Option<UnitCache>>, d: int, i: usize)
    ensures
        dep_cache(unit, cache, d) == cache[unit.dependencies@[d].index as int]->0,
        drv_of(cache, i) == (cache[i as int]->0).drv_path@,
{
}

/// The lists of several units, one after the other.
pub open spec fn strung(deps: Map<usize, Seq<usize>>, list: Seq<usize>) -> Seq<usize>
    decreases list.len(),
{
    if list.len() == 0 {
        Seq::empty()
    } else {
        strung(deps, list.drop_last()) + deps[list.last()]
    }
}

proof fn lemma_strung_same(
    a: Map<usize, Seq<usize>>,
    b: Map<usize, Seq<usize>>,
    list: Seq<usize>,
)
    requires
        forall|k: int| 0 <= k < list.len() ==> a[#[trigger] list[k]] == b[list[k]],
    ensures
        strung(a, list) == strung(b, list),
    decreases list.len(),
{
    if list.len() > 0 {
        let less = list.drop_last();
        assert forall|k: int| 0 <= k < less.len() implies a[#[trigger] less[k]] == b[less[k]] by {
            assert(less[k] == list[k]);
        }
        lemma_strung_same(a, b, less);
        assert(a[list[list.len() - 1]] == b[list[list.len() - 1]]);
    }
}

/// A list that was made stays as it is.
pub proof fn lemma_lists_stay(units: Seq<Unit>, at: Survey, idx: usize, fuel: nat, k: usize)
    requires
        at.deps.contains_key(k),
    ensures
        reach(units, at, idx, fuel).deps.contains_key(k),
        reach(units, at, idx, fuel).deps[k] == at.deps[k],
    decreases fuel, 0nat,
{
    if !at.deps.contains_key(idx) && fuel > 0 {
        lemma_lists_stay_deps(units, at, idx, edges(units, idx).len(), (fuel - 1) as nat, k);
    }
}

proof fn lemma_lists_stay_deps(
    units: Seq<Unit>,
    at: Survey,
    idx: usize,
    n: nat,
    fuel: nat,
    k: usize,
)
    requires
        at.deps.contains_key(k),
    ensures
        reach_deps(units, at, idx, n, fuel).0.deps.contains_key(k),
        reach_deps(units, at, idx, n, fuel).0.deps[k] == at.deps[k],
    decreases fuel, n,
{
    if n > 0 {
        let m = (n - 1) as nat;
        lemma_lists_stay_deps(units, at, idx, m, fuel, k);
        lemma_lists_stay(
            units,
            reach_deps(units, at, idx, m, fuel).0,
            edges(units, idx)[n - 1],
            fuel,
            k,
        );
    }
}

proof fn lemma_strung(units: Seq<Unit>, at: Survey, idx: usize, n: nat, fuel: nat)
    requires
        n <= edges(units, idx).len(),
        forall|i: int|
            0 <= i < edges(units, idx).len() ==> grounded(
                units,
                at.deps.dom(),
                #[trigger] edges(units, idx)[i],
                fuel,
            ),
    ensures
        ({
            let (after, list) = reach_deps(units, at, idx, n, fuel);
            &&& list == strung(after.deps, edges(units, idx).take(n as int))
            &&& forall|i: int|
                0 <= i < n ==> after.deps.contains_key(#[trigger] edges(units, idx)[i])
            &&& at.deps.dom().subset_of(after.deps.dom())
        }),
    decreases n,
{
    let all = edges(units, idx);
    if n == 0 {
        assert(all.take(0) =~= Seq::empty());
    } else {
        let m = (n - 1) as nat;
        lemma_strung(units, at, idx, m, fuel);
        let (before, list) = reach_deps(units, at, idx, m, fuel);
        let dep = all[n - 1];
        let after = reach(units, before, dep, fuel);
        lemma_grounded_monotone(units, at.deps.dom(), before.deps.dom(), dep, fuel, fuel);
        crate::survey::lemma_reach_fuel(units, before, dep, fuel, fuel);
        let shorter = all.take(m as int);
        let longer = all.take(n as int);
        assert(longer.drop_last() =~= shorter);
        assert forall|k: int| 0 <= k < shorter.len() implies before.deps[#[trigger] shorter[k]]
            == after.deps[shorter[k]] by {
            assert(shorter[k] == all[k]);
            lemma_lists_stay(units, before, dep, fuel, all[k]);
        }
        lemma_strung_same(before.deps, after.deps, shorter);
        assert forall|i: int| 0 <= i < n implies after.deps.contains_key(#[trigger] all[i]) by {
            if i < m {
                lemma_lists_stay(units, before, dep, fuel, all[i]);
            }
        }
        assert(longer.last() == dep);
    }
}

/// The list of a unit that is surveyed is made of the lists of its dependencies, in the order in
/// which it names them.
pub proof fn lemma_survey_list(units: Seq<Unit>, at: Survey, idx: usize, fuel: nat)
    requires
        grounded(units, at.deps.dom(), idx, fuel),
        !at.deps.contains_key(idx),
    ensures
        ({
            let n = edges(units, idx).len();
            let below = reach_deps(units, at, idx, n, (fuel - 1) as nat).0;
            let after = reach(units, at, idx, fuel);
            &&& after.deps[idx] == strung(below.deps, edges(units, idx))
            &&& after.order == below.order.push(idx)
        }),
{
    let all = edges(units, idx);
    lemma_strung(units, at, idx, all.len(), (fuel - 1) as nat);
    assert(all.take(all.len() as int) =~= all);
}

} // verus!
