//! Goes through the units one by one, dependencies first.
use std::collections::{BTreeSet, HashMap};

use crate::compile::{compile_derivation, compile_outcome};
use crate::derivation::{Derivation, StorePath};
use crate::order::{
    consistent, lemma_reached_before, lemma_visit_consistent, lemma_visit_fuel,
    lemma_visit_reaches, order_units, orderable_units, ordered, progress, Progress,
};
use crate::package::{Package, UnitSource};
use crate::path::parent_of;
use crate::script::{deps_exist, owned, script_derivation, script_outcome, ExternConfig};
use crate::tools::Tools;
use crate::unit_drv::{
    deps_cached, is_cached, DrvError, OwnOutputs, SourceTree, UnitCache, UnitCacheMeta,
};
use crate::unit_graph::{
    depends, edges, grounded, lemma_grounded_monotone, orderable, reaches, CompileMode, Unit,
    UnitGraph,
};
use vstd::prelude::*;

verus! {

/// The version of the unit graph that is understood.
pub const GRAPH_VERSION: u32 = 1;

/// Why a unit graph cannot be planned.
#[derive(PartialEq, Eq, Structural, Copy, Clone, Debug)]
pub enum PlanError {
    /// The graph has another version.
    UnsupportedVersion(u32),
    /// Below a root there is a cycle, or a unit that does not exist.
    Unorderable,
}

/// The ordering once the first `n` roots are finished.
pub open spec fn planned(units: Seq<Unit>, roots: Seq<usize>, n: int) -> Progress
    decreases n,
{
    if n <= 0 {
        Progress { deps: Map::empty(), order: Seq::empty() }
    } else {
        ordered(units, planned(units, roots, n - 1), roots[n - 1])
    }
}

/// All roots can be ordered.
pub open spec fn roots_orderable(units: Seq<Unit>, roots: Seq<usize>) -> bool {
    forall|k: int|
        0 <= k < roots.len() ==> orderable(units, Set::empty(), #[trigger] roots[k])
}

/// A unit is a root or below one.
pub open spec fn wanted(units: Seq<Unit>, roots: Seq<usize>, i: usize) -> bool {
    exists|k: int|
        0 <= k < roots.len() && ((#[trigger] roots[k]) == i || reaches(units, roots[k], i))
}

/// The plan lists every unit that is asked for or depended on, and no other, once each and after
/// all that it depends on; and it knows for each what that is.
pub proof fn lemma_plan(units: Seq<Unit>, roots: Seq<usize>, n: int)
    requires
        roots_orderable(units, roots),
        0 <= n <= roots.len(),
    ensures
        consistent(units, planned(units, roots, n)),
        forall|i: usize| #[trigger]
            planned(units, roots, n).order.contains(i) <==> wanted(units, roots.take(n), i),
    decreases n,
{
    let after = planned(units, roots, n);
    if n <= 0 {
        assert(after.order.to_set() =~= after.deps.dom());
        assert forall|i: usize| #[trigger] after.order.contains(i) <==> wanted(
            units,
            roots.take(n),
            i,
        ) by {}
    } else {
        lemma_plan(units, roots, n - 1);
        let before = planned(units, roots, n - 1);
        let root = roots[n - 1];
        let own = choose|fuel: nat| grounded(units, Set::empty(), root, fuel);
        lemma_grounded_monotone(units, Set::empty(), before.deps.dom(), root, own, own);
        let fuel = choose|fuel: nat| grounded(units, before.deps.dom(), root, fuel);
        lemma_visit_consistent(units, before, root, fuel);
        lemma_visit_reaches(units, before, root, fuel);
        lemma_visit_fuel(units, before, root, fuel, fuel);
        assert forall|i: usize| #[trigger] after.order.contains(i) <==> wanted(
            units,
            roots.take(n),
            i,
        ) by {
            assert(after.order.contains(i) <==> after.order.to_set().contains(i));
            assert(before.order.contains(i) <==> before.order.to_set().contains(i));
            if after.order.contains(i) {
                assert(after.deps.contains_key(i));
                if before.deps.contains_key(i) {
                    let k = choose|k: int|
                        0 <= k < n - 1 && ((#[trigger] roots.take(n - 1)[k]) == i || reaches(
                            units,
                            roots.take(n - 1)[k],
                            i,
                        ));
                    assert(roots.take(n)[k] == roots.take(n - 1)[k]);
                } else {
                    assert(roots.take(n)[n - 1] == root);
                }
            }
            if wanted(units, roots.take(n), i) {
                let k = choose|k: int|
                    0 <= k < n && ((#[trigger] roots.take(n)[k]) == i || reaches(
                        units,
                        roots.take(n)[k],
                        i,
                    ));
                if k < n - 1 {
                    assert(roots.take(n - 1)[k] == roots.take(n)[k]);
                    assert(before.deps.contains_key(i));
                } else {
                    assert(after.order.to_set().contains(root));
                    let p = choose|p: int| 0 <= p < after.order.len() && after.order[p] == root;
                    if i != root {
                        lemma_reached_before(units, after.order, p, i);
                        let q = choose|q: int| 0 <= q < p && after.order.take(p)[q] == i;
                        assert(after.order[q] == i);
                    }
                }
            }
        }
    }
}

/// The derivation of a unit that is in the store.
pub open spec fn drv_of(cache: Seq<Option<UnitCache>>, i: usize) -> Seq<char> {
    (cache[i as int]->0).drv_path@
}

/// A plan, and how much of it has been carried out.
pub struct Planner {
    pub units: Vec<Unit>,
    pub roots: Vec<usize>,
    /// The units in the order in which they are taken up.
    pub order: Vec<usize>,
    /// What each of them depends on, directly or not.
    pub deps: HashMap<usize, BTreeSet<usize>>,
    /// What is known of the units whose derivations are in the store.
    pub cache: Vec<Option<UnitCache>>,
    /// How many units that are.
    pub done: usize,
}

impl Planner {
    /// The plan is true to the graph, and the units that are known are those that were taken up.
    pub open spec fn wf(&self) -> bool {
        &&& consistent(self.units@, progress(self.deps, self.order))
        &&& self.done <= self.order@.len()
        &&& self.cache@.len() == self.units@.len()
        &&& forall|i: usize|
            i < self.units@.len() ==> (#[trigger] self.cache@[i as int] is Some
                <==> self.order@.take(self.done as int).contains(i))
        &&& forall|k: int|
            0 <= k < self.roots@.len() ==> self.order@.contains(#[trigger] self.roots@[k])
    }

    /// The unit that comes next.
    pub open spec fn next(&self) -> usize {
        self.order@[self.done as int]
    }

    /// Plans a unit graph.
    pub fn new(graph: UnitGraph) -> (r: Result<Planner, PlanError>)
        ensures
            match r {
                Ok(p) => {
                    &&& graph.version == GRAPH_VERSION
                    &&& roots_orderable(graph.units@, graph.roots@)
                    &&& p.wf()
                    &&& p.units == graph.units
                    &&& p.roots == graph.roots
                    &&& progress(p.deps, p.order) == planned(
                        graph.units@,
                        graph.roots@,
                        graph.roots@.len() as int,
                    )
                    &&& p.done == 0
                },
                Err(PlanError::UnsupportedVersion(version)) => {
                    &&& version == graph.version
                    &&& version != GRAPH_VERSION
                },
                Err(PlanError::Unorderable) => {
                    &&& graph.version == GRAPH_VERSION
                    &&& !roots_orderable(graph.units@, graph.roots@)
                },
            },
    {
        if graph.version != GRAPH_VERSION {
            return Err(PlanError::UnsupportedVersion(graph.version));
        }
        let units = graph.units;
        let roots = graph.roots;
        let marks = orderable_units(units.as_slice());
        let mut k: usize = 0;
        while k < roots.len()
            invariant
                k <= roots@.len(),
                units == graph.units,
                roots == graph.roots,
                graph.version == GRAPH_VERSION,
                marks@.len() == units@.len(),
                forall|i: usize|
                    i < units@.len() ==> #[trigger] marks@[i as int] == orderable(
                        units@,
                        Set::empty(),
                        i,
                    ),
                forall|j: int|
                    0 <= j < k ==> orderable(units@, Set::empty(), #[trigger] roots@[j]),
            decreases roots@.len() - k,
        {
            let root = roots[k];
            if root >= units.len() || !marks[root] {
                assert(!orderable(units@, Set::empty(), roots@[k as int]));
                return Err(PlanError::Unorderable);
            }
            k = k + 1;
        }
        assert(roots_orderable(units@, roots@));
        let mut deps: HashMap<usize, BTreeSet<usize>> = HashMap::new();
        let mut order: Vec<usize> = Vec::new();
        let mut n: usize = 0;
        proof {
            assert(progress(deps, order).deps =~= Map::empty());
            assert(progress(deps, order).order =~= Seq::empty());
        }
        while n < roots.len()
            invariant
                n <= roots@.len(),
                roots_orderable(units@, roots@),
                progress(deps, order) == planned(units@, roots@, n as int),
                forall|k: int| 0 <= k < n ==> order@.contains(#[trigger] roots@[k]),
            decreases roots@.len() - n,
        {
            let root = roots[n];
            let ghost before = progress(deps, order);
            proof {
                let own = choose|fuel: nat| grounded(units@, Set::empty(), root, fuel);
                assert(orderable(units@, Set::empty(), roots@[n as int]));
                assert(before.deps.dom() =~= deps@.dom());
                lemma_grounded_monotone(units@, Set::empty(), deps@.dom(), root, own, own);
                assert(orderable(units@, deps@.dom(), root));
                lemma_plan(units@, roots@, n as int);
            }
            order_units(&mut deps, &mut order, units.as_slice(), root);
            proof {
                let after = progress(deps, order);
                assert(after.deps.dom() =~= deps@.dom());
                assert(after.order.to_set().contains(root));
                assert forall|k: int| 0 <= k < n + 1 implies order@.contains(
                    #[trigger] roots@[k],
                ) by {
                    if k < n {
                        let p = choose|p: int|
                            0 <= p < before.order.len() && before.order[p] == roots@[k];
                        assert(before.order.is_prefix_of(after.order));
                        assert(after.order.subrange(0, before.order.len() as int)[p] == roots@[k]);
                        assert(after.order[p] == roots@[k]);
                    }
                }
            }
            n = n + 1;
        }
        let mut cache: Vec<Option<UnitCache>> = Vec::new();
        let mut j: usize = 0;
        while j < units.len()
            invariant
                j <= units@.len(),
                cache@.len() == j,
                forall|i: int| 0 <= i < j ==> #[trigger] cache@[i] is None,
            decreases units@.len() - j,
        {
            cache.push(None);
            j = j + 1;
        }
        proof {
            lemma_plan(units@, roots@, roots@.len() as int);
            assert(order@.take(0) =~= Seq::empty());
        }
        Ok(Planner { units, roots, order, deps, cache, done: 0 })
    }

    /// The unit to take up next, until all are done.
    pub fn current(&self) -> (r: Option<usize>)
        requires
            self.wf(),
        ensures
            match r {
                Some(idx) => {
                    &&& self.done < self.order@.len()
                    &&& idx == self.next()
                    &&& idx < self.units@.len()
                },
                None => self.done == self.order@.len(),
            },
    {
        if self.done < self.order.len() {
            proof {
                self.lemma_next();
            }
            Some(self.order[self.done])
        } else {
            None
        }
    }

    /// The next unit exists, is not in the store yet, and all that it depends on is.
    pub proof fn lemma_next(&self)
        requires
            self.wf(),
            self.done < self.order@.len(),
        ensures
            self.next() < self.units@.len(),
            self.cache@[self.next() as int] is None,
            self.deps@.contains_key(self.next()),
            deps_exist(self.units@[self.next() as int], self.units@),
            deps_cached(self.units@[self.next() as int], self.cache@),
            forall|t: usize| #[trigger]
                self.deps@[self.next()]@.contains(t) ==> is_cached(self.cache@, t),
            forall|t: usize| #[trigger]
                self.deps@[self.next()]@.contains(t) <==> reaches(self.units@, self.next(), t),
    {
        let at = progress(self.deps, self.order);
        let idx = self.next();
        let p = self.done as int;
        assert(at.deps.dom() =~= self.deps@.dom());
        assert(at.order.to_set().contains(self.order@[p]));
        assert(at.deps.contains_key(idx));
        assert forall|t: usize| #[trigger] self.deps@[idx]@.contains(t) <==> reaches(
            self.units@,
            idx,
            t,
        ) by {
            assert(at.deps[idx].contains(t) <==> reaches(self.units@, idx, t));
        }
        assert forall|t: usize| self.order@.take(p).contains(t) implies is_cached(
            self.cache@,
            t,
        ) by {
            let q = choose|q: int| 0 <= q < p && self.order@.take(p)[q] == t;
            assert(at.order.to_set().contains(self.order@[q]));
            assert(at.deps.contains_key(t));
            assert(self.cache@[t as int] is Some);
        }
        assert forall|t: usize| #[trigger] self.deps@[idx]@.contains(t) implies is_cached(
            self.cache@,
            t,
        ) by {
            assert(reaches(self.units@, idx, t));
            lemma_reached_before(self.units@, self.order@, p, t);
        }
        let unit = self.units@[idx as int];
        assert forall|d: int| 0 <= d < unit.dependencies@.len() implies is_cached(
            self.cache@,
            (#[trigger] unit.dependencies@[d]).index,
        ) by {
            let dep = unit.dependencies@[d].index;
            assert(edges(self.units@, idx)[d] == dep);
            assert(depends(self.units@, self.order@[p], dep));
            assert(self.order@.take(p).contains(dep));
        }
        assert(!self.order@.take(p).contains(idx)) by {
            if self.order@.take(p).contains(idx) {
                let q = choose|q: int| 0 <= q < p && self.order@.take(p)[q] == idx;
                assert(self.order@[q] == self.order@[p]);
            }
        }
        assert(self.cache@[idx as int] is None);
    }

    /// The derivations that the next unit depends on directly, in order.
    pub fn direct_derivations(&self) -> (r: Vec<StorePath>)
        requires
            self.wf(),
            self.done < self.order@.len(),
        ensures
            r@.len() == self.units@[self.next() as int].dependencies@.len(),
            forall|d: int|
                0 <= d < r@.len() ==> (#[trigger] r@[d])@ == crate::unit_drv::dep_cache(
                    self.units@[self.next() as int],
                    self.cache@,
                    d,
                ).drv_path@,
    {
        proof {
            self.lemma_next();
        }
        let idx = self.order[self.done];
        let unit = &self.units[idx];
        let mut r: Vec<StorePath> = Vec::new();
        let mut d: usize = 0;
        while d < unit.dependencies.len()
            invariant
                d <= unit.dependencies@.len(),
                deps_cached(*unit, self.cache@),
                r@.len() == d,
                forall|k: int|
                    0 <= k < d ==> (#[trigger] r@[k])@ == crate::unit_drv::dep_cache(
                        *unit,
                        self.cache@,
                        k,
                    ).drv_path@,
            decreases unit.dependencies@.len() - d,
        {
            assert(is_cached(self.cache@, unit.dependencies@[d as int].index));
            match &self.cache[unit.dependencies[d].index] {
                Some(known) => r.push(known.drv_path.clone()),
                None => {},
            }
            d = d + 1;
        }
        r
    }

    /// The derivation of the next unit, and what later units need to know of it: the run of a
    /// build script, or the compilation of a crate.
    pub fn derivation(
        &self,
        tools: &Tools,
        own: &OwnOutputs,
        package: &Package,
        source: &UnitSource,
        src: &SourceTree,
        config: Option<&ExternConfig>,
        dep_hash: u64,
    ) -> (r: Result<(Derivation, UnitCacheMeta), DrvError>)
        requires
            self.wf(),
            self.done < self.order@.len(),
            parent_of(tools.rustc.real_path@) is Some,
        ensures
            self.units@[self.next() as int].mode == CompileMode::RunCustomBuild ==> script_outcome(
                *tools,
                *own,
                self.units@[self.next() as int],
                self.units@,
                self.cache@,
                *package,
                *source,
                *src,
                owned(config),
                r,
            ),
            self.units@[self.next() as int].mode != CompileMode::RunCustomBuild ==> compile_outcome(
                *tools,
                *own,
                self.units@[self.next() as int],
                self.cache@,
                self.deps@[self.next()]@,
                *package,
                *source,
                *src,
                dep_hash,
                r,
            ),
    {
        broadcast use vstd::std_specs::hash::group_hash_axioms;

        proof {
            self.lemma_next();
        }
        let idx = self.order[self.done];
        let unit = &self.units[idx];
        if unit.mode == CompileMode::RunCustomBuild {
            script_derivation(
                tools,
                own,
                unit,
                self.units.as_slice(),
                &self.cache,
                package,
                source,
                src,
                config,
            )
        } else {
            let deps = self.deps.get(&idx).unwrap();
            compile_derivation(
                tools,
                own,
                unit,
                &self.cache,
                deps,
                package,
                source,
                src,
                dep_hash,
            )
        }
    }

    /// Notes that the next unit's derivation is in the store.
    pub fn record(&mut self, known: UnitCache)
        requires
            old(self).wf(),
            old(self).done < old(self).order@.len(),
        ensures
            final(self).wf(),
            final(self).units == old(self).units,
            final(self).roots == old(self).roots,
            final(self).order == old(self).order,
            final(self).deps == old(self).deps,
            final(self).done == old(self).done + 1,
            final(self).cache@ == old(self).cache@.update(old(self).next() as int, Some(known)),
    {
        proof {
            self.lemma_next();
        }
        let idx = self.order[self.done];
        let ghost before = *self;
        assert(self.done < self.order.len());
        self.cache.set(idx, Some(known));
        self.done = self.done + 1;
        proof {
            let p = before.done as int;
            let longer = self.order@.take(p + 1);
            assert forall|i: usize| i < self.units@.len() implies (#[trigger] self.cache@[i as int]
                is Some <==> self.order@.take(self.done as int).contains(i)) by {
                if longer.contains(i) && i != idx {
                    let q = choose|q: int| 0 <= q < p + 1 && longer[q] == i;
                    assert(before.order@.take(p)[q] == i);
                }
                if before.order@.take(p).contains(i) {
                    let q = choose|q: int| 0 <= q < p && before.order@.take(p)[q] == i;
                    assert(longer[q] == i);
                }
                if i == idx {
                    assert(longer[p] == i);
                } else {
                    assert(self.cache@[i as int] == before.cache@[i as int]);
                }
            }
        }
    }

    /// The derivations that were asked for, once all units are done.
    pub fn root_derivations(&self) -> (r: Vec<StorePath>)
        requires
            self.wf(),
            self.done == self.order@.len(),
        ensures
            r@.len() == self.roots@.len(),
            forall|k: int|
                0 <= k < r@.len() ==> is_cached(self.cache@, #[trigger] self.roots@[k]),
            forall|k: int|
                0 <= k < r@.len() ==> (#[trigger] r@[k])@ == drv_of(self.cache@, self.roots@[k]),
    {
        let mut r: Vec<StorePath> = Vec::new();
        let mut k: usize = 0;
        while k < self.roots.len()
            invariant
                self.wf(),
                self.done == self.order@.len(),
                k <= self.roots@.len(),
                r@.len() == k,
                forall|j: int|
                    0 <= j < k ==> is_cached(self.cache@, #[trigger] self.roots@[j]),
                forall|j: int|
                    0 <= j < k ==> (#[trigger] r@[j])@ == drv_of(self.cache@, self.roots@[j]),
            decreases self.roots@.len() - k,
        {
            let root = self.roots[k];
            proof {
                let at = progress(self.deps, self.order);
                assert(self.order@.contains(self.roots@[k as int]));
                assert(at.order.to_set().contains(root));
                assert(at.deps.contains_key(root));
                assert(self.order@.take(self.done as int) =~= self.order@);
                assert(self.cache@[root as int] is Some);
            }
            match &self.cache[root] {
                Some(known) => r.push(known.drv_path.clone()),
                None => {},
            }
            k = k + 1;
        }
        r
    }
}

} // verus!
