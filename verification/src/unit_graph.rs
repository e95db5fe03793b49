//! The unit graph that `cargo build --unit-graph` prints.
use crate::path::UnixPath;
use crate::text::texts;
use vstd::prelude::*;

verus! {

/// What Cargo does with a unit.
#[derive(PartialEq, Eq, Structural, Copy, Clone, Debug, Hash)]
pub enum CompileMode {
    Test,
    Build,
    Check,
    Doc,
    Dooctest,
    Docscrape,
    RunCustomBuild,
}

/// The crate target that a unit compiles or runs.
#[derive(Debug, Hash)]
pub struct Target {
    pub kind: Vec<String>,
    pub crate_types: Vec<String>,
    pub name: String,
    pub src_path: UnixPath,
    pub edition: String,
    pub doc: bool,
    pub doctest: bool,
    pub test: bool,
}

/// The compiler settings of a unit.
#[derive(Debug, Hash)]
pub struct Profile {
    pub name: String,
    pub opt_level: String,
    pub lto: String,
    pub codegen_backend: Option<String>,
    pub codgen_units: Option<u32>,
    pub debuginfo: u32,
    pub split_debuginfo: Option<String>,
    pub debug_assertions: bool,
    pub overflow_checks: bool,
    pub rpath: bool,
    pub incremental: bool,
    pub panic: String,
}

/// An edge of the graph: the unit that is depended on, and the name under which its crate is seen.
#[derive(Debug, Hash)]
pub struct Dependency {
    pub index: usize,
    pub extern_crate_name: String,
}

/// One node of the graph.
#[derive(Debug, Hash)]
pub struct Unit {
    pub pkg_id: String,
    pub target: Target,
    pub profile: Profile,
    pub platform: Option<String>,
    pub mode: CompileMode,
    pub features: Vec<String>,
    pub dependencies: Vec<Dependency>,
}

/// The whole graph, with the units that were asked for.
#[derive(Debug)]
pub struct UnitGraph {
    pub version: u32,
    pub units: Vec<Unit>,
    pub roots: Vec<usize>,
}

/// Why there is no unit graph.
#[derive(PartialEq, Eq, Structural, Copy, Clone, Debug)]
pub enum DiscoverError {
    /// Cargo failed with this status, or was ended by a signal, which counts as -1.
    CargoFailed(i32),
    /// What Cargo printed is no unit graph.
    Malformed,
}

/// The arguments that make Cargo print the unit graph of the command that `cargo_args` stands for.
pub open spec fn discover_args(cargo_args: Seq<Seq<char>>) -> Seq<Seq<char>> {
    cargo_args + seq!["-Z"@, "unstable-options"@, "--unit-graph"@]
}

/// Extends a Cargo command so that it prints its unit graph.
pub fn discover_arguments(cargo_args: &[String]) -> (r: Vec<String>)
    ensures
        texts(r@) == discover_args(texts(cargo_args@)),
{
    let mut r: Vec<String> = Vec::new();
    let mut k: usize = 0;
    while k < cargo_args.len()
        invariant
            k <= cargo_args@.len(),
            texts(r@) =~= texts(cargo_args@).take(k as int),
        decreases cargo_args@.len() - k,
    {
        let ghost before = texts(r@);
        r.push(cargo_args[k].clone());
        assert(texts(r@) =~= before.push(cargo_args@[k as int]@));
        k = k + 1;
    }
    let ghost start = texts(r@);
    assert(start =~= texts(cargo_args@));
    r.push("-Z".to_owned());
    r.push("unstable-options".to_owned());
    r.push("--unit-graph".to_owned());
    assert(texts(r@) =~= start.push("-Z"@).push("unstable-options"@).push("--unit-graph"@));
    assert(texts(r@) =~= discover_args(texts(cargo_args@)));
    r
}

impl UnitGraph {
    /// Takes up what came of asking Cargo for the unit graph: how the run ended, and the graph if
    /// what it printed is one.
    pub fn discover(success: bool, code: Option<i32>, printed: Option<UnitGraph>) -> (r: Result<
        UnitGraph,
        DiscoverError,
    >)
        ensures
            match r {
                Ok(graph) => success && printed == Some(graph),
                Err(DiscoverError::CargoFailed(status)) => !success && status == match code {
                    Some(code) => code as int,
                    None => -1,
                },
                Err(DiscoverError::Malformed) => success && printed is None,
            },
    {
        if !success {
            return match code {
                Some(code) => Err(DiscoverError::CargoFailed(code)),
                None => Err(DiscoverError::CargoFailed(-1)),
            };
        }
        match printed {
            Some(graph) => Ok(graph),
            None => Err(DiscoverError::Malformed),
        }
    }
}

/// The units that unit `idx` depends on directly, in the order in which Cargo lists them.
pub open spec fn edges(units: Seq<Unit>, idx: usize) -> Seq<usize> {
    units[idx as int].dependencies@.map_values(|d: Dependency| d.index)
}

/// Unit `from` depends directly on unit `to`.
pub open spec fn depends(units: Seq<Unit>, from: usize, to: usize) -> bool {
    &&& from < units.len()
    &&& edges(units, from).contains(to)
}

/// `path` walks along direct dependencies.
pub open spec fn is_walk(units: Seq<Unit>, path: Seq<usize>) -> bool {
    forall|i: int| 0 <= i < path.len() - 1 ==> depends(units, #[trigger] path[i], path[i + 1])
}

/// Unit `from` depends on unit `to` over one or more edges.
pub open spec fn reaches(units: Seq<Unit>, from: usize, to: usize) -> bool {
    exists|path: Seq<usize>| #[trigger]
        is_walk(units, path) && path.len() >= 2 && path[0] == from && path.last() == to
}

/// A walk of the graph from `idx` that does not go past the units in `seen` stays inside the
/// graph and ends after at most `fuel` edges.
pub open spec fn grounded(units: Seq<Unit>, seen: Set<usize>, idx: usize, fuel: nat) -> bool
    decreases fuel,
{
    ||| seen.contains(idx)
    ||| {
        &&& fuel > 0
        &&& idx < units.len()
        &&& forall|n: int|
            0 <= n < edges(units, idx).len() ==> grounded(
                units,
                seen,
                #[trigger] edges(units, idx)[n],
                (fuel - 1) as nat,
            )
    }
}

/// The units below `idx`, up to those in `seen`, form no cycle and all exist.
pub open spec fn orderable(units: Seq<Unit>, seen: Set<usize>, idx: usize) -> bool {
    exists|fuel: nat| grounded(units, seen, idx, fuel)
}

/// More fuel and more known units never hurt.
pub proof fn lemma_grounded_monotone(
    units: Seq<Unit>,
    seen: Set<usize>,
    more: Set<usize>,
    idx: usize,
    fuel: nat,
    bigger: nat,
)
    requires
        grounded(units, seen, idx, fuel),
        seen.subset_of(more),
        fuel <= bigger,
    ensures
        grounded(units, more, idx, bigger),
    decreases fuel,
{
    if !more.contains(idx) {
        assert forall|n: int| 0 <= n < edges(units, idx).len() implies grounded(
            units,
            more,
            #[trigger] edges(units, idx)[n],
            (bigger - 1) as nat,
        ) by {
            lemma_grounded_monotone(
                units,
                seen,
                more,
                edges(units, idx)[n],
                (fuel - 1) as nat,
                (bigger - 1) as nat,
            );
        }
    }
}

/// A unit is reached over one edge, or over one edge and then some more.
pub proof fn lemma_reaches_step(units: Seq<Unit>, from: usize, to: usize)
    ensures
        reaches(units, from, to) <==> exists|mid: usize| #[trigger]
            depends(units, from, mid) && (mid == to || reaches(units, mid, to)),
{
    if reaches(units, from, to) {
        let path = choose|path: Seq<usize>| #[trigger]
            is_walk(units, path) && path.len() >= 2 && path[0] == from && path.last() == to;
        let mid = path[1];
        assert(depends(units, path[0], path[1]));
        if path.len() > 2 {
            let rest = path.drop_first();
            assert forall|i: int| 0 <= i < rest.len() - 1 implies depends(
                units,
                #[trigger] rest[i],
                rest[i + 1],
            ) by {
                assert(rest[i] == path[i + 1]);
            }
            assert(is_walk(units, rest));
            assert(rest.last() == to);
        }
        assert(depends(units, from, mid) && (mid == to || reaches(units, mid, to)));
    }
    if exists|mid: usize| #[trigger]
        depends(units, from, mid) && (mid == to || reaches(units, mid, to)) {
        let mid = choose|mid: usize| #[trigger]
            depends(units, from, mid) && (mid == to || reaches(units, mid, to));
        if mid == to {
            let path = seq![from, to];
            assert(is_walk(units, path));
            assert(path.last() == to);
        } else {
            let rest = choose|path: Seq<usize>| #[trigger]
                is_walk(units, path) && path.len() >= 2 && path[0] == mid && path.last() == to;
            let path = seq![from] + rest;
            assert forall|i: int| 0 <= i < path.len() - 1 implies depends(
                units,
                #[trigger] path[i],
                path[i + 1],
            ) by {
                if i > 0 {
                    assert(path[i] == rest[i - 1]);
                }
            }
            assert(is_walk(units, path));
            assert(path.last() == to);
        }
    }
}

} // verus!
