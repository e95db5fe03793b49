//! Lists the sources of the units and the compiler arguments that they call for, without planning
//! any build.
use std::collections::HashMap;

use crate::order::{visit, visit_deps, Progress};
use crate::path::{
    below, component_names, file_name, file_name_of, join, joined, names, parent, parent_of,
    rest_from, same_bytes, stretch, strip_base, UnixPath,
};
use crate::path_laws::lemma_parent;
use crate::text::{join_texts, separated, texts, views};
use crate::tools::{entry_of, text_from_utf8};
use crate::unit_graph::{edges, grounded, lemma_grounded_monotone, orderable, Unit};
use vstd::prelude::*;
use vstd::utf8::{encode_utf8, valid_utf8};

verus! {

/// How far a survey has come: a list for each unit that was reached, and the units in order.
pub struct Survey {
    pub deps: Map<usize, Seq<usize>>,
    pub order: Seq<usize>,
}

/// The survey that a map of lists and a list of units stand for.
pub open spec fn survey(deps: HashMap<usize, Vec<usize>>, order: Vec<usize>) -> Survey {
    Survey { deps: deps@.map_values(|v: Vec<usize>| v@), order: order@ }
}

/// Visits `idx` depth first: its dependencies in the order in which they are listed, then `idx`
/// itself. A unit that was reached before is not visited again.
pub open spec fn reach(units: Seq<Unit>, at: Survey, idx: usize, fuel: nat) -> Survey
    decreases fuel, 0nat,
{
    if at.deps.contains_key(idx) || fuel == 0 {
        at
    } else {
        let (after, list) = reach_deps(
            units,
            at,
            idx,
            edges(units, idx).len(),
            (fuel - 1) as nat,
        );
        Survey { deps: after.deps.insert(idx, list), order: after.order.push(idx) }
    }
}

/// Visits the first `n` dependencies of `idx`, and strings their lists together.
pub open spec fn reach_deps(units: Seq<Unit>, at: Survey, idx: usize, n: nat, fuel: nat) -> (
    Survey,
    Seq<usize>,
)
    decreases fuel, n,
{
    if n == 0 {
        (at, Seq::empty())
    } else {
        let (before, list) = reach_deps(units, at, idx, (n - 1) as nat, fuel);
        let dep = edges(units, idx)[n - 1];
        let after = reach(units, before, dep, fuel);
        (after, list + after.deps[dep])
    }
}

/// The survey once `idx` was reached. How much fuel the visit is given does not matter as long as
/// it is enough, see [`lemma_reach_fuel`].
pub open spec fn reached(units: Seq<Unit>, at: Survey, idx: usize) -> Survey {
    reach(units, at, idx, choose|fuel: nat| grounded(units, at.deps.dom(), idx, fuel))
}

/// A visit with enough fuel comes out the same with more, and reaches `idx`.
pub proof fn lemma_reach_fuel(units: Seq<Unit>, at: Survey, idx: usize, fuel: nat, more: nat)
    requires
        grounded(units, at.deps.dom(), idx, fuel),
        fuel <= more,
    ensures
        reach(units, at, idx, more) == reach(units, at, idx, fuel),
        reach(units, at, idx, fuel).deps.contains_key(idx),
        at.deps.dom().subset_of(reach(units, at, idx, fuel).deps.dom()),
    decreases fuel, 0nat,
{
    if !at.deps.contains_key(idx) {
        let n = edges(units, idx).len();
        lemma_reach_deps_fuel(units, at, idx, n, (fuel - 1) as nat, (more - 1) as nat);
    }
}

proof fn lemma_reach_deps_fuel(
    units: Seq<Unit>,
    at: Survey,
    idx: usize,
    n: nat,
    fuel: nat,
    more: nat,
)
    requires
        n <= edges(units, idx).len(),
        forall|i: int|
            0 <= i < edges(units, idx).len() ==> grounded(
                units,
                at.deps.dom(),
                #[trigger] edges(units, idx)[i],
                fuel,
            ),
        fuel <= more,
    ensures
        reach_deps(units, at, idx, n, more) == reach_deps(units, at, idx, n, fuel),
        at.deps.dom().subset_of(reach_deps(units, at, idx, n, fuel).0.deps.dom()),
    decreases fuel, n,
{
    if n > 0 {
        lemma_reach_deps_fuel(units, at, idx, (n - 1) as nat, fuel, more);
        let before = reach_deps(units, at, idx, (n - 1) as nat, fuel).0;
        let dep = edges(units, idx)[n - 1];
        lemma_grounded_monotone(units, at.deps.dom(), before.deps.dom(), dep, fuel, fuel);
        lemma_reach_fuel(units, before, dep, fuel, more);
    }
}

/// The two orderings have come equally far.
pub open spec fn same_progress(s: Survey, p: Progress) -> bool {
    s.order == p.order && s.deps.dom() == p.deps.dom()
}

/// A survey lists the units in the same order as a plan.
pub proof fn lemma_same_order(units: Seq<Unit>, s: Survey, p: Progress, idx: usize, fuel: nat)
    requires
        same_progress(s, p),
    ensures
        same_progress(reach(units, s, idx, fuel), visit(units, p, idx, fuel)),
    decreases fuel, 0nat,
{
    assert(s.deps.contains_key(idx) <==> s.deps.dom().contains(idx));
    if !s.deps.contains_key(idx) && fuel > 0 {
        let n = edges(units, idx).len();
        let f = (fuel - 1) as nat;
        lemma_same_order_deps(units, s, p, idx, n, f);
        let a = reach_deps(units, s, idx, n, f).0;
        let b = visit_deps(units, p, idx, n, f).0;
        assert(reach(units, s, idx, fuel).deps.dom() =~= a.deps.dom().insert(idx));
        assert(visit(units, p, idx, fuel).deps.dom() =~= b.deps.dom().insert(idx));
    }
}

proof fn lemma_same_order_deps(
    units: Seq<Unit>,
    s: Survey,
    p: Progress,
    idx: usize,
    n: nat,
    fuel: nat,
)
    requires
        same_progress(s, p),
    ensures
        same_progress(
            reach_deps(units, s, idx, n, fuel).0,
            visit_deps(units, p, idx, n, fuel).0,
        ),
    decreases fuel, n,
{
    if n > 0 {
        let m = (n - 1) as nat;
        lemma_same_order_deps(units, s, p, idx, m, fuel);
        lemma_same_order(
            units,
            reach_deps(units, s, idx, m, fuel).0,
            visit_deps(units, p, idx, m, fuel).0,
            edges(units, idx)[n - 1],
            fuel,
        );
    }
}

/// All lists are empty.
pub open spec fn no_lists(s: Survey) -> bool {
    forall|k: usize| #[trigger] s.deps.contains_key(k) ==> s.deps[k].len() == 0
}

/// A survey never adds to the lists: where they start out empty they stay so.
pub proof fn lemma_no_lists(units: Seq<Unit>, s: Survey, idx: usize, fuel: nat)
    requires
        grounded(units, s.deps.dom(), idx, fuel),
        no_lists(s),
    ensures
        no_lists(reach(units, s, idx, fuel)),
    decreases fuel, 0nat,
{
    if !s.deps.contains_key(idx) && fuel > 0 {
        lemma_no_lists_deps(units, s, idx, edges(units, idx).len(), (fuel - 1) as nat);
    }
}

proof fn lemma_no_lists_deps(units: Seq<Unit>, s: Survey, idx: usize, n: nat, fuel: nat)
    requires
        n <= edges(units, idx).len(),
        forall|i: int|
            0 <= i < edges(units, idx).len() ==> grounded(
                units,
                s.deps.dom(),
                #[trigger] edges(units, idx)[i],
                fuel,
            ),
        no_lists(s),
    ensures
        no_lists(reach_deps(units, s, idx, n, fuel).0),
        reach_deps(units, s, idx, n, fuel).1.len() == 0,
    decreases fuel, n,
{
    if n > 0 {
        let m = (n - 1) as nat;
        lemma_no_lists_deps(units, s, idx, m, fuel);
        lemma_reach_deps_fuel(units, s, idx, m, fuel, fuel);
        let before = reach_deps(units, s, idx, m, fuel).0;
        let dep = edges(units, idx)[n - 1];
        lemma_grounded_monotone(units, s.deps.dom(), before.deps.dom(), dep, fuel, fuel);
        lemma_no_lists(units, before, dep, fuel);
        lemma_reach_fuel(units, before, dep, fuel, fuel);
    }
}

/// Reaches unit `idx` and all that it depends on, depth first.
pub fn order_units(
    all_transitive_deps: &mut HashMap<usize, Vec<usize>>,
    ordered_units: &mut Vec<usize>,
    all_units: &[Unit],
    idx: usize,
)
    requires
        orderable(all_units@, old(all_transitive_deps)@.dom(), idx),
    ensures
        survey(*final(all_transitive_deps), *final(ordered_units)) == reached(
            all_units@,
            survey(*old(all_transitive_deps), *old(ordered_units)),
            idx,
        ),
        final(all_transitive_deps)@.contains_key(idx),
{
    let ghost at = survey(*all_transitive_deps, *ordered_units);
    let ghost fuel = choose|fuel: nat| grounded(all_units@, at.deps.dom(), idx, fuel);
    proof {
        assert(at.deps.dom() =~= all_transitive_deps@.dom());
        assert(exists|fuel: nat| grounded(all_units@, at.deps.dom(), idx, fuel));
        lemma_reach_fuel(all_units@, at, idx, fuel, fuel);
    }
    reach_unit(all_transitive_deps, ordered_units, all_units, idx, Ghost(fuel));
    proof {
        let after = survey(*all_transitive_deps, *ordered_units);
        assert(after.deps.dom() =~= all_transitive_deps@.dom());
    }
}

fn reach_unit(
    all_transitive_deps: &mut HashMap<usize, Vec<usize>>,
    ordered_units: &mut Vec<usize>,
    all_units: &[Unit],
    idx: usize,
    Ghost(fuel): Ghost<nat>,
)
    requires
        grounded(
            all_units@,
            survey(*old(all_transitive_deps), *old(ordered_units)).deps.dom(),
            idx,
            fuel,
        ),
    ensures
        survey(*final(all_transitive_deps), *final(ordered_units)) == reach(
            all_units@,
            survey(*old(all_transitive_deps), *old(ordered_units)),
            idx,
            fuel,
        ),
    decreases fuel,
{
    broadcast use vstd::std_specs::hash::group_hash_axioms;

    let ghost units = all_units@;
    let ghost at = survey(*all_transitive_deps, *ordered_units);
    if all_transitive_deps.contains_key(&idx) {
        assert(at.deps.contains_key(idx));
        return ;
    }
    assert(!at.deps.contains_key(idx));
    let ghost less = (fuel - 1) as nat;
    let mut transitive_deps: Vec<usize> = Vec::new();
    let unit = &all_units[idx];
    let mut n: usize = 0;
    while n < unit.dependencies.len()
        invariant
            units == all_units@,
            idx < units.len(),
            *unit == units[idx as int],
            n <= unit.dependencies.len(),
            (survey(*all_transitive_deps, *ordered_units), transitive_deps@) == reach_deps(
                units,
                at,
                idx,
                n as nat,
                less,
            ),
            forall|i: int|
                0 <= i < edges(units, idx).len() ==> grounded(
                    units,
                    at.deps.dom(),
                    #[trigger] edges(units, idx)[i],
                    less,
                ),
            fuel == less + 1,
        decreases unit.dependencies.len() - n,
    {
        let dep = unit.dependencies[n].index;
        let ghost before = survey(*all_transitive_deps, *ordered_units);
        proof {
            assert(edges(units, idx)[n as int] == dep);
            lemma_reach_deps_fuel(units, at, idx, n as nat, less, less);
            lemma_grounded_monotone(units, at.deps.dom(), before.deps.dom(), dep, less, less);
            lemma_reach_fuel(units, before, dep, less, less);
        }
        reach_unit(all_transitive_deps, ordered_units, all_units, dep, Ghost(less));
        let ghost after = survey(*all_transitive_deps, *ordered_units);
        assert(after.deps.contains_key(dep));
        match all_transitive_deps.get(&dep) {
            Some(below) => {
                assert(below@ == after.deps[dep]);
                append_units(&mut transitive_deps, below);
            },
            None => {},
        }
        n = n + 1;
    }
    all_transitive_deps.insert(idx, transitive_deps);
    ordered_units.push(idx);
    proof {
        let after = survey(*all_transitive_deps, *ordered_units);
        assert(after.deps =~= reach(units, at, idx, fuel).deps);
        assert(after.order =~= reach(units, at, idx, fuel).order);
    }
}

fn append_units(list: &mut Vec<usize>, more: &Vec<usize>)
    ensures
        final(list)@ == old(list)@ + more@,
{
    let ghost before = list@;
    let mut k: usize = 0;
    assert(before =~= before + more@.take(0));
    while k < more.len()
        invariant
            k <= more@.len(),
            list@ == before + more@.take(k as int),
        decreases more@.len() - k,
    {
        list.push(more[k]);
        k = k + 1;
        assert(list@ =~= before + more@.take(k as int));
    }
    assert(more@.take(k as int) =~= more@);
}

/// The directory of the package that a source file belongs to, by the usual layout: the directory
/// that the file is in, or the one above if that is called `src`.
pub open spec fn crate_root_of(src_path: Seq<u8>) -> Option<Seq<u8>> {
    match parent_of(src_path) {
        Some(dir) => if file_name_of(dir) == Some(encode_utf8("src"@)) {
            parent_of(dir)
        } else {
            Some(dir)
        },
        None => None,
    }
}

/// Finds the directory of the package that a source file belongs to.
pub fn find_crate_root(src_path: &UnixPath) -> (r: Option<UnixPath>)
    ensures
        match r {
            Some(root) => crate_root_of(src_path@) == Some(root@),
            None => crate_root_of(src_path@) is None,
        },
{
    let dir = match parent(src_path.bytes.as_slice()) {
        Some(dir) => dir,
        None => {
            return None;
        },
    };
    match file_name(dir.as_slice()) {
        Some(name) => if same_bytes(name.as_slice(), "src".as_bytes()) {
            return match parent(dir.as_slice()) {
                Some(root) => Some(UnixPath { bytes: root }),
                None => None,
            };
        },
        None => {},
    }
    Some(UnixPath { bytes: dir })
}

/// A source file lies below the directory of its package.
pub proof fn lemma_crate_root(src_path: Seq<u8>)
    requires
        crate_root_of(src_path) is Some,
    ensures
        below(src_path, crate_root_of(src_path)->0) is Some,
{
    let all = names(src_path);
    let dir = parent_of(src_path)->0;
    lemma_parent(src_path);
    assert(names(dir) =~= all.subrange(0, all.len() - 1));
    if crate_root_of(src_path) != Some(dir) {
        lemma_parent(dir);
        assert(names(parent_of(dir)->0) =~= all.subrange(0, all.len() - 2));
    }
}

/// The store object that holds a path, and the way from there to the path.
pub fn containing_store_path(store_dir: &UnixPath, path: &UnixPath) -> (r: Option<
    (String, UnixPath),
>)
    ensures
        match r {
            Some((name, rest)) => {
                &&& entry_of(store_dir@, path@) == Some(encode_utf8(name@))
                &&& rest@ == stretch(
                    path@,
                    names(store_dir@).len() as int + 1,
                    names(path@).len() as int,
                )
            },
            None => match entry_of(store_dir@, path@) {
                Some(entry) => !valid_utf8(entry),
                None => true,
            },
        },
{
    match crate::tools::containing_store_path(store_dir, path) {
        Some(name) => {
            let base = component_names(store_dir.bytes.as_slice());
            let all = component_names(path.bytes.as_slice());
            assert(names(store_dir@).len() == base@.len() && names(path@).len() == all@.len());
            assert(base@.len() < all.len());
            let rest = rest_from(path.bytes.as_slice(), base.len() + 1);
            Some((name, UnixPath { bytes: rest }))
        },
        None => None,
    }
}

/// A long option with its value.
pub open spec fn long_text(option: Seq<char>, value: Seq<char>) -> Seq<char> {
    "--"@ + option + "="@ + value
}

/// Adds a long option with its value.
pub fn add_long(rustc_args: &mut Vec<String>, option: &str, value: &str)
    ensures
        texts(final(rustc_args)@) == texts(old(rustc_args)@).push(long_text(option@, value@)),
{
    let ghost before = texts(rustc_args@);
    rustc_args.push("--".to_owned().concat(option).concat("=").concat(value));
    assert(texts(rustc_args@) =~= before.push(long_text(option@, value@)));
}

/// Why a unit cannot be surveyed.
#[derive(PartialEq, Eq, Structural, Copy, Clone, Debug)]
pub enum SurveyError {
    /// The main file is not in any directory.
    NoSourcePath,
    /// The package's directory has no name.
    EmptyPath,
    /// The name of the package's directory is not UTF-8.
    InvalidName,
    /// The main file is not below the package's directory.
    OutsideCrateRoot,
    /// The path of the main file is not UTF-8.
    NotUtf8,
}

/// Where a unit's source is, and what it is called.
#[derive(Debug)]
pub struct CrateSource {
    pub crate_root: UnixPath,
    pub drv_name: String,
}

/// Finds the directory of a unit's package, and its name.
pub fn crate_source(src_path: &UnixPath) -> (r: Result<CrateSource, SurveyError>)
    ensures
        match r {
            Ok(source) => {
                &&& crate_root_of(src_path@) == Some(source.crate_root@)
                &&& file_name_of(source.crate_root@) == Some(encode_utf8(source.drv_name@))
            },
            Err(SurveyError::NoSourcePath) => crate_root_of(src_path@) is None,
            Err(SurveyError::EmptyPath) => crate_root_of(src_path@) matches Some(root)
                && file_name_of(root) is None,
            Err(SurveyError::InvalidName) => crate_root_of(src_path@) matches Some(root)
                && file_name_of(root) matches Some(name) && !valid_utf8(name),
            Err(_) => false,
        },
{
    let crate_root = match find_crate_root(src_path) {
        Some(root) => root,
        None => {
            return Err(SurveyError::NoSourcePath);
        },
    };
    match file_name(crate_root.bytes.as_slice()) {
        Some(name) => match text_from_utf8(name) {
            Some(drv_name) => Ok(CrateSource { crate_root, drv_name }),
            None => Err(SurveyError::InvalidName),
        },
        None => Err(SurveyError::EmptyPath),
    }
}

/// The compiler arguments that a unit calls for, `file` being its main file in the store.
pub open spec fn survey_args(unit: Unit, file: Seq<char>) -> Seq<Seq<char>> {
    seq![
        long_text("crate-name"@, unit.target.name@),
        long_text("edition"@, unit.target.edition@),
        file,
        long_text("--crate-type"@, separated(texts(unit.target.crate_types@), ","@)),
    ]
}

/// Lists the compiler arguments that a unit calls for. `src` is where the package's directory is in
/// the store.
pub fn rustc_arguments(unit: &Unit, crate_root: &UnixPath, src: &UnixPath) -> (r: Result<
    Vec<String>,
    SurveyError,
>)
    ensures
        match r {
            Ok(args) => {
                &&& args@.len() == 4
                &&& texts(args@) == survey_args(*unit, args@[2]@)
                &&& below(unit.target.src_path@, crate_root@) matches Some(rest) && encode_utf8(
                    args@[2]@,
                ) == joined(src@, rest)
            },
            Err(SurveyError::OutsideCrateRoot) => below(unit.target.src_path@, crate_root@) is None,
            Err(SurveyError::NotUtf8) => below(unit.target.src_path@, crate_root@) matches Some(
                rest,
            ) && !valid_utf8(joined(src@, rest)),
            Err(_) => false,
        },
{
    let mut args: Vec<String> = Vec::new();
    add_long(&mut args, "crate-name", unit.target.name.as_str());
    add_long(&mut args, "edition", unit.target.edition.as_str());
    let rest = match strip_base(
        unit.target.src_path.bytes.as_slice(),
        crate_root.bytes.as_slice(),
    ) {
        Some(rest) => rest,
        None => {
            return Err(SurveyError::OutsideCrateRoot);
        },
    };
    let path = join(src.bytes.as_slice(), rest.as_slice());
    let file = match text_from_utf8(path) {
        Some(file) => file,
        None => {
            return Err(SurveyError::NotUtf8);
        },
    };
    let ghost name = file@;
    let ghost before = texts(args@);
    args.push(file);
    assert(texts(args@) =~= before.push(name));
    let mut types: Vec<&str> = Vec::new();
    let mut k: usize = 0;
    while k < unit.target.crate_types.len()
        invariant
            k <= unit.target.crate_types@.len(),
            views(types@) =~= texts(unit.target.crate_types@).take(k as int),
        decreases unit.target.crate_types@.len() - k,
    {
        let ghost shorter = views(types@);
        types.push(unit.target.crate_types[k].as_str());
        assert(views(types@) =~= shorter.push(unit.target.crate_types@[k as int]@));
        k = k + 1;
    }
    assert(texts(unit.target.crate_types@).take(k as int) =~= texts(unit.target.crate_types@));
    add_long(&mut args, "--crate-type", join_texts(&types, ",").as_str());
    proof {
        assert(texts(args@) =~= survey_args(*unit, name));
        assert(texts(args@)[2] == args@[2]@);
        assert(args@.len() == texts(args@).len());
    }
    Ok(args)
}

} // verus!
