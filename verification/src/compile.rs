//! Derivations that compile a crate.
use std::collections::{BTreeSet, VecDeque};

use crate::derivation::{
    output_map, ContentAddressMethod, Derivation, DerivationOutput, DerivedPath, Input, InputSet,
    OutputName, Recipe,
};
use crate::order::contains_unit;
use crate::package::{Package, UnitSource};
use crate::path::{below, join, joined, parent_of, strip_base};
use crate::text::{decimal, decimal_string, hex_string, hexadecimal, replace_char, replaced};
use crate::tools::Tools;
use crate::unit_drv::{
    add_codegen, add_feature, add_long, codegen_args, dep_cache, deps_cached, feature_args,
    is_cached, join_text, joined_text, long_arg, push_back_arg, push_front_arg, split_builder,
    unit_env, unit_environment, DrvError, OwnOutputs, SourceTree, UnitCache, UnitCacheMeta,
    SCRIPT_IMMEDIATE_ARGS, SCRIPT_IMMEDIATE_ENV, SCRIPT_TRANSITIVE_ARGS,
};
use crate::unit_graph::{CompileMode, Unit};
use crate::util::{all_contents, bytes_from_string, bytes_from_vec, text_bytes, CloneBytes};
use bytes::Bytes;
use vstd::prelude::*;
use vstd::utf8::encode_utf8;

verus! {

/// The crate is a Rust library.
pub open spec fn is_lib(crate_type: Seq<char>) -> bool {
    crate_type == "lib"@ || crate_type == "rlib"@
}

/// What the compiler is told to write.
pub open spec fn emit_args(mode: CompileMode, crate_type: Seq<char>) -> Seq<Seq<u8>> {
    if mode == CompileMode::Check {
        seq![long_arg("emit"@, "metadata"@)]
    } else if mode == CompileMode::Build {
        if is_lib(crate_type) {
            seq![long_arg("emit"@, "metadata,link"@)]
        } else {
            seq![long_arg("emit"@, "link"@)]
        }
    } else {
        Seq::empty()
    }
}

/// What sets the file name of a library apart from others of the same crate name.
pub open spec fn file_suffix(dep_hash: u64) -> Seq<char> {
    "-"@ + hexadecimal(dep_hash as nat, 16)
}

/// The arguments that depend on nothing but the unit itself.
pub open spec fn own_args(own: OwnOutputs, unit: Unit, dep_hash: u64) -> Seq<Seq<u8>> {
    let crate_type = unit.target.crate_types@[0]@;
    seq![
        long_arg("out-dir"@, own.out@),
        long_arg("crate-name"@, replaced(unit.target.name@, '-', '_')),
        long_arg("edition"@, unit.target.edition@),
        long_arg("crate-type"@, crate_type),
    ] + emit_args(unit.mode, crate_type) + codegen_args(
        "debuginfo"@,
        decimal(unit.profile.debuginfo as nat),
    ) + codegen_args("opt-level"@, unit.profile.opt_level@) + codegen_args(
        "metadata"@,
        hexadecimal(dep_hash as nat, 16),
    ) + if crate_type == "lib"@ {
        codegen_args("extra-filename"@, file_suffix(dep_hash))
    } else {
        Seq::empty()
    }
}

/// The arguments that switch on the first `n` features.
pub open spec fn all_feature_args(features: Seq<String>, n: int) -> Seq<Seq<u8>>
    decreases n,
{
    if n <= 0 {
        Seq::empty()
    } else {
        all_feature_args(features, n - 1) + feature_args(features[n - 1]@)
    }
}

/// The arguments for one unit that is depended on, directly or not: where its library is, and the
/// flags that its build script asked for.
pub open spec fn search_args(dep: UnitCache) -> Seq<Seq<u8>> {
    seq![encode_utf8("-L"@), encode_utf8("dependency="@ + dep.out@)]
        + if dep.meta.custom_output {
        seq![encode_utf8("@"@ + joined_text(dep.flags@, SCRIPT_TRANSITIVE_ARGS@))]
    } else {
        Seq::empty()
    }
}

/// The arguments for the units below `n` that are depended on, in ascending order.
pub open spec fn all_search_args(cache: Seq<Option<UnitCache>>, deps: Set<usize>, n: int) -> Seq<
    Seq<u8>,
>
    decreases n,
{
    if n <= 0 {
        Seq::empty()
    } else if deps.contains((n - 1) as usize) {
        all_search_args(cache, deps, n - 1) + search_args(cache[n - 1]->0)
    } else {
        all_search_args(cache, deps, n - 1)
    }
}

/// The file that a library which is depended on is read from.
pub open spec fn library_file(out: Seq<char>, base_name: Seq<char>, crate_type: Seq<char>) -> Seq<
    char,
> {
    out + "/"@ + base_name + "."@ + if is_lib(crate_type) {
        "rmeta"@
    } else {
        "rlib"@
    }
}

/// The arguments for one unit that is depended on directly: which crate name stands for which
/// library, and the flags that a build script of the same package asked for.
pub open spec fn link_args(name: Seq<char>, dep: UnitCache, crate_type: Seq<char>) -> Seq<Seq<u8>> {
    (match dep.meta.base_name {
        Some(base_name) => seq![
            encode_utf8("--extern"@),
            encode_utf8(name + "="@ + library_file(dep.out@, base_name@, crate_type)),
        ],
        None => Seq::empty(),
    }) + if dep.meta.custom_output {
        seq![encode_utf8("@"@ + joined_text(dep.flags@, SCRIPT_IMMEDIATE_ARGS@))]
    } else {
        Seq::empty()
    }
}

/// The arguments for the first `n` units that are depended on directly.
pub open spec fn all_link_args(unit: Unit, cache: Seq<Option<UnitCache>>, n: int) -> Seq<Seq<u8>>
    decreases n,
{
    if n <= 0 {
        Seq::empty()
    } else {
        all_link_args(unit, cache, n - 1) + link_args(
            unit.dependencies@[n - 1].extern_crate_name@,
            dep_cache(unit, cache, n - 1),
            unit.target.crate_types@[0]@,
        )
    }
}

/// What is put before the compiler: one wrapper for each build script among the first `n` units
/// that are depended on directly, the last outermost.
pub open spec fn wrapper_args(
    unit: Unit,
    cache: Seq<Option<UnitCache>>,
    env_wrap: Seq<u8>,
    n: int,
) -> Seq<Seq<u8>>
    decreases n,
{
    if n <= 0 {
        Seq::empty()
    } else {
        let dep = dep_cache(unit, cache, n - 1);
        let inner = wrapper_args(unit, cache, env_wrap, n - 1);
        if dep.meta.custom_output {
            seq![
                env_wrap,
                encode_utf8(joined_text(dep.flags@, SCRIPT_IMMEDIATE_ENV@)),
                encode_utf8("--"@),
            ] + inner
        } else {
            inner
        }
    }
}

/// The whole command line that compiles a crate.
pub open spec fn compile_command(
    tools: Tools,
    own: OwnOutputs,
    unit: Unit,
    cache: Seq<Option<UnitCache>>,
    deps: Set<usize>,
    main_file: Seq<u8>,
    dep_hash: u64,
) -> Seq<Seq<u8>> {
    let n = unit.dependencies@.len() as int;
    wrapper_args(unit, cache, tools.env_wrap.real_path@, n) + (seq![
        tools.rustc.real_path@,
        main_file,
    ] + own_args(own, unit, dep_hash) + all_feature_args(
        unit.features@,
        unit.features@.len() as int,
    ) + all_search_args(cache, deps, cache.len() as int)) + all_link_args(unit, cache, n)
}

/// A unit that is depended on brings this input: its output, and its flags if it has any.
pub open spec fn brings(dep: UnitCache, i: Input) -> bool {
    ||| i == Input::Built(dep.drv_path@, OutputName::Out)
    ||| dep.meta.custom_output && i == Input::Built(dep.drv_path@, OutputName::Flags)
}

/// The unit depends directly on the run of a build script.
pub open spec fn has_script(unit: Unit, cache: Seq<Option<UnitCache>>) -> bool {
    exists|d: int|
        0 <= d < unit.dependencies@.len() && (#[trigger] dep_cache(
            unit,
            cache,
            d,
        )).meta.custom_output
}

/// What compiling a crate needs: the compilers, the source, what the units that it depends on
/// bring, and the wrapper if there is a build script.
pub open spec fn compile_input(
    tools: Tools,
    src: SourceTree,
    unit: Unit,
    cache: Seq<Option<UnitCache>>,
    deps: Set<usize>,
    i: Input,
) -> bool {
    ||| i == Input::Opaque(tools.rustc.store_path@)
    ||| i == Input::Opaque(tools.target_cc.store_path@)
    ||| i == Input::Opaque(src.store_path@)
    ||| exists|t: usize| #[trigger] deps.contains(t) && brings(cache[t as int]->0, i)
    ||| has_script(unit, cache) && i == Input::Opaque(tools.env_wrap.store_path@)
}

/// The environment with `OUT_DIR` set to the output of the last build script among the first `n`
/// units that are depended on directly.
pub open spec fn with_out_dir(
    env: Map<Seq<u8>, Seq<u8>>,
    unit: Unit,
    cache: Seq<Option<UnitCache>>,
    n: int,
) -> Map<Seq<u8>, Seq<u8>>
    decreases n,
{
    if n <= 0 {
        env
    } else {
        let before = with_out_dir(env, unit, cache, n - 1);
        let dep = dep_cache(unit, cache, n - 1);
        if dep.meta.custom_output {
            before.insert(encode_utf8("OUT_DIR"@), encode_utf8(dep.out@))
        } else {
            before
        }
    }
}

/// The crate's main file inside its source in the store.
pub open spec fn main_file(unit: Unit, crate_root: Seq<char>, src: Seq<u8>) -> Option<Seq<u8>> {
    match below(unit.target.src_path@, encode_utf8(crate_root)) {
        Some(rest) => Some(joined(src, rest)),
        None => None,
    }
}

/// The derivation that compiles a crate.
pub open spec fn compile_recipe(
    tools: Tools,
    own: OwnOutputs,
    unit: Unit,
    cache: Seq<Option<UnitCache>>,
    deps: Set<usize>,
    package: Package,
    source: UnitSource,
    src: SourceTree,
    dep_hash: u64,
) -> Recipe {
    let command = compile_command(
        tools,
        own,
        unit,
        cache,
        deps,
        main_file(unit, source.crate_root@, src.absolute_path@)->0,
        dep_hash,
    );
    Recipe {
        name: source.drv_name@,
        outputs: Map::<OutputName, ContentAddressMethod>::empty().insert(
            OutputName::Out,
            ContentAddressMethod::NixArchive,
        ),
        inputs: Set::new(|i: Input| compile_input(tools, src, unit, cache, deps, i)),
        platform: encode_utf8("x86_64-linux"@),
        builder: command[0],
        args: command.drop_first(),
        env: with_out_dir(
            unit_env(tools.rustc.real_path@, package, src.absolute_path@),
            unit,
            cache,
            unit.dependencies@.len() as int,
        ),
    }
}

/// What later units need to know of a crate: the file name of the library, if it is one.
pub open spec fn compile_base_name(unit: Unit, dep_hash: u64) -> Option<Seq<char>> {
    if unit.target.crate_types@[0]@ == "lib"@ {
        Some("lib"@ + unit.target.name@ + file_suffix(dep_hash))
    } else {
        None
    }
}

/// The text of an optional string.
pub open spec fn optional_text(s: Option<String>) -> Option<Seq<char>> {
    match s {
        Some(s) => Some(s@),
        None => None,
    }
}

/// What comes of compiling a crate: a derivation, unless the crate has not exactly one type, or
/// its main file is not below the directory of its manifest.
pub open spec fn compile_outcome(
    tools: Tools,
    own: OwnOutputs,
    unit: Unit,
    cache: Seq<Option<UnitCache>>,
    deps: Set<usize>,
    package: Package,
    source: UnitSource,
    src: SourceTree,
    dep_hash: u64,
    r: Result<(Derivation, UnitCacheMeta), DrvError>,
) -> bool {
    let one_type = unit.target.crate_types@.len() == 1;
    let inside = main_file(unit, source.crate_root@, src.absolute_path@) is Some;
    match r {
        Ok((drv, meta)) => {
            &&& one_type
            &&& inside
            &&& drv.wf()
            &&& drv@ == compile_recipe(
                tools,
                own,
                unit,
                cache,
                deps,
                package,
                source,
                src,
                dep_hash,
            )
            &&& optional_text(meta.base_name) == compile_base_name(unit, dep_hash)
            &&& !meta.custom_output
            &&& !meta.has_links
        },
        Err(DrvError::UnexpectedCrateTypes) => !one_type,
        Err(DrvError::OutsideCrateRoot) => one_type && !inside,
        Err(_) => false,
    }
}

fn lib_crate(crate_type: &String) -> (r: bool)
    ensures
        r == is_lib(crate_type@),
{
    *crate_type == "lib".to_owned() || *crate_type == "rlib".to_owned()
}

/// Adds the arguments that depend on nothing but the unit itself.
fn add_own_args(args: &mut VecDeque<Bytes>, own: &OwnOutputs, unit: &Unit, dep_hash: u64)
    requires
        unit.target.crate_types@.len() == 1,
    ensures
        all_contents(final(args)@) == all_contents(old(args)@) + own_args(*own, *unit, dep_hash),
{
    let ghost start = all_contents(args@);
    let crate_type = &unit.target.crate_types[0];
    proof {
        reveal_strlit("_");
    }
    add_long(args, "out-dir", own.out.path.as_str());
    add_long(
        args,
        "crate-name",
        replace_char(unit.target.name.as_str(), '-', "_").as_str(),
    );
    add_long(args, "edition", unit.target.edition.as_str());
    add_long(args, "crate-type", crate_type.as_str());
    let ghost head = seq![
        long_arg("out-dir"@, own.out@),
        long_arg("crate-name"@, replaced(unit.target.name@, '-', '_')),
        long_arg("edition"@, unit.target.edition@),
        long_arg("crate-type"@, crate_type@),
    ];
    assert(all_contents(args@) =~= start + head);
    if unit.mode == CompileMode::Check {
        add_long(args, "emit", "metadata");
    } else if unit.mode == CompileMode::Build {
        if lib_crate(crate_type) {
            add_long(args, "emit", "metadata,link");
        } else {
            add_long(args, "emit", "link");
        }
    }
    let ghost emit = emit_args(unit.mode, crate_type@);
    assert(all_contents(args@) =~= start + (head + emit));
    add_codegen(args, "debuginfo", decimal_string(unit.profile.debuginfo as u64).as_str());
    add_codegen(args, "opt-level", unit.profile.opt_level.as_str());
    let hash = hex_string(dep_hash, 16);
    add_codegen(args, "metadata", hash.as_str());
    if *crate_type == "lib".to_owned() {
        let suffix = "-".to_owned().concat(hash.as_str());
        add_codegen(args, "extra-filename", suffix.as_str());
    }
    assert(all_contents(args@) =~= start + own_args(*own, *unit, dep_hash));
}

/// Adds the arguments that switch on the unit's features.
fn add_features(args: &mut VecDeque<Bytes>, features: &Vec<String>)
    ensures
        all_contents(final(args)@) == all_contents(old(args)@) + all_feature_args(
            features@,
            features@.len() as int,
        ),
{
    let ghost start = all_contents(args@);
    let mut n: usize = 0;
    assert(start =~= start + all_feature_args(features@, 0));
    while n < features.len()
        invariant
            n <= features@.len(),
            all_contents(args@) == start + all_feature_args(features@, n as int),
        decreases features@.len() - n,
    {
        add_feature(args, features[n].as_str());
        n = n + 1;
        assert(all_contents(args@) =~= start + all_feature_args(features@, n as int));
    }
}

/// Adds the arguments and the inputs for one unit that is depended on.
fn add_search(args: &mut VecDeque<Bytes>, inputs: &mut InputSet, dep: &UnitCache)
    requires
        old(inputs).wf(),
    ensures
        all_contents(final(args)@) == all_contents(old(args)@) + search_args(*dep),
        final(inputs).wf(),
        forall|i: Input| #[trigger]
            final(inputs)@.contains(i) <==> old(inputs)@.contains(i) || brings(*dep, i),
{
    let ghost start = all_contents(args@);
    inputs.insert(
        DerivedPath::Built { drv_path: dep.drv_path.clone(), output: OutputName::Out },
    );
    push_back_arg(args, text_bytes("-L"));
    push_back_arg(
        args,
        bytes_from_string("dependency=".to_owned().concat(dep.out.path.as_str())),
    );
    if dep.meta.custom_output {
        inputs.insert(
            DerivedPath::Built { drv_path: dep.drv_path.clone(), output: OutputName::Flags },
        );
        let file = join_text(dep.flags.path.as_str(), SCRIPT_TRANSITIVE_ARGS);
        push_back_arg(args, bytes_from_string("@".to_owned().concat(file.as_str())));
    }
    assert(all_contents(args@) =~= start + search_args(*dep));
}

/// Adds the arguments for one unit that is depended on directly.
fn add_link(args: &mut VecDeque<Bytes>, name: &str, dep: &UnitCache, crate_type: &String)
    ensures
        all_contents(final(args)@) == all_contents(old(args)@) + link_args(
            name@,
            *dep,
            crate_type@,
        ),
{
    let ghost start = all_contents(args@);
    match &dep.meta.base_name {
        Some(base_name) => {
            push_back_arg(args, text_bytes("--extern"));
            let extension = if lib_crate(crate_type) {
                "rmeta"
            } else {
                "rlib"
            };
            let file = dep.out.path.clone().concat("/").concat(base_name.as_str()).concat(
                ".",
            ).concat(extension);
            assert(file@ =~= library_file(dep.out@, base_name@, crate_type@));
            push_back_arg(
                args,
                bytes_from_string(name.to_owned().concat("=").concat(file.as_str())),
            );
        },
        None => {},
    }
    if dep.meta.custom_output {
        let file = join_text(dep.flags.path.as_str(), SCRIPT_IMMEDIATE_ARGS);
        push_back_arg(args, bytes_from_string("@".to_owned().concat(file.as_str())));
    }
    assert(all_contents(args@) =~= start + link_args(name@, *dep, crate_type@));
}

/// The derivation that compiles the crate of a unit, and what later units need to know of it.
///
/// `deps` holds the units that it depends on, directly or not. `dep_hash` sets the crate apart
/// from others of its name.
pub fn compile_derivation(
    tools: &Tools,
    own: &OwnOutputs,
    unit: &Unit,
    cache: &Vec<Option<UnitCache>>,
    deps: &BTreeSet<usize>,
    package: &Package,
    source: &UnitSource,
    src: &SourceTree,
    dep_hash: u64,
) -> (r: Result<(Derivation, UnitCacheMeta), DrvError>)
    requires
        parent_of(tools.rustc.real_path@) is Some,
        deps_cached(*unit, cache@),
        forall|t: usize| #[trigger] deps@.contains(t) ==> is_cached(cache@, t),
    ensures
        compile_outcome(
            *tools,
            *own,
            *unit,
            cache@,
            deps@,
            *package,
            *source,
            *src,
            dep_hash,
            r,
        ),
{
    if unit.target.crate_types.len() != 1 {
        return Err(DrvError::UnexpectedCrateTypes);
    }
    let crate_type = &unit.target.crate_types[0];
    let mut env = unit_environment(tools, package, &src.absolute_path);
    let mut inputs = InputSet::new();
    inputs.insert(DerivedPath::Opaque(tools.rustc.store_path.clone()));
    inputs.insert(DerivedPath::Opaque(tools.target_cc.store_path.clone()));
    inputs.insert(DerivedPath::Opaque(src.store_path.clone()));

    let mut args: VecDeque<Bytes> = VecDeque::new();
    push_back_arg(&mut args, tools.rustc.real_path.clone_bytes());
    let main = match strip_base(
        unit.target.src_path.bytes.as_slice(),
        source.crate_root.as_str().as_bytes(),
    ) {
        Some(rest) => join(src.absolute_path.bytes.as_slice(), rest.as_slice()),
        None => {
            return Err(DrvError::OutsideCrateRoot);
        },
    };
    let ghost file = main@;
    assert(Some(file) == main_file(*unit, source.crate_root@, src.absolute_path@));
    push_back_arg(&mut args, bytes_from_vec(main));
    let ghost head = seq![tools.rustc.real_path@, file];
    assert(all_contents(args@) =~= head);
    add_own_args(&mut args, own, unit, dep_hash);
    add_features(&mut args, &unit.features);
    let ghost start = head + own_args(*own, *unit, dep_hash) + all_feature_args(
        unit.features@,
        unit.features@.len() as int,
    );
    assert(all_contents(args@) =~= start);

    let ghost fixed = inputs@;
    let mut t: usize = 0;
    assert(start =~= start + all_search_args(cache@, deps@, 0));
    while t < cache.len()
        invariant
            t <= cache@.len(),
            forall|t: usize| #[trigger] deps@.contains(t) ==> is_cached(cache@, t),
            inputs.wf(),
            all_contents(args@) == start + all_search_args(cache@, deps@, t as int),
            forall|i: Input| #[trigger]
                inputs@.contains(i) <==> fixed.contains(i) || exists|k: usize| #[trigger]
                    deps@.contains(k) && k < t && brings(cache@[k as int]->0, i),
        decreases cache@.len() - t,
    {
        let ghost before = inputs@;
        if contains_unit(deps, t) {
            match &cache[t] {
                Some(dep) => {
                    add_search(&mut args, &mut inputs, dep);
                },
                None => {},
            }
        }
        proof {
            assert forall|i: Input| #[trigger] inputs@.contains(i) <==> fixed.contains(i) || exists|
                k: usize,
            | #[trigger] deps@.contains(k) && k < t + 1 && brings(cache@[k as int]->0, i) by {
                if before.contains(i) && !fixed.contains(i) {
                    let k = choose|k: usize| #[trigger]
                        deps@.contains(k) && k < t && brings(cache@[k as int]->0, i);
                    assert(deps@.contains(k) && k < t + 1);
                }
                if exists|k: usize| #[trigger]
                    deps@.contains(k) && k < t + 1 && brings(cache@[k as int]->0, i) {
                    let k = choose|k: usize| #[trigger]
                        deps@.contains(k) && k < t + 1 && brings(cache@[k as int]->0, i);
                    if k < t {
                        assert(deps@.contains(k) && k < t);
                        assert(before.contains(i));
                    }
                }
            }
        }
        t = t + 1;
        assert(all_contents(args@) =~= start + all_search_args(cache@, deps@, t as int));
    }
    let ghost core = start + all_search_args(cache@, deps@, cache@.len() as int);
    let ghost with_deps = inputs@;
    let ghost base = env@;

    let ghost wrap = tools.env_wrap.real_path@;
    let mut n: usize = 0;
    assert(core =~= wrapper_args(*unit, cache@, wrap, 0) + core + all_link_args(*unit, cache@, 0));
    while n < unit.dependencies.len()
        invariant
            n <= unit.dependencies@.len(),
            unit.target.crate_types@.len() == 1,
            *crate_type == unit.target.crate_types@[0],
            deps_cached(*unit, cache@),
            wrap == tools.env_wrap.real_path@,
            inputs.wf(),
            env.wf(),
            all_contents(args@) == wrapper_args(*unit, cache@, wrap, n as int) + core
                + all_link_args(*unit, cache@, n as int),
            env@ == with_out_dir(base, *unit, cache@, n as int),
            forall|i: Input| #[trigger]
                inputs@.contains(i) <==> with_deps.contains(i) || (i == Input::Opaque(
                    tools.env_wrap.store_path@,
                ) && exists|d: int|
                    0 <= d < n && (#[trigger] dep_cache(*unit, cache@, d)).meta.custom_output),
        decreases unit.dependencies@.len() - n,
    {
        let direct = &unit.dependencies[n];
        assert(is_cached(cache@, unit.dependencies@[n as int].index));
        let ghost before = inputs@;
        let ghost outer = wrapper_args(*unit, cache@, wrap, n as int);
        let ghost links = all_link_args(*unit, cache@, n as int);
        match &cache[direct.index] {
            Some(dep) => {
                assert(*dep == dep_cache(*unit, cache@, n as int));
                add_link(&mut args, direct.extern_crate_name.as_str(), dep, crate_type);
                let ghost more = link_args(
                    direct.extern_crate_name@,
                    *dep,
                    unit.target.crate_types@[0]@,
                );
                if dep.meta.custom_output {
                    inputs.insert(DerivedPath::Opaque(tools.env_wrap.store_path.clone()));
                    env.insert(text_bytes("OUT_DIR"), text_bytes(dep.out.path.as_str()));
                    push_front_arg(&mut args, text_bytes("--"));
                    let file = join_text(dep.flags.path.as_str(), SCRIPT_IMMEDIATE_ENV);
                    push_front_arg(&mut args, bytes_from_string(file));
                    push_front_arg(&mut args, tools.env_wrap.real_path.clone_bytes());
                }
                proof {
                    assert(all_link_args(*unit, cache@, n + 1) == links + more);
                    assert(all_contents(args@) =~= wrapper_args(*unit, cache@, wrap, n + 1) + core
                        + (links + more));
                    assert forall|i: Input| #[trigger]
                        inputs@.contains(i) <==> with_deps.contains(i) || (i == Input::Opaque(
                            tools.env_wrap.store_path@,
                        ) && exists|d: int|
                            0 <= d < n + 1 && (#[trigger] dep_cache(
                                *unit,
                                cache@,
                                d,
                            )).meta.custom_output) by {
                        if before.contains(i) && !with_deps.contains(i) {
                            let d = choose|d: int|
                                0 <= d < n && (#[trigger] dep_cache(
                                    *unit,
                                    cache@,
                                    d,
                                )).meta.custom_output;
                            assert(0 <= d < n + 1 && dep_cache(
                                *unit,
                                cache@,
                                d,
                            ).meta.custom_output);
                        }
                        if exists|d: int|
                            0 <= d < n + 1 && (#[trigger] dep_cache(
                                *unit,
                                cache@,
                                d,
                            )).meta.custom_output {
                            let d = choose|d: int|
                                0 <= d < n + 1 && (#[trigger] dep_cache(
                                    *unit,
                                    cache@,
                                    d,
                                )).meta.custom_output;
                            if d < n {
                                assert(0 <= d < n && dep_cache(
                                    *unit,
                                    cache@,
                                    d,
                                ).meta.custom_output);
                            }
                        }
                    }
                }
            },
            None => {},
        }
        n = n + 1;
    }
    let ghost command = compile_command(*tools, *own, *unit, cache@, deps@, file, dep_hash);
    assert(all_contents(args@) =~= command);
    let base_name = if *crate_type == "lib".to_owned() {
        Some(
            "lib".to_owned().concat(unit.target.name.as_str()).concat("-").concat(
                hex_string(dep_hash, 16).as_str(),
            ),
        )
    } else {
        None
    };
    proof {
        assert(optional_text(base_name) =~= compile_base_name(*unit, dep_hash)) by {
            if base_name is Some {
                assert(base_name->0@ =~= compile_base_name(*unit, dep_hash)->0);
            }
        }
        assert(args@.len() == all_contents(args@).len());
    }
    let (builder, rest) = split_builder(args);
    let mut outputs: Vec<DerivationOutput> = Vec::new();
    outputs.push(
        DerivationOutput { name: OutputName::Out, method: ContentAddressMethod::NixArchive },
    );
    let drv = Derivation {
        name: source.drv_name.clone(),
        outputs,
        inputs,
        platform: text_bytes("x86_64-linux"),
        builder,
        args: rest,
        env,
    };
    proof {
        reveal_with_fuel(output_map, 2);
        let recipe = compile_recipe(
            *tools,
            *own,
            *unit,
            cache@,
            deps@,
            *package,
            *source,
            *src,
            dep_hash,
        );
        assert(drv@.outputs =~= recipe.outputs);
        assert forall|i: Input| drv@.inputs.contains(i) <==> recipe.inputs.contains(i) by {
            if with_deps.contains(i) && !fixed.contains(i) {
                let k = choose|k: usize| #[trigger]
                    deps@.contains(k) && k < cache@.len() && brings(cache@[k as int]->0, i);
                assert(deps@.contains(k) && brings(cache@[k as int]->0, i));
            }
            if exists|t: usize| #[trigger] deps@.contains(t) && brings(cache@[t as int]->0, i) {
                let t = choose|t: usize| #[trigger]
                    deps@.contains(t) && brings(cache@[t as int]->0, i);
                assert(is_cached(cache@, t));
                assert(deps@.contains(t) && t < cache@.len() && brings(cache@[t as int]->0, i));
                assert(with_deps.contains(i));
            }
        }
        assert(drv@.inputs =~= recipe.inputs);
    }
    Ok((drv, UnitCacheMeta { base_name, custom_output: false, has_links: false }))
}

} // verus!
