//! Derivations that run a build script.
use std::collections::VecDeque;

use crate::derivation::{
    output_map, ContentAddressMethod, Derivation, DerivationOutput, DerivedPath, EnvMap, Input,
    InputSet, OutputName, Recipe, StorePath,
};
use crate::package::{Package, UnitSource};
use crate::path::{copy_bytes, parent_of, UnixPath};
use crate::text::{constant_case, constant_name};
use crate::tools::Tools;
use crate::unit_drv::{
    dep_cache, deps_cached, is_cached, join_text, joined_text, push_back_arg, push_front_arg,
    split_builder, unit_env, unit_environment, DrvError, OwnOutputs, SourceTree, UnitCache,
    UnitCacheMeta, SCRIPT_METADATA_ENV,
};
use crate::unit_graph::{CompileMode, Unit};
use crate::util::{
    all_contents, bytes_as_slice, bytes_from_string, bytes_from_vec, text_bytes, CloneBytes,
};
use bytes::Bytes;
use vstd::prelude::*;
use vstd::utf8::encode_utf8;

verus! {

/// A store path that a build script needs beyond its package's own: as it was written, and the
/// store object if it names one.
#[derive(Debug)]
pub struct ExtraDep {
    pub text: String,
    pub store_path: Option<StorePath>,
}

/// What a build script needs from outside the unit graph.
#[derive(Debug)]
pub struct ExternConfig {
    pub extra_deps: Vec<ExtraDep>,
    pub extra_env: Vec<(String, String)>,
    pub extra_path: Vec<String>,
}

/// The file that holds the configuration, unless the environment names another.
pub const DEFAULT_CONFIG: &'static str = "extern.json";

/// Decides which file holds the configuration: the one that the environment names, or else one in
/// the current directory.
pub fn config_path(variable: Option<UnixPath>) -> (r: UnixPath)
    ensures
        match variable {
            Some(path) => r == path,
            None => r@ == encode_utf8(DEFAULT_CONFIG@),
        },
{
    match variable {
        Some(path) => path,
        None => UnixPath { bytes: copy_bytes(DEFAULT_CONFIG.as_bytes()) },
    }
}

/// All units that a unit depends on are in the graph.
pub open spec fn deps_exist(unit: Unit, units: Seq<Unit>) -> bool {
    forall|d: int|
        0 <= d < unit.dependencies@.len() ==> (#[trigger] unit.dependencies@[d]).index
            < units.len()
}

/// The unit that is depended on compiles something: for a build script's run, the script.
pub open spec fn is_script(unit: Unit, units: Seq<Unit>, d: int) -> bool {
    units[unit.dependencies@[d].index as int].mode == CompileMode::Build
}

/// The unit that is depended on is the run of another build script, with metadata to pass on.
pub open spec fn has_metadata(
    unit: Unit,
    units: Seq<Unit>,
    cache: Seq<Option<UnitCache>>,
    d: int,
) -> bool {
    !is_script(unit, units, d) && dep_cache(unit, cache, d).meta.has_links
}

/// The script among the first `n` units that are depended on; the last counts.
pub open spec fn script_dep(unit: Unit, units: Seq<Unit>, n: int) -> Option<int>
    decreases n,
{
    if n <= 0 {
        None
    } else if is_script(unit, units, n - 1) {
        Some(n - 1)
    } else {
        script_dep(unit, units, n - 1)
    }
}

/// The metadata files among the first `n` units that are depended on, the last first.
pub open spec fn metadata_files(
    unit: Unit,
    units: Seq<Unit>,
    cache: Seq<Option<UnitCache>>,
    n: int,
) -> Seq<Seq<u8>>
    decreases n,
{
    if n <= 0 {
        Seq::empty()
    } else {
        let before = metadata_files(unit, units, cache, n - 1);
        if has_metadata(unit, units, cache, n - 1) {
            seq![
                encode_utf8(
                    joined_text(dep_cache(unit, cache, n - 1).flags@, SCRIPT_METADATA_ENV@),
                ),
            ] + before
        } else {
            before
        }
    }
}

/// The native library that a package links to, or nothing.
pub open spec fn links_text(package: Package) -> Seq<char> {
    match package.links {
        Some(links) => links@,
        None => ""@,
    }
}

/// The whole command line that runs a build script: the script under the wrapper that collects
/// its flags, and that under the one that reads metadata if there is any.
pub open spec fn script_command(
    tools: Tools,
    own: OwnOutputs,
    unit: Unit,
    units: Seq<Unit>,
    cache: Seq<Option<UnitCache>>,
    package: Package,
    src: Seq<u8>,
) -> Seq<Seq<u8>> {
    let n = unit.dependencies@.len() as int;
    let files = metadata_files(unit, units, cache, n);
    let script = script_dep(unit, units, n)->0;
    (if files.len() > 0 {
        seq![tools.env_wrap.real_path@] + files + seq![encode_utf8("--"@)]
    } else {
        Seq::empty()
    }) + seq![
        tools.build_wrap.real_path@,
        src,
        encode_utf8(links_text(package)),
        encode_utf8(own.flags@),
        encode_utf8(own.out@),
        encode_utf8(
            joined_text(
                dep_cache(unit, cache, script).out@,
                unit.dependencies@[script].extern_crate_name@,
            ),
        ),
    ]
}

/// The unit depends on a build script's run that has metadata to pass on.
pub open spec fn any_metadata(unit: Unit, units: Seq<Unit>, cache: Seq<Option<UnitCache>>) -> bool {
    exists|d: int|
        0 <= d < unit.dependencies@.len() && #[trigger] has_metadata(unit, units, cache, d)
}

/// An input that the package's configuration adds.
pub open spec fn extra_input(config: Option<ExternConfig>, i: Input) -> bool {
    config matches Some(config) && exists|k: int|
        0 <= k < config.extra_deps@.len() && i == Input::Opaque(
            (#[trigger] config.extra_deps@[k]).store_path->0@,
        )
}

/// What running a build script needs: the compilers, the source, the wrappers, the script, the
/// metadata of other build scripts, and what the configuration adds.
pub open spec fn script_input(
    tools: Tools,
    src: SourceTree,
    unit: Unit,
    units: Seq<Unit>,
    cache: Seq<Option<UnitCache>>,
    config: Option<ExternConfig>,
    i: Input,
) -> bool {
    let script = script_dep(unit, units, unit.dependencies@.len() as int)->0;
    ||| i == Input::Opaque(tools.rustc.store_path@)
    ||| i == Input::Opaque(tools.target_cc.store_path@)
    ||| i == Input::Opaque(src.store_path@)
    ||| i == Input::Opaque(tools.build_wrap.store_path@)
    ||| i == Input::Built(dep_cache(unit, cache, script).drv_path@, OutputName::Out)
    ||| exists|d: int|
        0 <= d < unit.dependencies@.len() && (#[trigger] has_metadata(unit, units, cache, d)) && i
            == Input::Built(dep_cache(unit, cache, d).drv_path@, OutputName::Flags)
    ||| any_metadata(unit, units, cache) && i == Input::Opaque(tools.env_wrap.store_path@)
    ||| extra_input(config, i)
}

/// The environment with the first `n` of the extra variables set.
pub open spec fn with_variables(
    env: Map<Seq<u8>, Seq<u8>>,
    vars: Seq<(String, String)>,
    n: int,
) -> Map<Seq<u8>, Seq<u8>>
    decreases n,
{
    if n <= 0 {
        env
    } else {
        with_variables(env, vars, n - 1).insert(
            encode_utf8(vars[n - 1].0@),
            encode_utf8(vars[n - 1].1@),
        )
    }
}

/// A search path with the first `n` of the extra directories at its end.
pub open spec fn longer_path(path: Seq<u8>, extra: Seq<String>, n: int) -> Seq<u8>
    decreases n,
{
    if n <= 0 {
        path
    } else {
        longer_path(path, extra, n - 1) + encode_utf8(":"@) + encode_utf8(extra[n - 1]@)
    }
}

/// The environment with what the package's configuration adds: variables first, then directories
/// to search for programs.
pub open spec fn with_config(env: Map<Seq<u8>, Seq<u8>>, config: Option<ExternConfig>) -> Map<
    Seq<u8>,
    Seq<u8>,
> {
    match config {
        Some(config) => {
            let vars = with_variables(env, config.extra_env@, config.extra_env@.len() as int);
            let path = encode_utf8("PATH"@);
            vars.insert(
                path,
                longer_path(vars[path], config.extra_path@, config.extra_path@.len() as int),
            )
        },
        None => env,
    }
}

/// The variable that tells a build script that a feature is on.
pub open spec fn feature_variable(feature: Seq<char>) -> Seq<u8> {
    encode_utf8("CARGO_FEATURE_"@ + constant_case(feature))
}

/// The environment with a variable for each of the first `n` features.
pub open spec fn with_features(
    env: Map<Seq<u8>, Seq<u8>>,
    features: Seq<String>,
    n: int,
) -> Map<Seq<u8>, Seq<u8>>
    decreases n,
{
    if n <= 0 {
        env
    } else {
        with_features(env, features, n - 1).insert(
            feature_variable(features[n - 1]@),
            encode_utf8(""@),
        )
    }
}

/// The environment that a build script runs in.
pub open spec fn script_env(
    rustc: Seq<u8>,
    package: Package,
    src: Seq<u8>,
    unit: Unit,
    config: Option<ExternConfig>,
) -> Map<Seq<u8>, Seq<u8>> {
    with_features(
        with_config(unit_env(rustc, package, src), config),
        unit.features@,
        unit.features@.len() as int,
    ).insert(encode_utf8("OPT_LEVEL"@), encode_utf8(unit.profile.opt_level@))
}

/// The derivation that runs a build script.
pub open spec fn script_recipe(
    tools: Tools,
    own: OwnOutputs,
    unit: Unit,
    units: Seq<Unit>,
    cache: Seq<Option<UnitCache>>,
    package: Package,
    source: UnitSource,
    src: SourceTree,
    config: Option<ExternConfig>,
) -> Recipe {
    let command = script_command(
        tools,
        own,
        unit,
        units,
        cache,
        package,
        src.absolute_path@,
    );
    Recipe {
        name: source.drv_name@ + "-run"@,
        outputs: Map::<OutputName, ContentAddressMethod>::empty().insert(
            OutputName::Out,
            ContentAddressMethod::NixArchive,
        ).insert(OutputName::Flags, ContentAddressMethod::NixArchive),
        inputs: Set::new(|i: Input| script_input(tools, src, unit, units, cache, config, i)),
        platform: encode_utf8("x86_64-linux"@),
        builder: command[0],
        args: command.drop_first(),
        env: script_env(tools.rustc.real_path@, package, src.absolute_path@, unit, config),
    }
}

/// The first extra dependency that is no store path.
pub open spec fn first_invalid(deps: Seq<ExtraDep>, k: int) -> bool {
    &&& 0 <= k < deps.len()
    &&& deps[k].store_path is None
    &&& forall|j: int| 0 <= j < k ==> (#[trigger] deps[j]).store_path is Some
}

/// All extra dependencies are store paths.
pub open spec fn all_valid(config: Option<ExternConfig>) -> bool {
    config matches Some(config) ==> forall|k: int|
        0 <= k < config.extra_deps@.len() ==> (#[trigger] config.extra_deps@[k]).store_path is Some
}

/// What comes of running a build script: a derivation, unless there is no script to run, or an
/// extra dependency is no store path.
pub open spec fn script_outcome(
    tools: Tools,
    own: OwnOutputs,
    unit: Unit,
    units: Seq<Unit>,
    cache: Seq<Option<UnitCache>>,
    package: Package,
    source: UnitSource,
    src: SourceTree,
    config: Option<ExternConfig>,
    r: Result<(Derivation, UnitCacheMeta), DrvError>,
) -> bool {
    let script = script_dep(unit, units, unit.dependencies@.len() as int);
    match r {
        Ok((drv, meta)) => {
            &&& script is Some
            &&& all_valid(config)
            &&& drv.wf()
            &&& drv@ == script_recipe(
                tools,
                own,
                unit,
                units,
                cache,
                package,
                source,
                src,
                config,
            )
            &&& meta.base_name is None
            &&& meta.custom_output
            &&& meta.has_links == (package.links is Some)
        },
        Err(DrvError::NothingToRun) => script is None,
        Err(DrvError::InvalidExtraDep(k)) => {
            &&& script is Some
            &&& config matches Some(config) && first_invalid(config.extra_deps@, k as int)
        },
        Err(_) => false,
    }
}

/// Adds what the package's configuration asks for to the environment.
fn add_config_env(env: &mut EnvMap, config: &ExternConfig)
    requires
        old(env).wf(),
        old(env)@.contains_key(encode_utf8("PATH"@)),
    ensures
        final(env).wf(),
        final(env)@ == with_config(old(env)@, Some(*config)),
{
    let ghost start = env@;
    let ghost key = encode_utf8("PATH"@);
    let mut n: usize = 0;
    while n < config.extra_env.len()
        invariant
            n <= config.extra_env@.len(),
            env.wf(),
            env@ == with_variables(start, config.extra_env@, n as int),
            env@.contains_key(key),
        decreases config.extra_env@.len() - n,
    {
        let var = &config.extra_env[n];
        env.insert(text_bytes(var.0.as_str()), text_bytes(var.1.as_str()));
        n = n + 1;
    }
    let ghost vars = env@;
    let mut path: Vec<u8> = Vec::new();
    match env.get("PATH".as_bytes()) {
        Some(value) => {
            path.extend_from_slice(bytes_as_slice(value));
        },
        None => {},
    }
    assert(path@ =~= vars[key]);
    let mut k: usize = 0;
    while k < config.extra_path.len()
        invariant
            k <= config.extra_path@.len(),
            path@ == longer_path(vars[key], config.extra_path@, k as int),
        decreases config.extra_path@.len() - k,
    {
        path.extend_from_slice(":".as_bytes());
        path.extend_from_slice(config.extra_path[k].as_str().as_bytes());
        k = k + 1;
        assert(path@ =~= longer_path(vars[key], config.extra_path@, k as int));
    }
    env.insert(text_bytes("PATH"), bytes_from_vec(path));
}

/// Tells the build script which features are on.
fn add_feature_env(env: &mut EnvMap, features: &Vec<String>)
    requires
        old(env).wf(),
    ensures
        final(env).wf(),
        final(env)@ == with_features(old(env)@, features@, features@.len() as int),
{
    let ghost start = env@;
    let mut n: usize = 0;
    while n < features.len()
        invariant
            n <= features@.len(),
            env.wf(),
            env@ == with_features(start, features@, n as int),
        decreases features@.len() - n,
    {
        let name = constant_name(features[n].as_str());
        env.insert(
            bytes_from_string("CARGO_FEATURE_".to_owned().concat(name.as_str())),
            text_bytes(""),
        );
        n = n + 1;
    }
}

/// Adds the configuration's extra dependencies to the inputs, up to the first that is none.
fn add_extra_deps(inputs: &mut InputSet, config: &ExternConfig) -> (r: Result<(), DrvError>)
    requires
        old(inputs).wf(),
    ensures
        final(inputs).wf(),
        match r {
            Ok(()) => {
                &&& all_valid(Some(*config))
                &&& forall|i: Input| #[trigger]
                    final(inputs)@.contains(i) <==> old(inputs)@.contains(i) || extra_input(
                        Some(*config),
                        i,
                    )
            },
            Err(e) => e matches DrvError::InvalidExtraDep(k) && first_invalid(
                config.extra_deps@,
                k as int,
            ),
        },
{
    let ghost start = inputs@;
    let mut n: usize = 0;
    while n < config.extra_deps.len()
        invariant
            n <= config.extra_deps@.len(),
            inputs.wf(),
            forall|j: int| 0 <= j < n ==> (#[trigger] config.extra_deps@[j]).store_path is Some,
            forall|i: Input| #[trigger]
                inputs@.contains(i) <==> start.contains(i) || exists|k: int|
                    0 <= k < n && i == Input::Opaque(
                        (#[trigger] config.extra_deps@[k]).store_path->0@,
                    ),
        decreases config.extra_deps@.len() - n,
    {
        let ghost before = inputs@;
        match &config.extra_deps[n].store_path {
            Some(path) => {
                inputs.insert(DerivedPath::Opaque(path.clone()));
                proof {
                    let new = Input::Opaque(config.extra_deps@[n as int].store_path->0@);
                    assert forall|i: Input| #[trigger]
                        inputs@.contains(i) <==> start.contains(i) || exists|k: int|
                            0 <= k < n + 1 && i == Input::Opaque(
                                (#[trigger] config.extra_deps@[k]).store_path->0@,
                            ) by {
                        if before.contains(i) && !start.contains(i) {
                            let k = choose|k: int|
                                0 <= k < n && i == Input::Opaque(
                                    (#[trigger] config.extra_deps@[k]).store_path->0@,
                                );
                            assert(0 <= k < n + 1 && i == Input::Opaque(
                                config.extra_deps@[k].store_path->0@,
                            ));
                        }
                        if exists|k: int|
                            0 <= k < n + 1 && i == Input::Opaque(
                                (#[trigger] config.extra_deps@[k]).store_path->0@,
                            ) {
                            let k = choose|k: int|
                                0 <= k < n + 1 && i == Input::Opaque(
                                    (#[trigger] config.extra_deps@[k]).store_path->0@,
                                );
                            if k < n {
                                assert(before.contains(i));
                            }
                        }
                    }
                }
            },
            None => {
                return Err(DrvError::InvalidExtraDep(n));
            },
        }
        n = n + 1;
    }
    Ok(())
}

/// The derivation that runs the build script of a unit's package, and what later units need to
/// know of it.
pub fn script_derivation(
    tools: &Tools,
    own: &OwnOutputs,
    unit: &Unit,
    units: &[Unit],
    cache: &Vec<Option<UnitCache>>,
    package: &Package,
    source: &UnitSource,
    src: &SourceTree,
    config: Option<&ExternConfig>,
) -> (r: Result<(Derivation, UnitCacheMeta), DrvError>)
    requires
        parent_of(tools.rustc.real_path@) is Some,
        deps_exist(*unit, units@),
        deps_cached(*unit, cache@),
    ensures
        script_outcome(
            *tools,
            *own,
            *unit,
            units@,
            cache@,
            *package,
            *source,
            *src,
            owned(config),
            r,
        ),
{
    let mut env = unit_environment(tools, package, &src.absolute_path);
    let mut inputs = InputSet::new();
    inputs.insert(DerivedPath::Opaque(tools.rustc.store_path.clone()));
    inputs.insert(DerivedPath::Opaque(tools.target_cc.store_path.clone()));
    inputs.insert(DerivedPath::Opaque(src.store_path.clone()));
    inputs.insert(DerivedPath::Opaque(tools.build_wrap.store_path.clone()));
    let ghost fixed = inputs@;

    let mut args: VecDeque<Bytes> = VecDeque::new();
    push_back_arg(&mut args, tools.build_wrap.real_path.clone_bytes());
    push_back_arg(&mut args, src.absolute_path.clone_bytes());
    match &package.links {
        Some(links) => push_back_arg(&mut args, text_bytes(links.as_str())),
        None => push_back_arg(&mut args, text_bytes("")),
    }
    let ghost tail = seq![
        tools.build_wrap.real_path@,
        src.absolute_path@,
        encode_utf8(links_text(*package)),
    ];
    assert(all_contents(args@) =~= tail);

    let ghost end = seq![encode_utf8("--"@)];
    let mut script: Option<usize> = None;
    let mut any = false;
    let mut n: usize = 0;
    assert(metadata_files(*unit, units@, cache@, 0) =~= Seq::empty());
    while n < unit.dependencies.len()
        invariant
            n <= unit.dependencies@.len(),
            deps_exist(*unit, units@),
            deps_cached(*unit, cache@),
            end == seq![encode_utf8("--"@)],
            inputs.wf(),
            script matches Some(k) ==> k < n,
            script_dep(*unit, units@, n as int) == match script {
                Some(k) => Some(k as int),
                None => None,
            },
            any == (metadata_files(*unit, units@, cache@, n as int).len() > 0),
            any == exists|d: int| 0 <= d < n && #[trigger] has_metadata(*unit, units@, cache@, d),
            all_contents(args@) == if any {
                metadata_files(*unit, units@, cache@, n as int) + end + tail
            } else {
                tail
            },
            forall|i: Input| #[trigger]
                inputs@.contains(i) <==> fixed.contains(i) || exists|d: int|
                    0 <= d < n && (#[trigger] has_metadata(*unit, units@, cache@, d)) && i
                        == Input::Built(
                        dep_cache(*unit, cache@, d).drv_path@,
                        OutputName::Flags,
                    ),
        decreases unit.dependencies@.len() - n,
    {
        let dep = &unit.dependencies[n];
        assert(unit.dependencies@[n as int].index < units@.len());
        assert(is_cached(cache@, unit.dependencies@[n as int].index));
        let ghost before = inputs@;
        let ghost files = metadata_files(*unit, units@, cache@, n as int);
        let ghost had = any;
        if units[dep.index].mode == CompileMode::Build {
            script = Some(n);
            assert(!has_metadata(*unit, units@, cache@, n as int));
        } else {
            match &cache[dep.index] {
                Some(known) => {
                    assert(*known == dep_cache(*unit, cache@, n as int));
                    if known.meta.has_links {
                        assert(has_metadata(*unit, units@, cache@, n as int));
                        inputs.insert(
                            DerivedPath::Built {
                                drv_path: known.drv_path.clone(),
                                output: OutputName::Flags,
                            },
                        );
                        if !any {
                            push_front_arg(&mut args, text_bytes("--"));
                            any = true;
                        }
                        let file = join_text(known.flags.path.as_str(), SCRIPT_METADATA_ENV);
                        push_front_arg(&mut args, bytes_from_string(file));
                    } else {
                        assert(!has_metadata(*unit, units@, cache@, n as int));
                    }
                },
                None => {},
            }
        }
        proof {
            let after = metadata_files(*unit, units@, cache@, n + 1);
            assert(all_contents(args@) =~= if any {
                after + end + tail
            } else {
                tail
            });
            if had {
                let d = choose|d: int|
                    0 <= d < n && #[trigger] has_metadata(*unit, units@, cache@, d);
                assert(0 <= d < n + 1 && has_metadata(*unit, units@, cache@, d));
            }
            assert forall|i: Input| #[trigger]
                inputs@.contains(i) <==> fixed.contains(i) || exists|d: int|
                    0 <= d < n + 1 && (#[trigger] has_metadata(*unit, units@, cache@, d)) && i
                        == Input::Built(
                        dep_cache(*unit, cache@, d).drv_path@,
                        OutputName::Flags,
                    ) by {
                if before.contains(i) && !fixed.contains(i) {
                    let d = choose|d: int|
                        0 <= d < n && (#[trigger] has_metadata(*unit, units@, cache@, d)) && i
                            == Input::Built(
                            dep_cache(*unit, cache@, d).drv_path@,
                            OutputName::Flags,
                        );
                    assert(0 <= d < n + 1 && has_metadata(*unit, units@, cache@, d));
                }
                if exists|d: int|
                    0 <= d < n + 1 && (#[trigger] has_metadata(*unit, units@, cache@, d)) && i
                        == Input::Built(
                        dep_cache(*unit, cache@, d).drv_path@,
                        OutputName::Flags,
                    ) {
                    let d = choose|d: int|
                        0 <= d < n + 1 && (#[trigger] has_metadata(*unit, units@, cache@, d)) && i
                            == Input::Built(
                            dep_cache(*unit, cache@, d).drv_path@,
                            OutputName::Flags,
                        );
                    if d < n {
                        assert(before.contains(i));
                    }
                }
            }
        }
        n = n + 1;
    }
    let ghost files = metadata_files(*unit, units@, cache@, n as int);
    if any {
        inputs.insert(DerivedPath::Opaque(tools.env_wrap.store_path.clone()));
        push_front_arg(&mut args, tools.env_wrap.real_path.clone_bytes());
    }
    let ghost wrapped = if files.len() > 0 {
        seq![tools.env_wrap.real_path@] + files + end
    } else {
        Seq::empty()
    };
    assert(all_contents(args@) =~= wrapped + tail);

    let script = match script {
        Some(k) => k,
        None => {
            return Err(DrvError::NothingToRun);
        },
    };
    let dep = &unit.dependencies[script];
    assert(is_cached(cache@, unit.dependencies@[script as int].index));
    let ghost built = dep_cache(*unit, cache@, script as int);
    push_back_arg(&mut args, text_bytes(own.flags.path.as_str()));
    push_back_arg(&mut args, text_bytes(own.out.path.as_str()));
    match &cache[dep.index] {
        Some(known) => {
            inputs.insert(
                DerivedPath::Built { drv_path: known.drv_path.clone(), output: OutputName::Out },
            );
            push_back_arg(
                &mut args,
                bytes_from_string(
                    join_text(known.out.path.as_str(), dep.extern_crate_name.as_str()),
                ),
            );
        },
        None => {},
    }
    let ghost command = script_command(
        *tools,
        *own,
        *unit,
        units@,
        cache@,
        *package,
        src.absolute_path@,
    );
    assert(all_contents(args@) =~= command);
    let ghost own_inputs = inputs@;

    match config {
        Some(config) => {
            match add_extra_deps(&mut inputs, config) {
                Ok(()) => {},
                Err(e) => {
                    return Err(e);
                },
            }
            add_config_env(&mut env, config);
        },
        None => {},
    }
    add_feature_env(&mut env, &unit.features);
    env.insert(text_bytes("OPT_LEVEL"), text_bytes(unit.profile.opt_level.as_str()));

    assert(args@.len() == all_contents(args@).len());
    let (builder, rest) = split_builder(args);
    let mut outputs: Vec<DerivationOutput> = Vec::new();
    outputs.push(
        DerivationOutput { name: OutputName::Out, method: ContentAddressMethod::NixArchive },
    );
    outputs.push(
        DerivationOutput { name: OutputName::Flags, method: ContentAddressMethod::NixArchive },
    );
    let drv = Derivation {
        name: source.drv_name.clone().concat("-run"),
        outputs,
        inputs,
        platform: text_bytes("x86_64-linux"),
        builder,
        args: rest,
        env,
    };
    proof {
        let recipe = script_recipe(
            *tools,
            *own,
            *unit,
            units@,
            cache@,
            *package,
            *source,
            *src,
            owned(config),
        );
        reveal_with_fuel(output_map, 3);
        assert(drv.outputs@.drop_last() =~= seq![drv.outputs@[0]]);
        assert(drv@.outputs =~= recipe.outputs);
        assert forall|i: Input| drv@.inputs.contains(i) <==> recipe.inputs.contains(i) by {
            assert(own_inputs.contains(i) <==> script_input(
                *tools,
                *src,
                *unit,
                units@,
                cache@,
                None,
                i,
            ));
        }
        assert(drv@.inputs =~= recipe.inputs);
    }
    Ok(
        (
            drv,
            UnitCacheMeta {
                base_name: None,
                custom_output: true,
                has_links: package.links.is_some(),
            },
        ),
    )
}

/// An optional configuration, by value.
pub open spec fn owned(config: Option<&ExternConfig>) -> Option<ExternConfig> {
    match config {
        Some(config) => Some(*config),
        None => None,
    }
}

} // verus!
