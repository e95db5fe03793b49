//! Derivations that run a build script: what they run, what they are told and what they need.
use crate::derivation::{ContentAddressMethod, Derivation, Input, OutputName};
use crate::laws::compile::command;
use crate::laws::names::{
    lemma_encoding_sum, lemma_encodings, lemma_unit_env, lemma_variables,
};
use crate::package::{Package, UnitSource};
use crate::script::{
    has_metadata, longer_path, metadata_files, script_dep, script_outcome, with_config,
    with_features, with_variables, ExternConfig,
};
use crate::text::{constant_case, texts};
use crate::tools::Tools;
use crate::unit_drv::{
    dep_cache, joined_text, unit_env, DrvError, OwnOutputs, SourceTree, UnitCache, UnitCacheMeta,
};
use crate::unit_graph::{CompileMode, Unit};
use vstd::prelude::*;
use vstd::utf8::encode_utf8;

verus! {

/// All that goes into running a build script.
pub struct ScriptRun {
    pub tools: Tools,
    pub own: OwnOutputs,
    pub unit: Unit,
    pub units: Seq<Unit>,
    pub cache: Seq<Option<UnitCache>>,
    pub package: Package,
    pub source: UnitSource,
    pub src: SourceTree,
    pub config: Option<ExternConfig>,
}

/// What may come of running a build script.
pub open spec fn runs(s: ScriptRun, r: Result<(Derivation, UnitCacheMeta), DrvError>) -> bool {
    script_outcome(
        s.tools,
        s.own,
        s.unit,
        s.units,
        s.cache,
        s.package,
        s.source,
        s.src,
        s.config,
        r,
    )
}

/// The number of direct dependencies.
pub open spec fn direct(s: ScriptRun) -> int {
    s.unit.dependencies@.len() as int
}

/// What is done with the unit that the `d`th dependency leads to.
pub open spec fn dep_mode(s: ScriptRun, d: int) -> CompileMode {
    s.units[s.unit.dependencies@[d].index as int].mode
}

/// The `d`th dependency is the script: the last one that is built.
pub open spec fn is_executable(s: ScriptRun, d: int) -> bool {
    &&& 0 <= d < direct(s)
    &&& dep_mode(s, d) == CompileMode::Build
    &&& forall|e: int| d < e < direct(s) ==> #[trigger] dep_mode(s, e) != CompileMode::Build
}

/// The `d`th dependency has metadata to pass on.
pub open spec fn passes_metadata(s: ScriptRun, d: int) -> bool {
    &&& dep_mode(s, d) != CompileMode::Build
    &&& dep_cache(s.unit, s.cache, d).meta.has_links
}

/// How many of the first `n` dependencies have metadata to pass on.
pub open spec fn metas(s: ScriptRun, n: int) -> int
    decreases n,
{
    if n <= 0 {
        0
    } else {
        metas(s, n - 1) + if passes_metadata(s, n - 1) {
            1int
        } else {
            0int
        }
    }
}

/// Where the wrapper that collects flags stands: first, unless there is metadata to read.
pub open spec fn wrapper_at(s: ScriptRun) -> int {
    if metas(s, direct(s)) > 0 {
        metas(s, direct(s)) + 2
    } else {
        0
    }
}

proof fn lemma_script(s: ScriptRun, n: int)
    requires
        n <= direct(s),
    ensures
        script_dep(s.unit, s.units, n) matches Some(d) ==> {
            &&& 0 <= d < n
            &&& dep_mode(s, d) == CompileMode::Build
            &&& forall|e: int| d < e < n ==> #[trigger] dep_mode(s, e) != CompileMode::Build
        },
        script_dep(s.unit, s.units, n) is None ==> forall|e: int|
            0 <= e < n ==> #[trigger] dep_mode(s, e) != CompileMode::Build,
    decreases n,
{
    if n > 0 {
        lemma_script(s, n - 1);
    }
}

proof fn lemma_metas(s: ScriptRun, d: int, n: int)
    requires
        d <= n,
    ensures
        0 <= metas(s, d) <= metas(s, n),
    decreases n,
{
    if n > 0 && d < n {
        lemma_metas(s, d, n - 1);
    } else if n > 0 {
        lemma_metas(s, n - 1, n - 1);
    }
}

proof fn lemma_metadata_words(s: ScriptRun, d: int, n: int)
    ensures
        metadata_files(s.unit, s.units, s.cache, n).len() == metas(s, n),
        0 <= d < n && passes_metadata(s, d) ==> {
            let at = metas(s, n) - metas(s, d + 1);
            &&& 0 <= at < metas(s, n)
            &&& metadata_files(s.unit, s.units, s.cache, n)[at] == encode_utf8(
                joined_text(dep_cache(s.unit, s.cache, d).flags@, "metadata"@),
            )
        },
    decreases n,
{
    if n > 0 {
        lemma_metadata_words(s, d, n - 1);
        lemma_metas(s, n - 1, n - 1);
        if 0 <= d < n {
            lemma_metas(s, d + 1, n);
        }
        assert(has_metadata(s.unit, s.units, s.cache, n - 1) == passes_metadata(s, n - 1));
    }
}

/// A build script is run exactly if it is among the dependencies and every extra dependency is a
/// store path; the reason is given where it is not.
pub proof fn lemma_script_errors(
    s: ScriptRun,
    r: Result<(Derivation, UnitCacheMeta), DrvError>,
)
    requires
        runs(s, r),
    ensures
        r == Err::<(Derivation, UnitCacheMeta), DrvError>(DrvError::NothingToRun) <==> forall|
            d: int,
        | 0 <= d < direct(s) ==> #[trigger] dep_mode(s, d) != CompileMode::Build,
        r is Ok <==> (exists|d: int|
            0 <= d < direct(s) && #[trigger] dep_mode(s, d) == CompileMode::Build) && (
        s.config matches Some(config) ==> forall|k: int|
            0 <= k < config.extra_deps@.len() ==> (#[trigger] config.extra_deps@[k]).store_path
                is Some),
        r matches Err(e) ==> e == DrvError::NothingToRun || e is InvalidExtraDep,
        r matches Err(DrvError::InvalidExtraDep(k)) ==> {
            &&& s.config matches Some(config) && k < config.extra_deps@.len()
                && config.extra_deps@[k as int].store_path is None && forall|j: int|
                0 <= j < k ==> (#[trigger] config.extra_deps@[j]).store_path is Some
        },
{
    lemma_script(s, direct(s));
    if let Some(d) = script_dep(s.unit, s.units, direct(s)) {
        assert(dep_mode(s, d) == CompileMode::Build);
    }
}

/// The script that is run is the one that the unit depends on, under the wrapper that collects its
/// flags. The wrapper is told where the source is, what the package links to, and where the flags
/// and the output belong.
pub proof fn lemma_script_words(s: ScriptRun, drv: Derivation, meta: UnitCacheMeta, d: int)
    requires
        runs(s, Ok((drv, meta))),
        is_executable(s, d),
    ensures
        ({
            let words = command(drv);
            let p = wrapper_at(s);
            &&& 0 <= p
            &&& words.len() == p + 6
            &&& words[p] == s.tools.build_wrap.real_path@
            &&& words[p + 1] == s.src.absolute_path@
            &&& words[p + 2] == match s.package.links {
                Some(links) => encode_utf8(links@),
                None => Seq::<u8>::empty(),
            }
            &&& words[p + 3] == encode_utf8(s.own.flags@)
            &&& words[p + 4] == encode_utf8(s.own.out@)
            &&& words[p + 5] == encode_utf8(
                joined_text(
                    dep_cache(s.unit, s.cache, d).out@,
                    s.unit.dependencies@[d].extern_crate_name@,
                ),
            )
        }),
{
    let n = direct(s);
    lemma_whole_command(s, drv, meta, d);
    lemma_metadata_words(s, 0, n);
    lemma_metas(s, n, n);
}

proof fn lemma_whole_command(s: ScriptRun, drv: Derivation, meta: UnitCacheMeta, d: int)
    requires
        runs(s, Ok((drv, meta))),
        is_executable(s, d),
    ensures
        script_dep(s.unit, s.units, direct(s)) == Some(d),
        command(drv) == (if metas(s, direct(s)) > 0 {
            seq![s.tools.env_wrap.real_path@] + metadata_files(
                s.unit,
                s.units,
                s.cache,
                direct(s),
            ) + seq![encode_utf8("--"@)]
        } else {
            Seq::empty()
        }) + seq![
            s.tools.build_wrap.real_path@,
            s.src.absolute_path@,
            match s.package.links {
                Some(links) => encode_utf8(links@),
                None => Seq::<u8>::empty(),
            },
            encode_utf8(s.own.flags@),
            encode_utf8(s.own.out@),
            encode_utf8(
                joined_text(
                    dep_cache(s.unit, s.cache, d).out@,
                    s.unit.dependencies@[d].extern_crate_name@,
                ),
            ),
        ],
{
    let n = direct(s);
    lemma_script(s, n);
    let script = script_dep(s.unit, s.units, n)->0;
    assert(dep_mode(s, d) == CompileMode::Build);
    assert(dep_mode(s, script) == CompileMode::Build);
    assert(script == d);
    lemma_metadata_words(s, 0, n);
    reveal_strlit("");
    assert(""@ =~= Seq::empty());
    assert(encode_utf8(Seq::<char>::empty()) =~= Seq::empty());
    let all = crate::script::script_command(
        s.tools,
        s.own,
        s.unit,
        s.units,
        s.cache,
        s.package,
        s.src.absolute_path@,
    );
    assert(command(drv) =~= all);
}

/// The metadata of every build script that has any to pass on is read before the script runs, the
/// last first.
pub proof fn lemma_metadata_files(
    s: ScriptRun,
    drv: Derivation,
    meta: UnitCacheMeta,
    d: int,
    m: int,
)
    requires
        runs(s, Ok((drv, meta))),
        is_executable(s, d),
        0 <= m < direct(s),
        passes_metadata(s, m),
    ensures
        ({
            let words = command(drv);
            let n = metas(s, direct(s));
            let at = 1 + n - metas(s, m + 1);
            &&& 0 < at < n + 1 < words.len()
            &&& words[0] == s.tools.env_wrap.real_path@
            &&& words[at] == encode_utf8(
                joined_text(dep_cache(s.unit, s.cache, m).flags@, "metadata"@),
            )
            &&& words[n + 1] == encode_utf8("--"@)
        }),
{
    let n = direct(s);
    lemma_whole_command(s, drv, meta, d);
    lemma_metadata_words(s, m, n);
    lemma_metas(s, m + 1, n);
    lemma_metas(s, m, m);
    let files = metadata_files(s.unit, s.units, s.cache, n);
    let head = seq![s.tools.env_wrap.real_path@] + files + seq![encode_utf8("--"@)];
    assert(head[0] == s.tools.env_wrap.real_path@);
    assert(head[1 + (metas(s, n) - metas(s, m + 1))] == files[metas(s, n) - metas(s, m + 1)]);
    assert(head[files.len() as int + 1] == encode_utf8("--"@));
}

proof fn lemma_with_variables(
    env: Map<Seq<u8>, Seq<u8>>,
    vars: Seq<(String, String)>,
    name: Seq<char>,
    k: int,
    n: int,
)
    ensures
        ({
            let after = with_variables(env, vars, n);
            let key = encode_utf8(name);
            &&& (forall|j: int| 0 <= j < n ==> (#[trigger] vars[j]).0@ != name) ==> (
            after.contains_key(key) == env.contains_key(key) && after[key] == env[key])
            &&& 0 <= k < n && vars[k].0@ == name && (forall|j: int|
                k < j < n ==> (#[trigger] vars[j]).0@ != name) ==> after.contains_pair(
                key,
                encode_utf8(vars[k].1@),
            )
        }),
    decreases n,
{
    if n > 0 {
        lemma_encodings();
        lemma_with_variables(env, vars, name, k, n - 1);
        if k < n - 1 && 0 <= k {
            if forall|j: int| k < j < n ==> (#[trigger] vars[j]).0@ != name {
                assert(vars[n - 1].0@ != name);
            }
        }
        if forall|j: int| 0 <= j < n ==> (#[trigger] vars[j]).0@ != name {
            assert(vars[n - 1].0@ != name);
        }
    }
}

/// The variable for a feature.
pub open spec fn feature_name(feature: Seq<char>) -> Seq<char> {
    "CARGO_FEATURE_"@ + constant_case(feature)
}

proof fn lemma_with_features(
    env: Map<Seq<u8>, Seq<u8>>,
    features: Seq<String>,
    name: Seq<char>,
    k: int,
    n: int,
)
    ensures
        ({
            let after = with_features(env, features, n);
            let key = encode_utf8(name);
            &&& (forall|j: int|
                0 <= j < n ==> feature_name((#[trigger] features[j])@) != name) ==> (
            after.contains_key(key) == env.contains_key(key) && after[key] == env[key])
            &&& 0 <= k < n ==> after.contains_pair(
                encode_utf8(feature_name(features[k]@)),
                Seq::<u8>::empty(),
            )
        }),
    decreases n,
{
    if n > 0 {
        lemma_encodings();
        lemma_with_features(env, features, name, k, n - 1);
        reveal_strlit("");
        assert(""@ =~= Seq::empty());
        assert(encode_utf8(Seq::<char>::empty()) =~= Seq::empty());
        if forall|j: int| 0 <= j < n ==> feature_name((#[trigger] features[j])@) != name {
            assert(feature_name(features[n - 1]@) != name);
        }
    }
}

/// A script is told the optimisation level of the unit that it is run for, whatever its own.
pub proof fn lemma_opt_level(s: ScriptRun, drv: Derivation, meta: UnitCacheMeta)
    requires
        runs(s, Ok((drv, meta))),
    ensures
        drv@.env.contains_pair(
            encode_utf8("OPT_LEVEL"@),
            encode_utf8(s.unit.profile.opt_level@),
        ),
{
}

/// A script is told of every feature that is on.
pub proof fn lemma_script_features(s: ScriptRun, drv: Derivation, meta: UnitCacheMeta, k: int)
    requires
        runs(s, Ok((drv, meta))),
        0 <= k < s.unit.features@.len(),
    ensures
        drv@.env.contains_pair(
            encode_utf8(feature_name(s.unit.features@[k]@)),
            Seq::<u8>::empty(),
        ),
{
    let base = with_config(
        unit_env(s.tools.rustc.real_path@, s.package, s.src.absolute_path@),
        s.config,
    );
    lemma_with_features(base, s.unit.features@, ""@, k, s.unit.features@.len() as int);
    lemma_not_feature(s.unit.features@[k]@);
    lemma_encodings();
}

/// No feature's variable is one that builds are told other things by.
proof fn lemma_not_feature(feature: Seq<char>)
    ensures
        feature_name(feature) != "OPT_LEVEL"@,
        feature_name(feature) != "PATH"@,
{
    reveal_strlit("CARGO_FEATURE_");
    reveal_strlit("OPT_LEVEL");
    reveal_strlit("PATH");
    assert(feature_name(feature)[0] == 'C');
    assert("OPT_LEVEL"@[0] != 'C');
    assert("PATH"@[0] != 'C');
}

/// The variable is set by nothing but the configuration and what every build is told.
pub open spec fn is_plain_variable(s: ScriptRun, name: Seq<char>) -> bool {
    &&& name != "OPT_LEVEL"@
    &&& forall|k: int|
        0 <= k < s.unit.features@.len() ==> feature_name((#[trigger] s.unit.features@[k])@) != name
}

/// What the configuration does not set, a script is told as every build is.
pub proof fn lemma_script_env(
    s: ScriptRun,
    drv: Derivation,
    meta: UnitCacheMeta,
    name: Seq<char>,
)
    requires
        runs(s, Ok((drv, meta))),
        is_plain_variable(s, name),
        s.config matches Some(config) ==> name != "PATH"@ && forall|k: int|
            0 <= k < config.extra_env@.len() ==> (#[trigger] config.extra_env@[k]).0@ != name,
    ensures
        ({
            let base = unit_env(s.tools.rustc.real_path@, s.package, s.src.absolute_path@);
            &&& drv@.env.contains_key(encode_utf8(name)) == base.contains_key(encode_utf8(name))
            &&& drv@.env[encode_utf8(name)] == base[encode_utf8(name)]
        }),
{
    let base = unit_env(s.tools.rustc.real_path@, s.package, s.src.absolute_path@);
    let told = with_config(base, s.config);
    lemma_with_features(told, s.unit.features@, name, 0, s.unit.features@.len() as int);
    lemma_encodings();
    if let Some(config) = s.config {
        lemma_with_variables(base, config.extra_env@, name, 0, config.extra_env@.len() as int);
    }
}

/// A variable of the configuration is set as it says there; the last value counts.
pub proof fn lemma_configured_variable(
    s: ScriptRun,
    drv: Derivation,
    meta: UnitCacheMeta,
    k: int,
)
    requires
        runs(s, Ok((drv, meta))),
        s.config is Some,
        0 <= k < (s.config->0).extra_env@.len(),
        is_plain_variable(s, (s.config->0).extra_env@[k].0@),
        (s.config->0).extra_env@[k].0@ != "PATH"@,
        forall|j: int|
            k < j < (s.config->0).extra_env@.len() ==> (#[trigger] (s.config->0).extra_env@[j]).0@
                != (s.config->0).extra_env@[k].0@,
    ensures
        drv@.env.contains_pair(
            encode_utf8((s.config->0).extra_env@[k].0@),
            encode_utf8((s.config->0).extra_env@[k].1@),
        ),
{
    let base = unit_env(s.tools.rustc.real_path@, s.package, s.src.absolute_path@);
    let told = with_config(base, s.config);
    let vars = (s.config->0).extra_env@;
    let name = vars[k].0@;
    lemma_with_features(told, s.unit.features@, name, 0, s.unit.features@.len() as int);
    lemma_encodings();
    lemma_with_variables(base, vars, name, k, vars.len() as int);
}

/// Directories, each after a colon.
pub open spec fn colon_list(dirs: Seq<Seq<char>>) -> Seq<char>
    decreases dirs.len(),
{
    if dirs.len() == 0 {
        Seq::empty()
    } else {
        seq![':'] + dirs[0] + colon_list(dirs.drop_first())
    }
}

proof fn lemma_colon_list(dirs: Seq<Seq<char>>, last: Seq<char>)
    ensures
        colon_list(dirs.push(last)) == colon_list(dirs) + seq![':'] + last,
    decreases dirs.len(),
{
    let all = dirs.push(last);
    if dirs.len() == 0 {
        assert(all.drop_first() =~= Seq::empty());
        assert(colon_list(all.drop_first()) =~= Seq::empty());
        assert(colon_list(all) =~= colon_list(dirs) + seq![':'] + last);
    } else {
        lemma_colon_list(dirs.drop_first(), last);
        assert(all.drop_first() =~= dirs.drop_first().push(last));
        assert(colon_list(all) =~= colon_list(dirs) + seq![':'] + last);
    }
}

proof fn lemma_longer_path(path: Seq<u8>, extra: Seq<String>, n: int)
    requires
        0 <= n <= extra.len(),
    ensures
        longer_path(path, extra, n) == path + encode_utf8(colon_list(texts(extra).take(n))),
    decreases n,
{
    if n <= 0 {
        assert(texts(extra).take(n) =~= Seq::empty());
        assert(encode_utf8(Seq::<char>::empty()) =~= Seq::empty());
        assert(path + Seq::<u8>::empty() =~= path);
    } else {
        lemma_longer_path(path, extra, n - 1);
        let shorter = texts(extra).take(n - 1);
        let last = extra[n - 1]@;
        lemma_colon_list(shorter, last);
        assert(texts(extra).take(n) =~= shorter.push(last));
        reveal_strlit(":");
        assert(":"@ =~= seq![':']);
        lemma_encoding_sum(colon_list(shorter) + seq![':'], last);
        lemma_encoding_sum(colon_list(shorter), seq![':']);
        assert(longer_path(path, extra, n) =~= path + encode_utf8(
            colon_list(texts(extra).take(n)),
        ));
    }
}

/// The directories of the configuration come after the search path, each after a colon and in
/// order. The search path is the one that the configuration sets, or else that of every build.
pub proof fn lemma_search_directories(s: ScriptRun, drv: Derivation, meta: UnitCacheMeta, k: int)
    requires
        runs(s, Ok((drv, meta))),
        s.config is Some,
    ensures
        ({
            let config = s.config->0;
            let vars = config.extra_env@;
            let tail = encode_utf8(colon_list(texts(config.extra_path@)));
            let path = encode_utf8("PATH"@);
            &&& drv@.env.contains_key(path)
            &&& (forall|j: int| 0 <= j < vars.len() ==> (#[trigger] vars[j]).0@ != "PATH"@)
                ==> drv@.env[path] == crate::path::parent_of(s.tools.rustc.real_path@)->0 + tail
            &&& 0 <= k < vars.len() && vars[k].0@ == "PATH"@ && (forall|j: int|
                k < j < vars.len() ==> (#[trigger] vars[j]).0@ != "PATH"@) ==> drv@.env[path]
                == encode_utf8(vars[k].1@) + tail
        }),
{
    let base = unit_env(s.tools.rustc.real_path@, s.package, s.src.absolute_path@);
    let told = with_config(base, s.config);
    let config = s.config->0;
    let vars = config.extra_env@;
    let n = config.extra_path@.len() as int;
    assert forall|j: int| 0 <= j < s.unit.features@.len() implies feature_name(
        (#[trigger] s.unit.features@[j])@,
    ) != "PATH"@ by {
        lemma_not_feature(s.unit.features@[j]@);
    }
    lemma_with_features(told, s.unit.features@, "PATH"@, 0, s.unit.features@.len() as int);
    lemma_variables();
    lemma_encodings();
    lemma_unit_env(s.tools.rustc.real_path@, s.package, s.src.absolute_path@);
    lemma_with_variables(base, vars, "PATH"@, k, vars.len() as int);
    let before = with_variables(base, vars, vars.len() as int)[encode_utf8("PATH"@)];
    lemma_longer_path(before, config.extra_path@, n);
    assert(texts(config.extra_path@).take(n) =~= texts(config.extra_path@));
}

/// What a build script's run is built from: the compilers, the source, the wrapper, the script, the
/// flags of the build scripts whose metadata is read and then the wrapper that reads it, and the
/// extra dependencies. Nothing else.
pub proof fn lemma_run_inputs(
    s: ScriptRun,
    drv: Derivation,
    meta: UnitCacheMeta,
    script: int,
    i: Input,
)
    requires
        runs(s, Ok((drv, meta))),
        is_executable(s, script),
    ensures
        drv@.inputs.contains(i) <==> {
            ||| i == Input::Opaque(s.tools.rustc.store_path@)
            ||| i == Input::Opaque(s.tools.target_cc.store_path@)
            ||| i == Input::Opaque(s.src.store_path@)
            ||| i == Input::Opaque(s.tools.build_wrap.store_path@)
            ||| i == Input::Built(
                dep_cache(s.unit, s.cache, script).drv_path@,
                OutputName::Out,
            )
            ||| exists|d: int|
                0 <= d < direct(s) && (#[trigger] passes_metadata(s, d)) && (i == Input::Built(
                    dep_cache(s.unit, s.cache, d).drv_path@,
                    OutputName::Flags,
                ) || i == Input::Opaque(s.tools.env_wrap.store_path@))
            ||| s.config matches Some(config) && exists|k: int|
                0 <= k < config.extra_deps@.len() && i == Input::Opaque(
                    (#[trigger] config.extra_deps@[k]).store_path->0@,
                )
        },
{
    lemma_script(s, direct(s));
    let found = script_dep(s.unit, s.units, direct(s))->0;
    assert(dep_mode(s, found) == CompileMode::Build);
    assert(dep_mode(s, script) == CompileMode::Build);
    assert(found == script);
    assert forall|d: int| #[trigger] has_metadata(s.unit, s.units, s.cache, d)
        == passes_metadata(s, d) by {}
    if exists|d: int|
        0 <= d < direct(s) && (#[trigger] passes_metadata(s, d)) && (i == Input::Built(
            dep_cache(s.unit, s.cache, d).drv_path@,
            OutputName::Flags,
        ) || i == Input::Opaque(s.tools.env_wrap.store_path@)) {
        let d = choose|d: int|
            0 <= d < direct(s) && (#[trigger] passes_metadata(s, d)) && (i == Input::Built(
                dep_cache(s.unit, s.cache, d).drv_path@,
                OutputName::Flags,
            ) || i == Input::Opaque(s.tools.env_wrap.store_path@));
        assert(has_metadata(s.unit, s.units, s.cache, d));
    }
    if exists|d: int|
        0 <= d < direct(s) && #[trigger] has_metadata(s.unit, s.units, s.cache, d) && i
            == Input::Built(dep_cache(s.unit, s.cache, d).drv_path@, OutputName::Flags) {
        let d = choose|d: int|
            0 <= d < direct(s) && #[trigger] has_metadata(s.unit, s.units, s.cache, d) && i
                == Input::Built(dep_cache(s.unit, s.cache, d).drv_path@, OutputName::Flags);
        assert(passes_metadata(s, d));
    }
    if exists|d: int|
        0 <= d < direct(s) && #[trigger] has_metadata(s.unit, s.units, s.cache, d) {
        let d = choose|d: int|
            0 <= d < direct(s) && #[trigger] has_metadata(s.unit, s.units, s.cache, d);
        assert(passes_metadata(s, d));
    }
}

/// A build script's run is named after the package's directory and has two outputs; later units
/// learn that it has flags, and whether the package links to a native library.
pub proof fn lemma_run(s: ScriptRun, drv: Derivation, meta: UnitCacheMeta)
    requires
        runs(s, Ok((drv, meta))),
    ensures
        drv@.name == s.source.drv_name@ + "-run"@,
        drv@.platform == encode_utf8("x86_64-linux"@),
        forall|o: OutputName| #[trigger]
            drv@.outputs.contains_key(o) && drv@.outputs[o] == ContentAddressMethod::NixArchive,
        meta.base_name is None,
        meta.custom_output,
        meta.has_links <==> s.package.links is Some,
{
    assert forall|o: OutputName| #[trigger]
        drv@.outputs.contains_key(o) && drv@.outputs[o] == ContentAddressMethod::NixArchive by {
        match o {
            OutputName::Out => {},
            OutputName::Flags => {},
        }
    }
}

} // verus!
