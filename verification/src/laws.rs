//! What holds of the programs as a whole.
use crate::build_wrap::{effect, instruction, line_effect, Effect};
use crate::compile::{
    brings, compile_base_name, compile_recipe, file_suffix, has_script, is_lib, library_file,
    main_file, wrapper_args,
};
use crate::derivation::{ContentAddressMethod, Input, OutputName};
use crate::env_wrap::{assignment, assignments, first_separator, separator, Assignment};
use crate::package::{Package, UnitSource};
use crate::path::names;
use crate::path_laws::lemma_moved;
use crate::planner::Planner;
use crate::script::{
    any_metadata, has_metadata, links_text, metadata_files, script_dep, script_recipe,
    ExternConfig,
};
use crate::sorted::listing;
use crate::store::{target_env_recipe, wrapper_recipe};
use crate::target_env::{
    cfg_entries, cfg_file, cfg_keys, cfg_line, cfg_lines, cfg_name, cfg_values, tuple_lines,
};
use crate::text::{
    lemma_position, lemma_position_is, lines, position, replaced, separated, without_cr,
    without_prefix,
};
use crate::tools::{Tool, Tools};
use crate::unit_drv::{
    dep_cache, joined_text, OwnOutputs, SourceTree, UnitCache, SCRIPT_IMMEDIATE_ENV,
    SCRIPT_METADATA_ENV,
};
use crate::unit_graph::{reaches, Unit};
use vstd::prelude::*;
use vstd::utf8::{encode_utf8, encode_utf8_decode_utf8};

pub mod compile;
pub mod graph;
pub mod model;
pub mod names;
pub mod project;
pub mod script;
pub mod text;
pub mod wrap;

verus! {

/// A crate is compiled with nothing but the compilers, its source, what the units that it depends
/// on bring and, if it depends on a build script, the wrapper; and with all of these. A unit that
/// it does not depend on is not among its inputs.
pub proof fn lemma_necessary_inputs(
    p: Planner,
    tools: Tools,
    own: OwnOutputs,
    package: Package,
    source: UnitSource,
    src: SourceTree,
    dep_hash: u64,
    i: Input,
)
    requires
        p.wf(),
        p.done < p.order@.len(),
    ensures
        compile_recipe(
            tools,
            own,
            p.units@[p.next() as int],
            p.cache@,
            p.deps@[p.next()]@,
            package,
            source,
            src,
            dep_hash,
        ).inputs.contains(i) <==> {
            ||| i == Input::Opaque(tools.rustc.store_path@)
            ||| i == Input::Opaque(tools.target_cc.store_path@)
            ||| i == Input::Opaque(src.store_path@)
            ||| exists|t: usize| #[trigger]
                reaches(p.units@, p.next(), t) && brings(p.cache@[t as int]->0, i)
            ||| has_script(p.units@[p.next() as int], p.cache@) && i == Input::Opaque(
                tools.env_wrap.store_path@,
            )
        },
{
    p.lemma_next();
    let deps = p.deps@[p.next()]@;
    if exists|t: usize| #[trigger] deps.contains(t) && brings(p.cache@[t as int]->0, i) {
        let t = choose|t: usize| #[trigger] deps.contains(t) && brings(p.cache@[t as int]->0, i);
        assert(reaches(p.units@, p.next(), t) && brings(p.cache@[t as int]->0, i));
    }
    if exists|t: usize| #[trigger]
        reaches(p.units@, p.next(), t) && brings(p.cache@[t as int]->0, i) {
        let t = choose|t: usize| #[trigger]
            reaches(p.units@, p.next(), t) && brings(p.cache@[t as int]->0, i);
        assert(deps.contains(t) && brings(p.cache@[t as int]->0, i));
    }
}

/// Of what is built, running a build script needs nothing but the script and the flags of build
/// scripts, and only of units that it depends on directly.
pub proof fn lemma_script_inputs(
    tools: Tools,
    own: OwnOutputs,
    unit: Unit,
    units: Seq<Unit>,
    cache: Seq<Option<UnitCache>>,
    package: Package,
    source: UnitSource,
    src: SourceTree,
    config: Option<ExternConfig>,
    drv_path: Seq<char>,
    output: OutputName,
)
    requires
        script_dep(unit, units, unit.dependencies@.len() as int) is Some,
        script_recipe(
            tools,
            own,
            unit,
            units,
            cache,
            package,
            source,
            src,
            config,
        ).inputs.contains(Input::Built(drv_path, output)),
    ensures
        exists|d: int|
            0 <= d < unit.dependencies@.len() && (#[trigger] dep_cache(unit, cache, d)).drv_path@
                == drv_path && (output == OutputName::Flags ==> has_metadata(
                unit,
                units,
                cache,
                d,
            )),
{
    let n = unit.dependencies@.len() as int;
    let script = script_dep(unit, units, n)->0;
    lemma_script_dep(unit, units, n);
    if output == OutputName::Out {
        assert(dep_cache(unit, cache, script).drv_path@ == drv_path);
    } else {
        let d = choose|d: int|
            0 <= d < n && (#[trigger] has_metadata(unit, units, cache, d)) && Input::Built(
                drv_path,
                output,
            ) == Input::Built(dep_cache(unit, cache, d).drv_path@, OutputName::Flags);
        assert(dep_cache(unit, cache, d).drv_path@ == drv_path);
    }
}

proof fn lemma_script_dep(unit: Unit, units: Seq<Unit>, n: int)
    ensures
        script_dep(unit, units, n) matches Some(d) ==> 0 <= d < n,
    decreases n,
{
    if n > 0 {
        lemma_script_dep(unit, units, n - 1);
    }
}

/// There is an output `out`, and all outputs are addressed by their contents in one way.
pub open spec fn addressed_by(
    outputs: Map<OutputName, ContentAddressMethod>,
    method: ContentAddressMethod,
) -> bool {
    &&& outputs.contains_key(OutputName::Out)
    &&& forall|name: OutputName| #[trigger]
        outputs.contains_key(name) ==> outputs[name] == method
}

/// All derivations have outputs, and every output is addressed by its contents: a tree for what is
/// compiled or run, a single file for the others.
pub proof fn lemma_content_addressed(
    tools: Tools,
    own: OwnOutputs,
    unit: Unit,
    units: Seq<Unit>,
    cache: Seq<Option<UnitCache>>,
    deps: Set<usize>,
    package: Package,
    source: UnitSource,
    src: SourceTree,
    dep_hash: u64,
    config: Option<ExternConfig>,
)
    ensures
        addressed_by(
            compile_recipe(
                tools,
                own,
                unit,
                cache,
                deps,
                package,
                source,
                src,
                dep_hash,
            ).outputs,
            ContentAddressMethod::NixArchive,
        ),
        addressed_by(
            script_recipe(
                tools,
                own,
                unit,
                units,
                cache,
                package,
                source,
                src,
                config,
            ).outputs,
            ContentAddressMethod::NixArchive,
        ),
        forall|name: Seq<char>, unit_name: Seq<char>, ln: Tool, base: UnitCache, platform: Seq<u8>|
            addressed_by(
                (#[trigger] wrapper_recipe(name, unit_name, ln, base, own, platform)).outputs,
                ContentAddressMethod::Flat,
            ),
        forall|target: Option<Seq<char>>, platform: Seq<u8>|
            addressed_by(
                (#[trigger] target_env_recipe(tools, target, own, platform)).outputs,
                ContentAddressMethod::Flat,
            ),
{
}

proof fn lemma_wrapper(unit: Unit, cache: Seq<Option<UnitCache>>, env_wrap: Seq<u8>, n: int)
    requires
        0 <= n <= unit.dependencies@.len(),
    ensures
        wrapper_args(unit, cache, env_wrap, n).len() > 0 <==> exists|d: int|
            0 <= d < n && (#[trigger] dep_cache(unit, cache, d)).meta.custom_output,
        wrapper_args(unit, cache, env_wrap, n).len() > 0 ==> wrapper_args(
            unit,
            cache,
            env_wrap,
            n,
        )[0] == env_wrap,
    decreases n,
{
    if n > 0 {
        lemma_wrapper(unit, cache, env_wrap, n - 1);
        if dep_cache(unit, cache, n - 1).meta.custom_output {
            assert(0 <= n - 1 < n && dep_cache(unit, cache, n - 1).meta.custom_output);
        } else if exists|d: int|
            0 <= d < n && (#[trigger] dep_cache(unit, cache, d)).meta.custom_output {
            let d = choose|d: int|
                0 <= d < n && (#[trigger] dep_cache(unit, cache, d)).meta.custom_output;
            assert(0 <= d < n - 1 && dep_cache(unit, cache, d).meta.custom_output);
        }
    }
}

/// A crate is built by the compiler itself, or by the wrapper that reads a build script's
/// environment if it depends on one.
pub proof fn lemma_compile_builder(
    tools: Tools,
    own: OwnOutputs,
    unit: Unit,
    cache: Seq<Option<UnitCache>>,
    deps: Set<usize>,
    package: Package,
    source: UnitSource,
    src: SourceTree,
    dep_hash: u64,
)
    ensures
        compile_recipe(
            tools,
            own,
            unit,
            cache,
            deps,
            package,
            source,
            src,
            dep_hash,
        ).builder == if has_script(unit, cache) {
            tools.env_wrap.real_path@
        } else {
            tools.rustc.real_path@
        },
{
    lemma_wrapper(unit, cache, tools.env_wrap.real_path@, unit.dependencies@.len() as int);
}

proof fn lemma_metadata(unit: Unit, units: Seq<Unit>, cache: Seq<Option<UnitCache>>, n: int)
    requires
        0 <= n <= unit.dependencies@.len(),
    ensures
        metadata_files(unit, units, cache, n).len() > 0 <==> exists|d: int|
            0 <= d < n && #[trigger] has_metadata(unit, units, cache, d),
    decreases n,
{
    if n > 0 {
        lemma_metadata(unit, units, cache, n - 1);
        if has_metadata(unit, units, cache, n - 1) {
            assert(0 <= n - 1 < n && has_metadata(unit, units, cache, n - 1));
        } else if exists|d: int| 0 <= d < n && #[trigger] has_metadata(unit, units, cache, d) {
            let d = choose|d: int| 0 <= d < n && #[trigger] has_metadata(unit, units, cache, d);
            assert(0 <= d < n - 1 && has_metadata(unit, units, cache, d));
        }
    }
}

/// A build script is run by the wrapper that collects its flags, or by the one that reads metadata
/// if there is any.
pub proof fn lemma_script_builder(
    tools: Tools,
    own: OwnOutputs,
    unit: Unit,
    units: Seq<Unit>,
    cache: Seq<Option<UnitCache>>,
    package: Package,
    source: UnitSource,
    src: SourceTree,
    config: Option<ExternConfig>,
)
    ensures
        script_recipe(
            tools,
            own,
            unit,
            units,
            cache,
            package,
            source,
            src,
            config,
        ).builder == if any_metadata(unit, units, cache) {
            tools.env_wrap.real_path@
        } else {
            tools.build_wrap.real_path@
        },
{
    lemma_metadata(unit, units, cache, unit.dependencies@.len() as int);
}

proof fn lemma_separator()
    ensures
        encode_utf8("--"@) == separator(),
{
    reveal_strlit("--");
    reveal_with_fuel(encode_utf8, 3);
    assert(0x2du32 & 0x7f == 0x2d) by (bit_vector);
    assert("--"@.drop_first().drop_first() =~= Seq::empty());
    assert(encode_utf8("--"@) =~= separator());
}

/// A file in a directory is not taken for the separator.
proof fn lemma_no_separator(dir: Seq<char>, file: Seq<char>)
    requires
        file.len() > 0,
        file.last() != '-',
    ensures
        encode_utf8(joined_text(dir, file)) != separator(),
{
    let path = joined_text(dir, file);
    assert(path.last() == file.last());
    lemma_separator();
    encode_utf8_decode_utf8(path);
    encode_utf8_decode_utf8("--"@);
    reveal_strlit("--");
    if path == "--"@ {
        assert(path[1] == '-');
    }
}

/// The last build script among the first `n` units that are depended on directly.
pub open spec fn last_script(unit: Unit, cache: Seq<Option<UnitCache>>, n: int) -> Option<int>
    decreases n,
{
    if n <= 0 {
        None
    } else if dep_cache(unit, cache, n - 1).meta.custom_output {
        Some(n - 1)
    } else {
        last_script(unit, cache, n - 1)
    }
}

/// The wrapper that reads environments finds in its arguments the file of the last build script,
/// and runs what is left: the same command with one build script less, and at last the compiler.
pub proof fn lemma_unwrapped(
    unit: Unit,
    cache: Seq<Option<UnitCache>>,
    env_wrap: Seq<u8>,
    inner: Seq<Seq<u8>>,
    n: int,
)
    ensures
        match last_script(unit, cache, n) {
            Some(d) => {
                let args = (wrapper_args(unit, cache, env_wrap, n) + inner).drop_first();
                &&& 0 <= d < n
                &&& (wrapper_args(unit, cache, env_wrap, n) + inner)[0] == env_wrap
                &&& first_separator(args, 1)
                &&& args.take(1) == seq![
                    encode_utf8(
                        joined_text(dep_cache(unit, cache, d).flags@, SCRIPT_IMMEDIATE_ENV@),
                    ),
                ]
                &&& args.skip(2) == wrapper_args(unit, cache, env_wrap, d) + inner
            },
            None => wrapper_args(unit, cache, env_wrap, n) + inner == inner,
        },
    decreases n,
{
    if n <= 0 {
        assert(wrapper_args(unit, cache, env_wrap, n) + inner =~= inner);
    } else {
        let dep = dep_cache(unit, cache, n - 1);
        if dep.meta.custom_output {
            let rest = wrapper_args(unit, cache, env_wrap, n - 1);
            let file = encode_utf8(joined_text(dep.flags@, SCRIPT_IMMEDIATE_ENV@));
            let args = (wrapper_args(unit, cache, env_wrap, n) + inner).drop_first();
            reveal_strlit("env");
            lemma_no_separator(dep.flags@, SCRIPT_IMMEDIATE_ENV@);
            lemma_separator();
            assert(args =~= seq![file, encode_utf8("--"@)] + rest + inner);
            assert(args.take(1) =~= seq![file]);
            assert(args.skip(2) =~= rest + inner);
        } else {
            lemma_unwrapped(unit, cache, env_wrap, inner, n - 1);
        }
    }
}

proof fn lemma_metadata_separator(
    unit: Unit,
    units: Seq<Unit>,
    cache: Seq<Option<UnitCache>>,
    n: int,
)
    ensures
        forall|k: int|
            0 <= k < metadata_files(unit, units, cache, n).len() ==> #[trigger] metadata_files(
                unit,
                units,
                cache,
                n,
            )[k] != separator(),
    decreases n,
{
    if n > 0 {
        lemma_metadata_separator(unit, units, cache, n - 1);
        reveal_strlit("metadata");
        lemma_no_separator(dep_cache(unit, cache, n - 1).flags@, SCRIPT_METADATA_ENV@);
        let before = metadata_files(unit, units, cache, n - 1);
        let all = metadata_files(unit, units, cache, n);
        assert forall|k: int| 0 <= k < all.len() implies #[trigger] all[k] != separator() by {
            if has_metadata(unit, units, cache, n - 1) {
                if k > 0 {
                    assert(all[k] == before[k - 1]);
                }
            }
        }
    }
}

/// The wrapper that reads metadata finds in its arguments the files of all build scripts that have
/// any, and runs the wrapper that collects flags.
pub proof fn lemma_metadata_read(
    tools: Tools,
    own: OwnOutputs,
    unit: Unit,
    units: Seq<Unit>,
    cache: Seq<Option<UnitCache>>,
    package: Package,
    source: UnitSource,
    src: SourceTree,
    config: Option<ExternConfig>,
)
    requires
        any_metadata(unit, units, cache),
    ensures
        ({
            let args = script_recipe(
                tools,
                own,
                unit,
                units,
                cache,
                package,
                source,
                src,
                config,
            ).args;
            let n = unit.dependencies@.len() as int;
            let files = metadata_files(unit, units, cache, n);
            let script = script_dep(unit, units, n)->0;
            &&& first_separator(args, files.len() as int)
            &&& args.take(files.len() as int) == files
            &&& args.skip(files.len() as int + 1) == seq![
                tools.build_wrap.real_path@,
                src.absolute_path@,
                encode_utf8(links_text(package)),
                encode_utf8(own.flags@),
                encode_utf8(own.out@),
                encode_utf8(
                    joined_text(
                        dep_cache(unit, cache, script).out@,
                        unit.dependencies@[script].extern_crate_name@,
                    ),
                ),
            ]
        }),
{
    let n = unit.dependencies@.len() as int;
    let files = metadata_files(unit, units, cache, n);
    let script = script_dep(unit, units, n)->0;
    let args = script_recipe(
        tools,
        own,
        unit,
        units,
        cache,
        package,
        source,
        src,
        config,
    ).args;
    lemma_metadata(unit, units, cache, n);
    lemma_metadata_separator(unit, units, cache, n);
    lemma_separator();
    let rest = seq![
        tools.build_wrap.real_path@,
        src.absolute_path@,
        encode_utf8(links_text(package)),
        encode_utf8(own.flags@),
        encode_utf8(own.out@),
        encode_utf8(
            joined_text(
                dep_cache(unit, cache, script).out@,
                unit.dependencies@[script].extern_crate_name@,
            ),
        ),
    ];
    assert(args =~= files + seq![encode_utf8("--"@)] + rest);
    assert(args.take(files.len() as int) =~= files);
    assert(args.skip(files.len() as int + 1) =~= rest);
    assert forall|j: int| 0 <= j < files.len() implies #[trigger] args[j] != separator() by {
        assert(args[j] == files[j]);
    }
}

/// A library is looked for under the file name that the compiler was told to give it: `lib`, the
/// name of the crate, and what sets it apart. The names of libraries have no `-` in them.
pub proof fn lemma_library_name(unit: Unit, dep_hash: u64, out: Seq<char>, user: Seq<char>)
    requires
        unit.target.crate_types@[0]@ == "lib"@,
        !unit.target.name@.contains('-'),
    ensures
        compile_base_name(unit, dep_hash) == Some(
            "lib"@ + replaced(unit.target.name@, '-', '_') + file_suffix(dep_hash),
        ),
        library_file(out, compile_base_name(unit, dep_hash)->0, user) == out + "/"@ + ("lib"@
            + replaced(unit.target.name@, '-', '_') + file_suffix(dep_hash)) + "."@ + if is_lib(
            user,
        ) {
            "rmeta"@
        } else {
            "rlib"@
        },
{
    let name = unit.target.name@;
    assert(replaced(name, '-', '_') =~= name) by {
        assert forall|k: int| 0 <= k < name.len() implies replaced(name, '-', '_')[k]
            == name[k] by {
            assert(name.contains(name[k]));
        }
    }
}

/// The main file is at the same place in the store's copy of the source as in the package.
pub proof fn lemma_main_file(unit: Unit, crate_root: Seq<char>, src: Seq<u8>)
    requires
        main_file(unit, crate_root, src) is Some,
        names(encode_utf8(crate_root)).len() > 0,
    ensures
        names(main_file(unit, crate_root, src)->0) == names(src) + names(
            unit.target.src_path@,
        ).skip(names(encode_utf8(crate_root)).len() as int),
{
    lemma_moved(unit.target.src_path@, encode_utf8(crate_root), src);
}

/// One colon after `cargo` means the same as two.
pub proof fn lemma_colons(rest: Seq<char>)
    requires
        without_prefix(rest, ":"@) is None,
    ensures
        line_effect("cargo:"@ + rest) == line_effect("cargo::"@ + rest),
{
    reveal_strlit("cargo:");
    reveal_strlit("cargo::");
    reveal_strlit(":");
    let one = "cargo:"@ + rest;
    let two = "cargo::"@ + rest;
    assert("cargo:"@ =~= one.subrange(0, 6));
    assert("cargo:"@ =~= two.subrange(0, 6));
    assert(one.skip(6) =~= rest);
    assert(two.skip(6) =~= ":"@ + rest);
    assert(":"@ =~= two.skip(6).subrange(0, 1));
    assert(two.skip(6).skip(1) =~= rest);
}

/// The first line of a text ends at its first line feed.
proof fn lemma_first_line(line: Seq<char>, rest: Seq<char>)
    requires
        !line.contains('\n'),
    ensures
        lines(line + "\n"@ + rest) == seq![without_cr(line)] + lines(rest),
{
    reveal_strlit("\n");
    let s = line + "\n"@ + rest;
    let p = line.len() as int;
    assert forall|i: int| 0 <= i < p implies s[i] != '\n' by {
        assert(s[i] == line[i]);
        assert(line.contains(line[i]));
    }
    lemma_position_is(s, '\n', p);
    assert(s.take(p) =~= line);
    assert(s.skip(p + 1) =~= rest);
}

/// A variable and its value can be told apart and read back from a line of a file.
pub open spec fn is_plain(name: Seq<char>, value: Seq<char>) -> bool {
    &&& !name.contains('=')
    &&& !name.contains('\n')
    &&& !value.contains('\n')
    &&& value.len() > 0 ==> value.last() != '\r'
}

/// What is written first is read first.
proof fn lemma_first_variable(name: Seq<char>, value: Seq<char>, rest: Seq<char>)
    requires
        is_plain(name, value),
    ensures
        assignments(name + "="@ + value + "\n"@ + rest) == seq![
            Assignment::Assigned(name, value),
        ] + assignments(rest),
{
    reveal_strlit("=");
    let line = name + "="@ + value;
    assert(!line.contains('\n')) by {
        if line.contains('\n') {
            let k = choose|k: int| 0 <= k < line.len() && line[k] == '\n';
            if k < name.len() {
                assert(name[k] == '\n');
            } else if k > name.len() {
                assert(value[k - name.len() - 1] == '\n');
            }
        }
    }
    lemma_first_line(line, rest);
    assert(without_cr(line) == line) by {
        if value.len() > 0 {
            assert(line.last() == value.last());
        } else {
            assert(line.last() == '=');
        }
    }
    assert forall|i: int| 0 <= i < name.len() implies line[i] != '=' by {
        assert(name.contains(name[i]));
    }
    lemma_position_is(line, '=', name.len() as int);
    assert(line.take(name.len() as int) =~= name);
    assert(line.skip(name.len() as int + 1) =~= value);
    assert(assignment(line) == Assignment::Assigned(name, value));
    assert(assignments(line + "\n"@ + rest) =~= seq![Assignment::Assigned(name, value)]
        + assignments(rest));
}

/// What an environment file says does not depend on what comes after its last line.
proof fn lemma_assignments_end(head: Seq<char>, name: Seq<char>, value: Seq<char>)
    requires
        is_plain(name, value),
        head.len() == 0 || head.last() == '\n',
    ensures
        assignments(head + (name + "="@ + value + "\n"@)) == assignments(head).push(
            Assignment::Assigned(name, value),
        ),
    decreases head.len(),
{
    let tail = name + "="@ + value + "\n"@;
    if head.len() == 0 {
        lemma_first_variable(name, value, Seq::empty());
        assert(tail + Seq::<char>::empty() =~= tail);
        assert(head + tail =~= tail);
        assert(assignments(Seq::empty()) =~= Seq::empty());
        assert(assignments(head + tail) =~= assignments(head).push(
            Assignment::Assigned(name, value),
        ));
    } else {
        reveal_strlit("\n");
        lemma_position(head, '\n');
        let p = position(head, '\n');
        if p == head.len() {
            assert(head[head.len() - 1] != '\n');
        }
        let line = head.take(p);
        let rest = head.skip(p + 1);
        assert(!line.contains('\n')) by {
            if line.contains('\n') {
                let k = choose|k: int| 0 <= k < line.len() && line[k] == '\n';
                assert(head[k] == '\n');
            }
        }
        assert(head =~= line + "\n"@ + rest);
        assert(head + tail =~= line + "\n"@ + (rest + tail));
        lemma_first_line(line, rest);
        lemma_first_line(line, rest + tail);
        if rest.len() > 0 {
            assert(rest.last() == head.last());
        }
        lemma_assignments_end(rest, name, value);
        assert(assignments(head) =~= seq![assignment(without_cr(line))] + assignments(rest));
        assert(assignments(head + tail) =~= seq![assignment(without_cr(line))] + assignments(
            rest + tail,
        ));
        assert(assignments(head + tail) =~= assignments(head).push(
            Assignment::Assigned(name, value),
        ));
    }
}

/// The variable for a setting, as it is read back.
pub open spec fn cfg_assignment(
    entries: Seq<(Seq<char>, Seq<char>)>,
    key: Seq<char>,
) -> Assignment {
    Assignment::Assigned(cfg_name(key), separated(listing(cfg_values(entries, key)), ","@))
}

/// Every setting gives a variable that can be read back.
pub open spec fn all_plain(
    entries: Seq<(Seq<char>, Seq<char>)>,
    keys: Seq<Seq<char>>,
) -> bool {
    forall|k: int|
        0 <= k < keys.len() ==> is_plain(
            cfg_name(#[trigger] keys[k]),
            separated(listing(cfg_values(entries, keys[k])), ","@),
        )
}

proof fn lemma_cfg_lines(
    head: Seq<char>,
    entries: Seq<(Seq<char>, Seq<char>)>,
    keys: Seq<Seq<char>>,
)
    requires
        head.len() == 0 || head.last() == '\n',
        all_plain(entries, keys),
    ensures
        assignments(head + cfg_lines(entries, keys)) == assignments(head) + keys.map_values(
            |key: Seq<char>| cfg_assignment(entries, key),
        ),
        (head + cfg_lines(entries, keys)).len() == 0 || (head + cfg_lines(entries, keys)).last()
            == '\n',
    decreases keys.len(),
{
    let read = keys.map_values(|key: Seq<char>| cfg_assignment(entries, key));
    if keys.len() == 0 {
        assert(head + cfg_lines(entries, keys) =~= head);
        assert(assignments(head) + read =~= assignments(head));
    } else {
        reveal_strlit("\n");
        let fewer = keys.drop_last();
        let key = keys.last();
        assert forall|k: int| 0 <= k < fewer.len() implies is_plain(
            cfg_name(#[trigger] fewer[k]),
            separated(listing(cfg_values(entries, fewer[k])), ","@),
        ) by {
            assert(fewer[k] == keys[k]);
        }
        lemma_cfg_lines(head, entries, fewer);
        let before = head + cfg_lines(entries, fewer);
        let value = separated(listing(cfg_values(entries, key)), ","@);
        assert(is_plain(cfg_name(keys[keys.len() - 1]), value));
        lemma_assignments_end(before, cfg_name(key), value);
        assert(cfg_line(entries, key) == cfg_name(key) + "="@ + value + "\n"@);
        assert(head + cfg_lines(entries, keys) =~= before + cfg_line(entries, key));
        assert(read =~= fewer.map_values(|key: Seq<char>| cfg_assignment(entries, key)).push(
            cfg_assignment(entries, key),
        ));
        assert(assignments(head) + read =~= assignments(before).push(
            cfg_assignment(entries, key),
        ));
    }
}

/// The wrapper that sets variables reads back what is written of a target: the host, the target,
/// and every setting of the compiler under its own name, in order.
pub proof fn lemma_target_variables(host: Seq<char>, target: Seq<char>, cfg: Seq<char>)
    requires
        is_plain("HOST"@, host),
        is_plain("TARGET"@, target),
        all_plain(cfg_entries(lines(cfg)), listing(cfg_keys(cfg_entries(lines(cfg))))),
    ensures
        assignments(tuple_lines(host, target) + cfg_file(cfg)) == seq![
            Assignment::Assigned("HOST"@, host),
            Assignment::Assigned("TARGET"@, target),
        ] + listing(cfg_keys(cfg_entries(lines(cfg)))).map_values(
            |key: Seq<char>| cfg_assignment(cfg_entries(lines(cfg)), key),
        ),
{
    reveal_strlit("HOST");
    reveal_strlit("HOST=");
    reveal_strlit("TARGET");
    reveal_strlit("TARGET=");
    reveal_strlit("=");
    reveal_strlit("\n");
    let head = tuple_lines(host, target);
    let second = "TARGET"@ + "="@ + target + "\n"@;
    assert("HOST="@ =~= "HOST"@ + "="@);
    assert("TARGET="@ =~= "TARGET"@ + "="@);
    assert(head =~= "HOST"@ + "="@ + host + "\n"@ + second);
    lemma_first_variable("HOST"@, host, second);
    lemma_first_variable("TARGET"@, target, Seq::empty());
    assert(second + Seq::<char>::empty() =~= second);
    assert(assignments(Seq::empty()) =~= Seq::empty());
    assert(assignments(head) =~= seq![
        Assignment::Assigned("HOST"@, host),
        Assignment::Assigned("TARGET"@, target),
    ]);
    assert(head.last() == '\n');
    let entries = cfg_entries(lines(cfg));
    lemma_cfg_lines(head, entries, listing(cfg_keys(entries)));
}

/// The environment file that a build script's output comes to.
pub open spec fn script_env_file(output: Seq<Seq<char>>) -> Seq<char>
    decreases output.len(),
{
    if output.len() == 0 {
        Seq::empty()
    } else {
        let rest = script_env_file(output.drop_first());
        match line_effect(output[0]) {
            Effect::Env(text) => text + rest,
            _ => rest,
        }
    }
}

/// The settings that a build script's output asks for.
pub open spec fn script_settings(output: Seq<Seq<char>>) -> Seq<Assignment>
    decreases output.len(),
{
    if output.len() == 0 {
        Seq::empty()
    } else {
        let rest = script_settings(output.drop_first());
        match instruction(output[0]) {
            Some((key, value)) => if key == "rustc-env"@ {
                seq![assignment(value)] + rest
            } else {
                rest
            },
            None => rest,
        }
    }
}

/// An instruction's value is the end of its line.
proof fn lemma_value_is_end(line: Seq<char>)
    requires
        instruction(line) is Some,
    ensures
        ({
            let value = (instruction(line)->0).1;
            value.len() <= line.len() && value == line.skip(line.len() - value.len())
        }),
{
    let rest = without_prefix(line, "cargo:"@)->0;
    let rest2 = match without_prefix(rest, ":"@) {
        Some(shorter) => shorter,
        None => rest,
    };
    lemma_position(rest2, '=');
    let value = (instruction(line)->0).1;
    assert(value =~= line.skip(line.len() - value.len()));
}

proof fn lemma_env_effect(key: Seq<char>, value: Seq<char>)
    ensures
        effect(key, value) is Env <==> key == "rustc-env"@,
        key == "rustc-env"@ ==> effect(key, value) == Effect::Env(value + "\n"@),
{
    reveal_strlit("rustc-env");
    reveal_strlit("rustc-link-arg");
    reveal_strlit("rustc-link-lib");
    reveal_strlit("rustc-link-search");
    reveal_strlit("rustc-cfg");
    reveal_strlit("rustc-check-cfg");
    reveal_strlit("rustc-flags");
    if key == "rustc-env"@ {
        assert(key.len() == 9);
        assert("rustc-cfg"@[6] != key[6]);
    }
}

/// The wrapper that sets variables reads back what a build script asked for, line by line.
pub proof fn lemma_script_variables(output: Seq<Seq<char>>)
    requires
        forall|k: int|
            0 <= k < output.len() ==> !(#[trigger] output[k]).contains('\n') && (output[k].len() > 0
                ==> output[k].last() != '\r'),
    ensures
        assignments(script_env_file(output)) == script_settings(output),
    decreases output.len(),
{
    if output.len() == 0 {
        assert(assignments(script_env_file(output)) =~= script_settings(output));
    } else {
        let line = output[0];
        let less = output.drop_first();
        assert forall|k: int| 0 <= k < less.len() implies !(#[trigger] less[k]).contains('\n') && (
        less[k].len() > 0 ==> less[k].last() != '\r') by {
            assert(less[k] == output[k + 1]);
        }
        lemma_script_variables(less);
        match instruction(line) {
            Some((key, value)) => {
                lemma_env_effect(key, value);
                if key == "rustc-env"@ {
                    lemma_value_is_end(line);
                    assert(!value.contains('\n')) by {
                        if value.contains('\n') {
                            let k = choose|k: int| 0 <= k < value.len() && value[k] == '\n';
                            assert(line[line.len() - value.len() + k] == '\n');
                        }
                    }
                    if value.len() > 0 {
                        assert(value.last() == line.last());
                    }
                    let rest = script_env_file(less);
                    lemma_first_line(value, rest);
                    assert(script_env_file(output) =~= value + "\n"@ + rest);
                    assert(assignments(script_env_file(output)) =~= seq![assignment(value)]
                        + assignments(rest));
                }
            },
            None => {},
        }
    }
}

} // verus!
