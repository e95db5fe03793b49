//! The command line, the packages, the programs and the store.
use crate::derivation::{
    references_of, ContentAddressMethod, Input, OutputName,
};
use crate::package::{directory, has_directory, manifest_argument};
use crate::path::{file_name_of, is_normal, joined, names, parent_of, DOT, SLASH};
use crate::path_laws::{is_name, lemma_joined, lemma_name_added, lemma_parent, leads_off};
use crate::store::{socket_path, target_env_recipe, wrapper_recipe};
use crate::survey::{crate_root_of, long_text, survey_args};
use crate::text::{separated, texts};
use crate::tools::{entry_of, first_failure, needed, Searches, Tool, ToolError, Tools};
use crate::unit_drv::{OwnOutputs, UnitCache};
use crate::unit_graph::{discover_args, Unit};
use vstd::prelude::*;
use vstd::utf8::encode_utf8;

verus! {

/// The option that names the manifest, in its short or its long form.
pub open spec fn is_manifest_option(arg: Seq<char>) -> bool {
    arg == "-m"@ || arg == "--manifest-path"@
}

proof fn lemma_manifest_from(args: Seq<Seq<char>>, from: int)
    requires
        0 <= from,
    ensures
        match manifest_argument(args, from) {
            Some(k) => {
                &&& from < k < args.len()
                &&& is_manifest_option(args[k - 1])
                &&& forall|i: int|
                    k < i < args.len() - 1 ==> !is_manifest_option(#[trigger] args[i])
                &&& exists|j: int| is_run(args, from, j, k)
            },
            None => forall|i: int|
                from <= i < args.len() - 1 ==> !is_manifest_option(#[trigger] args[i]),
        },
    decreases args.len() - from,
{
    if from < args.len() - 1 {
        if is_manifest_option(args[from]) {
            lemma_manifest_from(args, from + 2);
            match manifest_argument(args, from + 2) {
                Some(k) => {
                    let next = from + 2;
                    let j = choose|j: int| is_run(args, next, j, k);
                    if j == from + 2 && is_manifest_option(args[from + 1]) {
                        assert(is_run(args, from, from, k));
                    } else {
                        assert(is_run(args, from, j, k));
                    }
                },
                None => {
                    assert(is_run(args, from, from, from + 1));
                },
            }
        } else {
            lemma_manifest_from(args, from + 1);
            if let Some(k) = manifest_argument(args, from + 1) {
                let next = from + 1;
                let j = choose|j: int| is_run(args, next, j, k);
                assert(is_run(args, from, j, k));
            }
        }
    }
}

/// The arguments from `j` to `k` are an odd number of options, as many as there are in a row.
pub open spec fn is_run(args: Seq<Seq<char>>, from: int, j: int, k: int) -> bool {
    &&& from <= j < k
    &&& (k - j) % 2 == 1
    &&& forall|i: int| j <= i < k ==> is_manifest_option(#[trigger] args[i])
    &&& j == from || !is_manifest_option(args[j - 1])
}

/// The manifest that the command line names is the value after `-m` or `--manifest-path`; if there
/// are several, after the last that has one. An option that is itself such a value does not count.
pub proof fn lemma_manifest(args: Seq<Seq<char>>)
    ensures
        match manifest_argument(args, 1) {
            Some(k) => {
                &&& 2 <= k < args.len()
                &&& is_manifest_option(args[k - 1])
                &&& forall|i: int|
                    k < i < args.len() - 1 ==> !is_manifest_option(#[trigger] args[i])
                &&& exists|j: int| is_run(args, 1, j, k)
            },
            None => forall|i: int|
                1 <= i < args.len() - 1 ==> !is_manifest_option(#[trigger] args[i]),
        },
{
    lemma_manifest_from(args, 1);
}

/// A single option names the manifest, in either form and wherever it stands.
pub proof fn lemma_one_manifest(args: Seq<Seq<char>>, i: int)
    requires
        1 <= i < args.len() - 1,
        args[i] == "-m"@ || args[i] == "--manifest-path"@,
        forall|j: int| 1 <= j < args.len() && j != i ==> !is_manifest_option(#[trigger] args[j]),
    ensures
        manifest_argument(args, 1) == Some(i + 1),
{
    lemma_manifest(args);
    if let Some(k) = manifest_argument(args, 1) {
        assert(is_manifest_option(args[k - 1]));
    } else {
        assert(is_manifest_option(args[i]));
    }
}

/// A file in a directory belongs to that directory.
pub proof fn lemma_directory(file: Seq<char>, dir: Seq<u8>, name: Seq<u8>)
    requires
        encode_utf8(file) == joined(dir, name),
        is_name(name),
        name != seq![DOT],
    ensures
        has_directory(file),
        directory(file) == names(dir),
{
    lemma_plain_name(name);
    lemma_joined(dir, name);
    lemma_name_added(dir, name);
    assert(names(encode_utf8(file)).last() == name);
    assert(directory(file) =~= names(dir));
}

proof fn lemma_plain_name(name: Seq<u8>)
    requires
        is_name(name),
        name != seq![DOT],
    ensures
        !leads_off(name),
        name != seq![SLASH],
{
    assert(name.contains(name[0]));
    if name.len() > 1 {
        assert(name.contains(name[1]));
    } else {
        assert(name =~= seq![name[0]]);
    }
}

/// What is put into a directory is found to be its entry, however far below it a path leads.
pub proof fn lemma_entry(dir: Seq<u8>, entry: Seq<u8>, rest: Seq<u8>)
    requires
        is_name(entry),
        entry != seq![DOT],
        entry != seq![DOT, DOT],
        !leads_off(rest),
    ensures
        entry_of(dir, joined(joined(dir, entry), rest)) == Some(entry),
{
    let p = joined(joined(dir, entry), rest);
    lemma_plain_name(entry);
    lemma_name_added(dir, entry);
    lemma_joined(dir, entry);
    lemma_joined(joined(dir, entry), rest);
    let n = names(dir).len() as int;
    assert(names(p) =~= names(dir) + seq![entry] + names(rest));
    assert(names(dir) =~= names(p).subrange(0, n));
    assert(names(p)[n] == entry);
}

/// Only what a path leads through, directly below the directory, is found, and only a plain name.
pub proof fn lemma_entry_only(dir: Seq<u8>, p: Seq<u8>)
    ensures
        entry_of(dir, p) matches Some(entry) ==> {
            &&& names(dir).push(entry).is_prefix_of(names(p))
            &&& entry != seq![SLASH]
            &&& entry != seq![DOT]
            &&& entry != seq![DOT, DOT]
        },
{
    if let Some(entry) = entry_of(dir, p) {
        let n = names(dir).len() as int;
        assert forall|k: int| 0 <= k < n implies names(dir)[k] == names(p)[k] by {
            assert(names(p).subrange(0, n)[k] == names(p)[k]);
        }
        assert(names(dir).push(entry) =~= names(p).subrange(0, n + 1));
    }
}

/// A failure is reported if it is the first; there is none if and only if all searches succeed.
pub proof fn lemma_first_failure(s: Seq<Result<Tool, ToolError>>)
    ensures
        match first_failure(s) {
            Some(e) => exists|k: int|
                0 <= k < s.len() && (#[trigger] s[k]) == Err::<Tool, ToolError>(e) && forall|j: int|
                    0 <= j < k ==> (#[trigger] s[j]) is Ok,
            None => forall|k: int| 0 <= k < s.len() ==> (#[trigger] s[k]) is Ok,
        },
    decreases s.len(),
{
    if s.len() > 0 && s[0] is Ok {
        let t = s.drop_first();
        lemma_first_failure(t);
        match first_failure(t) {
            Some(e) => {
                let k = choose|k: int|
                    0 <= k < t.len() && (#[trigger] t[k]) == Err::<Tool, ToolError>(e) && forall|
                        j: int,
                    | 0 <= j < k ==> (#[trigger] t[j]) is Ok;
                assert forall|j: int| 0 <= j < k + 1 implies (#[trigger] s[j]) is Ok by {
                    if j > 0 {
                        assert(t[j - 1] == s[j]);
                    }
                }
                assert(s[k + 1] == Err::<Tool, ToolError>(e));
            },
            None => {
                assert forall|k: int| 0 <= k < s.len() implies (#[trigger] s[k]) is Ok by {
                    if k > 0 {
                        assert(t[k - 1] == s[k]);
                    }
                }
            },
        }
    } else if s.len() > 0 {
        assert(s[0] == Err::<Tool, ToolError>(s[0]->Err_0));
    }
}

/// The compilers for C and C++ are needed first, then the Rust compiler, Cargo, the wrappers and
/// `ln`, in this order; a host compiler is not needed.
pub proof fn lemma_needed(s: Searches)
    ensures
        s.cc matches Err(e) ==> first_failure(needed(s)) == Some(e),
        s.cc is Ok ==> (s.cxx matches Err(e) ==> first_failure(needed(s)) == Some(e)),
        s.cc is Ok && s.cxx is Ok ==> (s.rustc matches Err(e) ==> first_failure(needed(s)) == Some(
            e,
        )),
        s.cc is Ok && s.cxx is Ok && s.rustc is Ok ==> (s.cargo matches Err(e) ==> first_failure(
            needed(s),
        ) == Some(e)),
        s.cc is Ok && s.cxx is Ok && s.rustc is Ok && s.cargo is Ok ==> (
        s.env_wrap matches Err(e) ==> first_failure(needed(s)) == Some(e)),
        s.cc is Ok && s.cxx is Ok && s.rustc is Ok && s.cargo is Ok && s.env_wrap is Ok ==> (
        s.build_wrap matches Err(e) ==> first_failure(needed(s)) == Some(e)),
        s.cc is Ok && s.cxx is Ok && s.rustc is Ok && s.cargo is Ok && s.env_wrap is Ok
            && s.build_wrap is Ok ==> (s.target_env matches Err(e) ==> first_failure(needed(s))
            == Some(e)),
        s.cc is Ok && s.cxx is Ok && s.rustc is Ok && s.cargo is Ok && s.env_wrap is Ok
            && s.build_wrap is Ok && s.target_env is Ok ==> (s.ln matches Err(e) ==> first_failure(
            needed(s),
        ) == Some(e)),
        s.cc is Ok && s.cxx is Ok && s.rustc is Ok && s.cargo is Ok && s.env_wrap is Ok
            && s.build_wrap is Ok && s.target_env is Ok && s.ln is Ok ==> first_failure(needed(s))
            is None,
{
    reveal_with_fuel(first_failure, 9);
}

/// The daemon is reached at the path that the environment names, with or without `unix://` before
/// it, and else at its usual place.
pub proof fn lemma_socket(path: Seq<char>)
    ensures
        socket_path(Some("unix://"@ + path)) == path,
        !"unix://"@.is_prefix_of(path) ==> socket_path(Some(path)) == path,
        socket_path(None) == "/nix/var/nix/daemon-socket/socket"@,
{
    crate::laws::text::lemma_prefix("unix://"@, path);
}

/// The wrapper is a link: `ln -s` from the output of the unit's derivation to its own.
pub proof fn lemma_link_wrapper(
    base_name: Seq<char>,
    unit_name: Seq<char>,
    ln: Tool,
    base: UnitCache,
    own: OwnOutputs,
    platform: Seq<u8>,
    i: Input,
)
    ensures
        ({
            let drv = wrapper_recipe(base_name, unit_name, ln, base, own, platform);
            &&& drv.name == base_name + seq!['-'] + unit_name
            &&& drv.platform == platform
            &&& drv.builder == ln.real_path@
            &&& drv.args.len() == 3
            &&& drv.args[0] == encode_utf8("-s"@)
            &&& drv.args[1] == encode_utf8(base.out@)
            &&& drv.args[2] == encode_utf8(own.out@)
            &&& drv.inputs.contains(i) <==> i == Input::Built(base.drv_path@, OutputName::Out) || i
                == Input::Opaque(ln.store_path@)
            &&& drv.outputs.contains_key(OutputName::Out)
            &&& !drv.outputs.contains_key(OutputName::Flags)
            &&& drv.outputs[OutputName::Out] == ContentAddressMethod::Flat
            &&& forall|key: Seq<u8>| !#[trigger] drv.env.contains_key(key)
        }),
{
    reveal_strlit("-");
    assert("-"@ =~= seq!['-']);
}

/// The compiler is asked about the target by a program that is told the compiler, the target if
/// there is one, and where the answer belongs.
pub proof fn lemma_target_question(
    tools: Tools,
    target: Option<Seq<char>>,
    own: OwnOutputs,
    platform: Seq<u8>,
    i: Input,
)
    ensures
        ({
            let drv = target_env_recipe(tools, target, own, platform);
            &&& target matches Some(t) ==> drv.name == "cargo-cfg-"@ + t && drv.args[1]
                == encode_utf8(t)
            &&& target is None ==> drv.name == "cargo-cfg-host"@ && drv.args[1]
                == Seq::<u8>::empty()
            &&& drv.platform == platform
            &&& drv.builder == tools.target_env.real_path@
            &&& drv.args.len() == 3
            &&& drv.args[0] == tools.rustc.real_path@
            &&& drv.args[2] == encode_utf8(own.out@)
            &&& drv.inputs.contains(i) <==> i == Input::Opaque(tools.rustc.store_path@) || i
                == Input::Opaque(tools.target_env.store_path@)
            &&& drv.outputs.contains_key(OutputName::Out)
            &&& !drv.outputs.contains_key(OutputName::Flags)
            &&& drv.outputs[OutputName::Out] == ContentAddressMethod::Flat
            &&& forall|key: Seq<u8>| !#[trigger] drv.env.contains_key(key)
        }),
{
    reveal_strlit("");
    reveal_strlit("cargo-cfg-");
    reveal_strlit("host");
    reveal_strlit("cargo-cfg-host");
    assert(""@ =~= Seq::empty());
    assert(encode_utf8(Seq::<char>::empty()) =~= Seq::empty());
    assert("cargo-cfg-"@ + "host"@ =~= "cargo-cfg-host"@);
}

/// A derivation's file refers to every object that it is built from directly, and to every
/// derivation of which it uses an output.
pub proof fn lemma_references(inputs: Set<Input>, path: Seq<char>)
    ensures
        references_of(inputs).contains(path) <==> {
            ||| inputs.contains(Input::Opaque(path))
            ||| inputs.contains(Input::Built(path, OutputName::Out))
            ||| inputs.contains(Input::Built(path, OutputName::Flags))
        },
{
    let refs = references_of(inputs);
    if refs.contains(path) {
        let i = choose|i: Input| inputs.contains(i) && crate::derivation::root_of(i) == path;
        match i {
            Input::Opaque(_) => {},
            Input::Built(_, OutputName::Out) => {},
            Input::Built(_, OutputName::Flags) => {},
        }
    }
    if inputs.contains(Input::Opaque(path)) {
        assert(crate::derivation::root_of(Input::Opaque(path)) == path);
    }
    if inputs.contains(Input::Built(path, OutputName::Out)) {
        assert(crate::derivation::root_of(Input::Built(path, OutputName::Out)) == path);
    }
    if inputs.contains(Input::Built(path, OutputName::Flags)) {
        assert(crate::derivation::root_of(Input::Built(path, OutputName::Flags)) == path);
    }
}

proof fn lemma_src()
    ensures
        is_name(encode_utf8("src"@)),
        is_normal(encode_utf8("src"@)),
{
    reveal_strlit("src");
    reveal_with_fuel(encode_utf8, 4);
    assert(0x73u32 & 0x7f == 0x73) by (bit_vector);
    assert(0x72u32 & 0x7f == 0x72) by (bit_vector);
    assert(0x63u32 & 0x7f == 0x63) by (bit_vector);
    assert("src"@.drop_first().drop_first().drop_first() =~= Seq::empty());
    assert(encode_utf8("src"@) =~= seq![0x73u8, 0x72u8, 0x63u8]);
}

/// A file in the directory `src` belongs to the package in the directory above; a file in another
/// directory to the package in that one.
pub proof fn lemma_package_directory(dir: Seq<u8>, name: Seq<u8>)
    requires
        is_name(name),
        name != seq![DOT],
    ensures
        ({
            let file = joined(joined(dir, encode_utf8("src"@)), name);
            crate_root_of(file) matches Some(root) && names(root) == names(dir)
        }),
        names(dir).len() == 0 || names(dir).last() != encode_utf8("src"@) ==> {
            crate_root_of(joined(dir, name)) matches Some(root) && names(root) == names(dir)
        },
{
    let src = encode_utf8("src"@);
    lemma_src();
    lemma_plain_name(name);
    lemma_plain_name(src);
    lemma_name_added(dir, name);
    lemma_name_added(dir, src);
    lemma_joined(dir, src);
    lemma_joined(dir, name);

    let below = joined(dir, src);
    let file = joined(below, name);
    lemma_joined(below, name);
    assert(names(file).last() == name);
    assert(names(file).len() == crate::path::components(file).len());
    assert(parent_of(file) is Some);
    let parent = parent_of(file)->0;
    lemma_parent(file);
    assert(names(parent) =~= names(below));
    assert(names(parent).last() == src);
    assert(file_name_of(parent) == Some(src));
    assert(names(parent).len() == crate::path::components(parent).len());
    assert(parent_of(parent) is Some);
    lemma_parent(parent);
    assert(names(parent_of(parent)->0) =~= names(dir));

    if names(dir).len() == 0 || names(dir).last() != src {
        let other = joined(dir, name);
        assert(names(other).last() == name);
        assert(names(other).len() == crate::path::components(other).len());
        assert(parent_of(other) is Some);
        lemma_parent(other);
        assert(names(parent_of(other)->0) =~= names(dir));
    }
}

/// A long option is two dashes, its name, `=` and its value.
pub proof fn lemma_long_text(option: Seq<char>, value: Seq<char>)
    ensures
        long_text(option, value) == seq!['-', '-'] + option + seq!['='] + value,
{
    reveal_strlit("--");
    reveal_strlit("=");
    assert("--"@ =~= seq!['-', '-']);
    assert("="@ =~= seq!['=']);
}

/// A survey names the crate, its edition, its main file and all of its types.
pub proof fn lemma_survey_args(unit: Unit, file: Seq<char>)
    ensures
        survey_args(unit, file).len() == 4,
        survey_args(unit, file)[0] == "--crate-name="@ + unit.target.name@,
        survey_args(unit, file)[1] == "--edition="@ + unit.target.edition@,
        survey_args(unit, file)[2] == file,
        survey_args(unit, file)[3] == "----crate-type="@ + separated(
            texts(unit.target.crate_types@),
            seq![','],
        ),
{
    reveal_strlit("--");
    reveal_strlit("=");
    reveal_strlit("crate-name");
    reveal_strlit("--crate-name=");
    reveal_strlit("edition");
    reveal_strlit("--edition=");
    reveal_strlit("--crate-type");
    reveal_strlit("----crate-type=");
    reveal_strlit(",");
    assert("--"@ + "crate-name"@ + "="@ =~= "--crate-name="@);
    assert("--"@ + "edition"@ + "="@ =~= "--edition="@);
    assert("--"@ + "--crate-type"@ + "="@ =~= "----crate-type="@);
    assert(","@ =~= seq![',']);
}

/// Cargo is given the command as it is, and then told to print the graph instead.
pub proof fn lemma_discover_args(args: Seq<Seq<char>>)
    ensures
        discover_args(args).len() == args.len() + 3,
        forall|k: int| 0 <= k < args.len() ==> (#[trigger] discover_args(args)[k]) == args[k],
        discover_args(args)[args.len() as int] == "-Z"@,
        discover_args(args)[args.len() as int + 1] == "unstable-options"@,
        discover_args(args)[args.len() as int + 2] == "--unit-graph"@,
{
}

} // verus!
