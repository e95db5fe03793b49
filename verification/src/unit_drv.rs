//! What the derivations of all units have in common.
use std::collections::VecDeque;

use crate::derivation::{EnvMap, Placeholder, StorePath};
use crate::package::{add_metadata_env, metadata_env, Package};
use crate::path::{parent_of, UnixPath};
use crate::tools::{base_env, Tools};
use crate::unit_graph::Unit;
use crate::util::{all_contents, bytes_from_string, contents, text_bytes, CloneBytes};
use bytes::Bytes;
use vstd::prelude::*;
use vstd::utf8::encode_utf8;

verus! {

/// What later units need to know of a unit.
#[derive(Debug)]
pub struct UnitCacheMeta {
    /// The file name of the library, without its extension.
    pub base_name: Option<String>,
    /// The unit is a build script's run, with flags among its outputs.
    pub custom_output: bool,
    /// The package links to a native library.
    pub has_links: bool,
}

impl Default for UnitCacheMeta {
    fn default() -> (r: Self)
        ensures
            r.base_name is None,
            !r.custom_output,
            !r.has_links,
    {
        UnitCacheMeta { base_name: None, custom_output: false, has_links: false }
    }
}

/// A unit whose derivation is in the store.
#[derive(Debug)]
pub struct UnitCache {
    pub drv_path: StorePath,
    /// Stands for its output `out`.
    pub out: Placeholder,
    /// Stands for its output `flags`.
    pub flags: Placeholder,
    pub meta: UnitCacheMeta,
}

/// What stands for the outputs of a derivation inside the derivation itself.
#[derive(Debug)]
pub struct OwnOutputs {
    pub out: Placeholder,
    pub flags: Placeholder,
}

/// A package's source in the store.
#[derive(Debug)]
pub struct SourceTree {
    pub store_path: StorePath,
    pub absolute_path: UnixPath,
}

/// Why a unit has no derivation.
#[derive(PartialEq, Eq, Structural, Copy, Clone, Debug)]
pub enum DrvError {
    /// The unit does not have exactly one crate type.
    UnexpectedCrateTypes,
    /// The crate's main file is not below the directory of its manifest.
    OutsideCrateRoot,
    /// A build script's run does not depend on the script.
    NothingToRun,
    /// The dependency with this index in the package's extra dependencies is no store path.
    InvalidExtraDep(usize),
}

/// The file with the flags for the package's own crates.
pub const SCRIPT_IMMEDIATE_ARGS: &'static str = "args-immediate";

/// The file with the flags for everything that depends on the package.
pub const SCRIPT_TRANSITIVE_ARGS: &'static str = "args-transitive";

/// The file with the environment for the package's own crates.
pub const SCRIPT_IMMEDIATE_ENV: &'static str = "env";

/// The file with what the build scripts of other packages are told.
pub const SCRIPT_METADATA_ENV: &'static str = "metadata";

/// The unit that is depended on is in the store.
pub open spec fn is_cached(cache: Seq<Option<UnitCache>>, i: usize) -> bool {
    i < cache.len() && cache[i as int] is Some
}

/// All units that a unit depends on directly are in the store.
pub open spec fn deps_cached(unit: Unit, cache: Seq<Option<UnitCache>>) -> bool {
    forall|d: int|
        0 <= d < unit.dependencies@.len() ==> is_cached(
            cache,
            (#[trigger] unit.dependencies@[d]).index,
        )
}

/// What is known of the unit that is depended on.
pub open spec fn dep_cache(unit: Unit, cache: Seq<Option<UnitCache>>, d: int) -> UnitCache {
    cache[unit.dependencies@[d].index as int]->0
}

/// The path of a file in a directory that is given as text.
pub open spec fn joined_text(base: Seq<char>, rest: Seq<char>) -> Seq<char> {
    if rest.len() > 0 && rest[0] == '/' {
        rest
    } else if base.len() > 0 && base.last() != '/' {
        base.push('/') + rest
    } else {
        base + rest
    }
}

/// Appends a path to a directory; an absolute path takes its place.
pub fn join_text(base: &str, rest: &str) -> (r: String)
    ensures
        r@ == joined_text(base@, rest@),
{
    let b = crate::text::to_chars(base);
    let c = crate::text::to_chars(rest);
    if c.len() > 0 && c[0] == '/' {
        return rest.to_owned();
    }
    proof {
        reveal_strlit("/");
    }
    let mut r = base.to_owned();
    if b.len() > 0 && b[b.len() - 1] != '/' {
        r.append("/");
        assert(r@ =~= base@.push('/'));
    }
    r.append(rest);
    r
}

/// Adds an argument at the end.
pub fn push_back_arg(args: &mut VecDeque<Bytes>, arg: Bytes)
    ensures
        all_contents(final(args)@) == all_contents(old(args)@).push(contents(arg)),
{
    args.push_back(arg);
    assert(all_contents(args@) =~= all_contents(old(args)@).push(contents(arg)));
}

/// Adds an argument at the front.
pub fn push_front_arg(args: &mut VecDeque<Bytes>, arg: Bytes)
    ensures
        all_contents(final(args)@) == seq![contents(arg)] + all_contents(old(args)@),
{
    args.push_front(arg);
    assert(all_contents(args@) =~= seq![contents(arg)] + all_contents(old(args)@));
}

/// An option in its long form.
pub open spec fn long_arg(option: Seq<char>, value: Seq<char>) -> Seq<u8> {
    encode_utf8("--"@ + option + "="@ + value)
}

/// A code generation option.
pub open spec fn codegen_args(option: Seq<char>, value: Seq<char>) -> Seq<Seq<u8>> {
    seq![encode_utf8("-C"@), encode_utf8(option + "="@ + value)]
}

/// The configuration option that switches a feature on.
pub open spec fn feature_args(feature: Seq<char>) -> Seq<Seq<u8>> {
    seq![encode_utf8("--cfg"@), encode_utf8("feature=\""@ + feature + "\""@)]
}

/// Adds `--option=value`.
pub fn add_long(args: &mut VecDeque<Bytes>, option: &str, value: &str)
    ensures
        all_contents(final(args)@) == all_contents(old(args)@).push(long_arg(option@, value@)),
{
    let arg = "--".to_owned().concat(option).concat("=").concat(value);
    push_back_arg(args, bytes_from_string(arg));
}

/// Adds `-C option=value`.
pub fn add_codegen(args: &mut VecDeque<Bytes>, option: &str, value: &str)
    ensures
        all_contents(final(args)@) == all_contents(old(args)@) + codegen_args(option@, value@),
{
    push_back_arg(args, text_bytes("-C"));
    push_back_arg(args, bytes_from_string(option.to_owned().concat("=").concat(value)));
    assert(all_contents(args@) =~= all_contents(old(args)@) + codegen_args(option@, value@));
}

/// Adds `--cfg feature="..."`.
pub fn add_feature(args: &mut VecDeque<Bytes>, feature: &str)
    ensures
        all_contents(final(args)@) == all_contents(old(args)@) + feature_args(feature@),
{
    push_back_arg(args, text_bytes("--cfg"));
    push_back_arg(
        args,
        bytes_from_string("feature=\"".to_owned().concat(feature).concat("\"")),
    );
    assert(all_contents(args@) =~= all_contents(old(args)@) + feature_args(feature@));
}

/// The first argument, and the others in order.
pub fn split_builder(args: VecDeque<Bytes>) -> (r: (Bytes, Vec<Bytes>))
    requires
        args@.len() > 0,
    ensures
        contents(r.0) == all_contents(args@)[0],
        all_contents(r.1@) == all_contents(args@).drop_first(),
{
    let mut args = args;
    let ghost all = args@;
    let builder = args.pop_front().unwrap();
    let mut rest: Vec<Bytes> = Vec::new();
    assert(all =~= seq![builder] + rest@ + args@);
    while args.len() > 0
        invariant
            all =~= seq![builder] + rest@ + args@,
        decreases args@.len(),
    {
        let ghost before = rest@;
        let ghost left = args@;
        let arg = args.pop_front().unwrap();
        rest.push(arg);
        assert(seq![builder] + before + left =~= seq![builder] + rest@ + args@);
    }
    assert(all_contents(rest@) =~= all_contents(all).drop_first());
    (builder, rest)
}

/// The platform that all builds are for, as Rust names it.
pub const TARGET_TRIPLE: &'static str = "x86_64-unknown-linux-gnu";

/// The environment that the builds of all units have.
pub open spec fn unit_env(rustc: Seq<u8>, package: Package, src: Seq<u8>) -> Map<
    Seq<u8>,
    Seq<u8>,
> {
    metadata_env(
        base_env(rustc).insert(encode_utf8("HOST"@), encode_utf8(TARGET_TRIPLE@)).insert(
            encode_utf8("TARGET"@),
            encode_utf8(TARGET_TRIPLE@),
        ).insert(encode_utf8("CARGO_CFG_TARGET_OS"@), encode_utf8("linux"@)),
        package,
    ).insert(encode_utf8("CARGO_MANIFEST_DIR"@), src)
}

/// Sets up the environment that the builds of all units have.
pub fn unit_environment(tools: &Tools, package: &Package, src: &UnixPath) -> (env: EnvMap)
    requires
        parent_of(tools.rustc.real_path@) is Some,
    ensures
        env.wf(),
        env@ == unit_env(tools.rustc.real_path@, *package, src@),
{
    let mut env = tools.base_environment();
    env.insert(text_bytes("HOST"), text_bytes(TARGET_TRIPLE));
    env.insert(text_bytes("TARGET"), text_bytes(TARGET_TRIPLE));
    env.insert(text_bytes("CARGO_CFG_TARGET_OS"), text_bytes("linux"));
    add_metadata_env(&mut env, package);
    env.insert(text_bytes("CARGO_MANIFEST_DIR"), src.clone_bytes());
    env
}

} // verus!
