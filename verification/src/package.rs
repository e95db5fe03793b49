//! What `cargo metadata` tells of a package.
use crate::derivation::EnvMap;
use crate::path::{file_name_of, is_normal, names, SLASH};
use crate::text::{decimal, decimal_string, texts};
use crate::util::{bytes_from_string, text_bytes};
use vstd::prelude::*;
use vstd::utf8::encode_utf8;

verus! {

/// A package and its version.
#[derive(Debug)]
pub struct Package {
    pub id: String,
    pub manifest_path: String,
    pub links: Option<String>,
    /// The version as it is written in full.
    pub version: String,
    pub version_major: u64,
    pub version_minor: u64,
    pub version_patch: u64,
    pub version_pre: String,
}

/// Where a unit's source is, and what its derivation is called.
#[derive(Debug)]
pub struct UnitSource {
    /// The directory of the package's manifest.
    pub crate_root: String,
    /// The name of that directory.
    pub drv_name: String,
}

/// Why a package has no usable source.
#[derive(PartialEq, Eq, Structural, Copy, Clone, Debug)]
pub enum SourceError {
    /// The manifest is not in any directory.
    NoSourcePath,
    /// The directory has no name.
    EmptyPath,
}

/// `Utf8Path::parent` of the `camino` crate, on Unix: the path without its last component, which
/// is there unless the path is empty or the root. Nothing is said of the text of the result beyond
/// the components that it leads through.
#[verifier::external_body]
pub(crate) fn utf8_parent<'a>(path: &'a str) -> (r: Option<&'a str>)
    ensures
        match r {
            Some(dir) => {
                &&& names(encode_utf8(path@)).len() > 0
                &&& names(encode_utf8(path@)).last() != seq![SLASH]
                &&& names(encode_utf8(dir@)) == names(encode_utf8(path@)).drop_last()
            },
            None => {
                ||| names(encode_utf8(path@)).len() == 0
                ||| names(encode_utf8(path@)).last() == seq![SLASH]
            },
        },
{
    match cargo_metadata::camino::Utf8Path::new(path).parent() {
        Some(dir) => Some(dir.as_str()),
        None => None,
    }
}

/// `Utf8Path::file_name` of the `camino` crate, on Unix: the last component, if it is a plain
/// name.
#[verifier::external_body]
pub(crate) fn utf8_file_name<'a>(path: &'a str) -> (r: Option<&'a str>)
    ensures
        match r {
            Some(name) => file_name_of(encode_utf8(path@)) == Some(encode_utf8(name@)),
            None => file_name_of(encode_utf8(path@)) is None,
        },
{
    cargo_metadata::camino::Utf8Path::new(path).file_name()
}

/// The components of the directory that a file is in.
pub open spec fn directory(file: Seq<char>) -> Seq<Seq<u8>> {
    names(encode_utf8(file)).drop_last()
}

/// The file is in some directory: the path is neither empty nor the root.
pub open spec fn has_directory(file: Seq<char>) -> bool {
    let n = names(encode_utf8(file));
    n.len() > 0 && n.last() != seq![SLASH]
}

/// Finds the directory that a package's manifest is in, and names the derivation after it.
pub fn unit_source(manifest_path: &str) -> (r: Result<UnitSource, SourceError>)
    ensures
        match r {
            Ok(source) => {
                &&& has_directory(manifest_path@)
                &&& names(encode_utf8(source.crate_root@)) == directory(manifest_path@)
                &&& directory(manifest_path@).len() > 0
                &&& is_normal(directory(manifest_path@).last())
                &&& encode_utf8(source.drv_name@) == directory(manifest_path@).last()
            },
            Err(SourceError::NoSourcePath) => !has_directory(manifest_path@),
            Err(SourceError::EmptyPath) => {
                &&& has_directory(manifest_path@)
                &&& directory(manifest_path@).len() == 0 || !is_normal(
                    directory(manifest_path@).last(),
                )
            },
        },
{
    match utf8_parent(manifest_path) {
        Some(crate_root) => match utf8_file_name(crate_root) {
            Some(name) => Ok(
                UnitSource { crate_root: crate_root.to_owned(), drv_name: name.to_owned() },
            ),
            None => Err(SourceError::EmptyPath),
        },
        None => Err(SourceError::NoSourcePath),
    }
}

/// The name under which a package's source is kept in the store.
pub fn source_name(drv_name: &str) -> (r: String)
    ensures
        r@ == drv_name@ + "-src"@,
{
    drv_name.to_owned().concat("-src")
}

/// The environment with the package's version in it.
pub open spec fn metadata_env(env: Map<Seq<u8>, Seq<u8>>, meta: Package) -> Map<Seq<u8>, Seq<u8>> {
    env.insert(encode_utf8("CARGO_PKG_VERSION"@), encode_utf8(meta.version@)).insert(
        encode_utf8("CARGO_PKG_VERSION_MAJOR"@),
        encode_utf8(decimal(meta.version_major as nat)),
    ).insert(
        encode_utf8("CARGO_PKG_VERSION_MINOR"@),
        encode_utf8(decimal(meta.version_minor as nat)),
    ).insert(
        encode_utf8("CARGO_PKG_VERSION_PATCH"@),
        encode_utf8(decimal(meta.version_patch as nat)),
    ).insert(encode_utf8("CARGO_PKG_VERSION_PRE"@), encode_utf8(meta.version_pre@))
}

/// Tells a build the version of the package that it builds.
pub fn add_metadata_env(env: &mut EnvMap, meta: &Package)
    requires
        old(env).wf(),
    ensures
        final(env).wf(),
        final(env)@ == metadata_env(old(env)@, *meta),
{
    env.insert(text_bytes("CARGO_PKG_VERSION"), text_bytes(meta.version.as_str()));
    env.insert(
        text_bytes("CARGO_PKG_VERSION_MAJOR"),
        bytes_from_string(decimal_string(meta.version_major)),
    );
    env.insert(
        text_bytes("CARGO_PKG_VERSION_MINOR"),
        bytes_from_string(decimal_string(meta.version_minor)),
    );
    env.insert(
        text_bytes("CARGO_PKG_VERSION_PATCH"),
        bytes_from_string(decimal_string(meta.version_patch)),
    );
    env.insert(text_bytes("CARGO_PKG_VERSION_PRE"), text_bytes(meta.version_pre.as_str()));
}

/// The package with an id. Where several have it, the last of them counts.
pub fn find_package(packages: &Vec<Package>, id: &str) -> (r: Option<usize>)
    ensures
        match r {
            Some(k) => {
                &&& k < packages@.len()
                &&& packages@[k as int].id@ == id@
                &&& forall|j: int| k < j < packages@.len() ==> (#[trigger] packages@[j]).id@ != id@
            },
            None => forall|j: int|
                0 <= j < packages@.len() ==> (#[trigger] packages@[j]).id@ != id@,
        },
{
    let wanted = id.to_owned();
    let mut k: usize = packages.len();
    while k > 0
        invariant
            wanted@ == id@,
            k <= packages@.len(),
            forall|j: int| k <= j < packages@.len() ==> (#[trigger] packages@[j]).id@ != id@,
        decreases k,
    {
        k = k - 1;
        if packages[k].id == wanted {
            return Some(k);
        }
    }
    None
}

/// The index of the value that the last `-m` or `--manifest-path` is given among the arguments
/// from `from` on, where the last argument names no option.
pub open spec fn manifest_argument(args: Seq<Seq<char>>, from: int) -> Option<int>
    decreases args.len() - from,
{
    if from >= args.len() - 1 {
        None
    } else if args[from] == "-m"@ || args[from] == "--manifest-path"@ {
        match manifest_argument(args, from + 2) {
            Some(k) => Some(k),
            None => Some(from + 1),
        }
    } else {
        manifest_argument(args, from + 1)
    }
}

/// Finds the manifest that the command line names: an index into the arguments, of which the
/// first is the program itself.
pub fn manifest_path_argument(args: &Vec<String>) -> (r: Option<usize>)
    ensures
        match r {
            Some(k) => k < args@.len() && manifest_argument(texts(args@), 1) == Some(k as int),
            None => manifest_argument(texts(args@), 1) is None,
        },
{
    let mut found: Option<usize> = None;
    let mut idx: usize = 1;
    let short = "-m".to_owned();
    let long = "--manifest-path".to_owned();
    while idx < args.len() && idx < args.len() - 1
        invariant
            1 <= idx <= args@.len() || args@.len() == 0,
            short@ == "-m"@,
            long@ == "--manifest-path"@,
            found matches Some(k) ==> k < args@.len(),
            manifest_argument(texts(args@), 1) == match manifest_argument(
                texts(args@),
                idx as int,
            ) {
                Some(k) => Some(k),
                None => match found {
                    Some(k) => Some(k as int),
                    None => None,
                },
            },
        decreases args@.len() - idx,
    {
        assert(texts(args@)[idx as int] == args@[idx as int]@);
        if args[idx] == short || args[idx] == long {
            found = Some(idx + 1);
            idx = idx + 1;
        }
        idx = idx + 1;
    }
    found
}

} // verus!
