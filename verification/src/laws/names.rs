//! Encoded names differ where the names do.
use crate::package::{metadata_env, Package};
use crate::path::parent_of;
use crate::text::decimal;
use crate::tools::base_env;
use crate::unit_drv::{joined_text, unit_env};
use vstd::prelude::*;
use vstd::utf8::{encode_utf8, encode_utf8_decode_utf8};

verus! {

/// Different texts have different encodings.
pub proof fn lemma_encoding(a: Seq<char>, b: Seq<char>)
    ensures
        encode_utf8(a) == encode_utf8(b) <==> a == b,
{
    encode_utf8_decode_utf8(a);
    encode_utf8_decode_utf8(b);
}

/// The encoding of two texts one after the other is that of the first, then that of the second.
pub proof fn lemma_encoding_sum(a: Seq<char>, b: Seq<char>)
    ensures
        encode_utf8(a + b) == encode_utf8(a) + encode_utf8(b),
    decreases a.len(),
{
    if a.len() == 0 {
        assert(a + b =~= b);
        assert(encode_utf8(a) + encode_utf8(b) =~= encode_utf8(b));
    } else {
        lemma_encoding_sum(a.drop_first(), b);
        assert((a + b).drop_first() =~= a.drop_first() + b);
        assert(encode_utf8(a + b) =~= encode_utf8(a) + encode_utf8(b));
    }
}

/// All encodings are told apart as the texts are.
pub proof fn lemma_encodings()
    ensures
        forall|a: Seq<char>, b: Seq<char>|
            #![trigger encode_utf8(a), encode_utf8(b)]
            encode_utf8(a) == encode_utf8(b) ==> a == b,
{
    assert forall|a: Seq<char>, b: Seq<char>|
        #![trigger encode_utf8(a), encode_utf8(b)]
        encode_utf8(a) == encode_utf8(b) implies a == b by {
        lemma_encoding(a, b);
    }
}

/// The variables that builds are told things by have different names.
pub proof fn lemma_variables()
    ensures
        "PATH"@.len() == 4,
        "HOST"@.len() == 4,
        "PATH"@ != "HOST"@,
        "RUSTC"@.len() == 5,
        "TARGET"@.len() == 6,
        "OUT_DIR"@.len() == 7,
        "OPT_LEVEL"@.len() == 9,
        "CARGO_PKG_VERSION"@.len() == 17,
        "CARGO_MANIFEST_DIR"@.len() == 18,
        "CARGO_CFG_TARGET_OS"@.len() == 19,
        "CARGO_PKG_VERSION_PRE"@.len() == 21,
        "CARGO_PKG_VERSION_MAJOR"@.len() == 23,
        "CARGO_PKG_VERSION_MINOR"@.len() == 23,
        "CARGO_PKG_VERSION_PATCH"@.len() == 23,
        "CARGO_PKG_VERSION_MAJOR"@ != "CARGO_PKG_VERSION_MINOR"@,
        "CARGO_PKG_VERSION_MAJOR"@ != "CARGO_PKG_VERSION_PATCH"@,
        "CARGO_PKG_VERSION_MINOR"@ != "CARGO_PKG_VERSION_PATCH"@,
{
    reveal_strlit("PATH");
    reveal_strlit("HOST");
    reveal_strlit("RUSTC");
    reveal_strlit("TARGET");
    reveal_strlit("OUT_DIR");
    reveal_strlit("OPT_LEVEL");
    reveal_strlit("CARGO_PKG_VERSION");
    reveal_strlit("CARGO_MANIFEST_DIR");
    reveal_strlit("CARGO_CFG_TARGET_OS");
    reveal_strlit("CARGO_PKG_VERSION_PRE");
    reveal_strlit("CARGO_PKG_VERSION_MAJOR");
    reveal_strlit("CARGO_PKG_VERSION_MINOR");
    reveal_strlit("CARGO_PKG_VERSION_PATCH");
    assert("PATH"@[0] != "HOST"@[0]);
    assert("CARGO_PKG_VERSION_MAJOR"@[19] != "CARGO_PKG_VERSION_MINOR"@[19]);
    assert("CARGO_PKG_VERSION_MAJOR"@[18] != "CARGO_PKG_VERSION_PATCH"@[18]);
    assert("CARGO_PKG_VERSION_MINOR"@[18] != "CARGO_PKG_VERSION_PATCH"@[18]);
}

/// The package's version is told in full and in its parts, each under its own variable; no other
/// variable changes.
pub proof fn lemma_metadata_env(env: Map<Seq<u8>, Seq<u8>>, meta: Package, name: Seq<char>)
    ensures
        ({
            let after = metadata_env(env, meta);
            &&& after.contains_pair(
                encode_utf8("CARGO_PKG_VERSION"@),
                encode_utf8(meta.version@),
            )
            &&& after.contains_pair(
                encode_utf8("CARGO_PKG_VERSION_MAJOR"@),
                encode_utf8(decimal(meta.version_major as nat)),
            )
            &&& after.contains_pair(
                encode_utf8("CARGO_PKG_VERSION_MINOR"@),
                encode_utf8(decimal(meta.version_minor as nat)),
            )
            &&& after.contains_pair(
                encode_utf8("CARGO_PKG_VERSION_PATCH"@),
                encode_utf8(decimal(meta.version_patch as nat)),
            )
            &&& after.contains_pair(
                encode_utf8("CARGO_PKG_VERSION_PRE"@),
                encode_utf8(meta.version_pre@),
            )
        }),
        name != "CARGO_PKG_VERSION"@ && name != "CARGO_PKG_VERSION_MAJOR"@ && name
            != "CARGO_PKG_VERSION_MINOR"@ && name != "CARGO_PKG_VERSION_PATCH"@ && name
            != "CARGO_PKG_VERSION_PRE"@ ==> {
            &&& metadata_env(env, meta).contains_key(encode_utf8(name)) <==> env.contains_key(
                encode_utf8(name),
            )
            &&& metadata_env(env, meta)[encode_utf8(name)] == env[encode_utf8(name)]
        },
{
    lemma_variables();
    lemma_encodings();
}

/// Builds start with the compiler and its directory, and nothing else.
pub proof fn lemma_base_env(rustc: Seq<u8>)
    ensures
        base_env(rustc).contains_pair(encode_utf8("PATH"@), parent_of(rustc)->0),
        base_env(rustc).contains_pair(encode_utf8("RUSTC"@), rustc),
        forall|key: Seq<u8>| #[trigger]
            base_env(rustc).contains_key(key) ==> key == encode_utf8("PATH"@) || key
                == encode_utf8("RUSTC"@),
{
    lemma_variables();
    lemma_encodings();
}

/// What every build is told: the compiler, the platform, the version of the package and where its
/// source is.
pub proof fn lemma_unit_env(rustc: Seq<u8>, package: Package, src: Seq<u8>)
    ensures
        ({
            let env = unit_env(rustc, package, src);
            &&& env.contains_pair(encode_utf8("PATH"@), parent_of(rustc)->0)
            &&& env.contains_pair(encode_utf8("RUSTC"@), rustc)
            &&& env.contains_pair(
                encode_utf8("HOST"@),
                encode_utf8("x86_64-unknown-linux-gnu"@),
            )
            &&& env.contains_pair(
                encode_utf8("TARGET"@),
                encode_utf8("x86_64-unknown-linux-gnu"@),
            )
            &&& env.contains_pair(encode_utf8("CARGO_CFG_TARGET_OS"@), encode_utf8("linux"@))
            &&& env.contains_pair(
                encode_utf8("CARGO_PKG_VERSION"@),
                encode_utf8(package.version@),
            )
            &&& env.contains_pair(
                encode_utf8("CARGO_PKG_VERSION_MAJOR"@),
                encode_utf8(decimal(package.version_major as nat)),
            )
            &&& env.contains_pair(
                encode_utf8("CARGO_PKG_VERSION_MINOR"@),
                encode_utf8(decimal(package.version_minor as nat)),
            )
            &&& env.contains_pair(
                encode_utf8("CARGO_PKG_VERSION_PATCH"@),
                encode_utf8(decimal(package.version_patch as nat)),
            )
            &&& env.contains_pair(
                encode_utf8("CARGO_PKG_VERSION_PRE"@),
                encode_utf8(package.version_pre@),
            )
            &&& env.contains_pair(encode_utf8("CARGO_MANIFEST_DIR"@), src)
            &&& forall|key: Seq<u8>| #[trigger] env.contains_key(key) ==> is_unit_variable(key)
        }),
{
    lemma_variables();
    lemma_encodings();
}

/// A variable that every build has.
pub open spec fn is_unit_variable(key: Seq<u8>) -> bool {
    ||| key == encode_utf8("PATH"@)
    ||| key == encode_utf8("RUSTC"@)
    ||| key == encode_utf8("HOST"@)
    ||| key == encode_utf8("TARGET"@)
    ||| key == encode_utf8("CARGO_CFG_TARGET_OS"@)
    ||| key == encode_utf8("CARGO_PKG_VERSION"@)
    ||| key == encode_utf8("CARGO_PKG_VERSION_MAJOR"@)
    ||| key == encode_utf8("CARGO_PKG_VERSION_MINOR"@)
    ||| key == encode_utf8("CARGO_PKG_VERSION_PATCH"@)
    ||| key == encode_utf8("CARGO_PKG_VERSION_PRE"@)
    ||| key == encode_utf8("CARGO_MANIFEST_DIR"@)
}

/// A file in a directory is named by the directory, one `/`, and its own name; an absolute path
/// stands for itself.
pub proof fn lemma_joined_text(dir: Seq<char>, file: Seq<char>)
    ensures
        file.len() > 0 && file[0] == '/' ==> joined_text(dir, file) == file,
        (file.len() == 0 || file[0] != '/') && dir.len() > 0 && dir.last() != '/' ==> joined_text(
            dir,
            file,
        ) == dir + seq!['/'] + file,
        (file.len() == 0 || file[0] != '/') && (dir.len() == 0 || dir.last() == '/')
            ==> joined_text(dir, file) == dir + file,
{
    assert(dir.push('/') =~= dir + seq!['/']);
}

} // verus!
