//! Derivations that compile a crate: what stands where on their command lines, and why.
use crate::compile::{
    all_feature_args, all_link_args, all_search_args, compile_base_name, compile_command,
    compile_outcome, main_file, own_args, wrapper_args,
};
use crate::derivation::{ContentAddressMethod, Derivation, Input, OutputName};
use crate::laws::names::{is_unit_variable, lemma_encodings, lemma_unit_env, lemma_variables};
use crate::package::{Package, UnitSource};
use crate::path::{below, joined, parent_of};
use crate::text::{decimal, hexadecimal, replaced};
use crate::tools::Tools;
use crate::unit_drv::{
    dep_cache, joined_text, DrvError, OwnOutputs, SourceTree, UnitCache, UnitCacheMeta,
};
use crate::unit_graph::{CompileMode, Unit};
use vstd::prelude::*;
use vstd::utf8::encode_utf8;

verus! {

/// All that goes into compiling a crate.
pub struct Compilation {
    pub tools: Tools,
    pub own: OwnOutputs,
    pub unit: Unit,
    pub cache: Seq<Option<UnitCache>>,
    pub deps: Set<usize>,
    pub package: Package,
    pub source: UnitSource,
    pub src: SourceTree,
    pub dep_hash: u64,
}

/// What may come of a compilation.
pub open spec fn gives(c: Compilation, r: Result<(Derivation, UnitCacheMeta), DrvError>) -> bool {
    compile_outcome(
        c.tools,
        c.own,
        c.unit,
        c.cache,
        c.deps,
        c.package,
        c.source,
        c.src,
        c.dep_hash,
        r,
    )
}

/// The whole command line of a derivation.
pub open spec fn command(drv: Derivation) -> Seq<Seq<u8>> {
    seq![drv@.builder] + drv@.args
}

/// How many of the first `n` units that are depended on directly are runs of build scripts.
pub open spec fn scripts(unit: Unit, cache: Seq<Option<UnitCache>>, n: int) -> int
    decreases n,
{
    if n <= 0 {
        0
    } else {
        scripts(unit, cache, n - 1) + if dep_cache(unit, cache, n - 1).meta.custom_output {
            1int
        } else {
            0int
        }
    }
}

/// The number of direct dependencies.
pub open spec fn direct(c: Compilation) -> int {
    c.unit.dependencies@.len() as int
}

/// Where the compiler stands: after three words for every build script.
pub open spec fn compiler_at(c: Compilation) -> int {
    3 * scripts(c.unit, c.cache, direct(c))
}

/// The crate's type.
pub open spec fn crate_type(c: Compilation) -> Seq<char> {
    c.unit.target.crate_types@[0]@
}

/// Where the code generation options start.
pub open spec fn codegen_at(c: Compilation) -> int {
    compiler_at(c) + 6 + if c.unit.mode == CompileMode::Check || c.unit.mode == CompileMode::Build {
        1int
    } else {
        0int
    }
}

/// Where the features start.
pub open spec fn features_at(c: Compilation) -> int {
    codegen_at(c) + 6 + if crate_type(c) == "lib"@ {
        2int
    } else {
        0int
    }
}

/// Where the libraries to search start.
pub open spec fn searches_at(c: Compilation) -> int {
    features_at(c) + 2 * c.unit.features@.len()
}

/// How many words the units below `t` that are depended on take.
pub open spec fn searches_before(cache: Seq<Option<UnitCache>>, deps: Set<usize>, t: int) -> int
    decreases t,
{
    if t <= 0 {
        0
    } else {
        searches_before(cache, deps, t - 1) + if !deps.contains((t - 1) as usize) {
            0int
        } else if (cache[t - 1]->0).meta.custom_output {
            3int
        } else {
            2int
        }
    }
}

/// Where the crates that are linked directly start.
pub open spec fn links_at(c: Compilation) -> int {
    searches_at(c) + searches_before(c.cache, c.deps, c.cache.len() as int)
}

/// How many words the first `n` direct dependencies take.
pub open spec fn links_before(unit: Unit, cache: Seq<Option<UnitCache>>, n: int) -> int
    decreases n,
{
    if n <= 0 {
        0
    } else {
        let meta = dep_cache(unit, cache, n - 1).meta;
        links_before(unit, cache, n - 1) + (if meta.base_name is Some {
            2int
        } else {
            0int
        }) + if meta.custom_output {
            1int
        } else {
            0int
        }
    }
}

proof fn lemma_scripts(unit: Unit, cache: Seq<Option<UnitCache>>, d: int, n: int)
    requires
        d <= n,
    ensures
        0 <= scripts(unit, cache, d) <= scripts(unit, cache, n),
    decreases n,
{
    if n > 0 && d < n {
        lemma_scripts(unit, cache, d, n - 1);
    } else if n > 0 {
        lemma_scripts(unit, cache, n - 1, n - 1);
    }
}

proof fn lemma_wrapper_words(
    unit: Unit,
    cache: Seq<Option<UnitCache>>,
    env_wrap: Seq<u8>,
    d: int,
    n: int,
)
    ensures
        wrapper_args(unit, cache, env_wrap, n).len() == 3 * scripts(unit, cache, n),
        0 <= d < n && dep_cache(unit, cache, d).meta.custom_output ==> {
            let at = 3 * (scripts(unit, cache, n) - scripts(unit, cache, d + 1));
            let words = wrapper_args(unit, cache, env_wrap, n);
            &&& 0 <= at <= at + 3 <= words.len()
            &&& words[at] == env_wrap
            &&& words[at + 1] == encode_utf8(
                joined_text(dep_cache(unit, cache, d).flags@, "env"@),
            )
            &&& words[at + 2] == encode_utf8("--"@)
        },
    decreases n,
{
    if n > 0 {
        lemma_wrapper_words(unit, cache, env_wrap, d, n - 1);
        lemma_scripts(unit, cache, n - 1, n - 1);
        if 0 <= d < n {
            lemma_scripts(unit, cache, d + 1, n);
        }
    }
}

proof fn lemma_feature_words(features: Seq<String>, k: int, n: int)
    requires
        0 <= n,
    ensures
        all_feature_args(features, n).len() == 2 * n,
        0 <= k < n ==> {
            &&& all_feature_args(features, n)[2 * k] == encode_utf8("--cfg"@)
            &&& all_feature_args(features, n)[2 * k + 1] == encode_utf8(
                "feature=\""@ + features[k]@ + "\""@,
            )
        },
    decreases n,
{
    if n > 0 {
        lemma_feature_words(features, k, n - 1);
    }
}

proof fn lemma_searches(cache: Seq<Option<UnitCache>>, deps: Set<usize>, t: int, n: int)
    requires
        t <= n,
    ensures
        0 <= searches_before(cache, deps, t) <= searches_before(cache, deps, n),
    decreases n,
{
    if n > 0 && t < n {
        lemma_searches(cache, deps, t, n - 1);
    } else if n > 0 {
        lemma_searches(cache, deps, n - 1, n - 1);
    }
}

proof fn lemma_search_words(cache: Seq<Option<UnitCache>>, deps: Set<usize>, t: usize, n: int)
    requires
        n <= usize::MAX + 1,
    ensures
        all_search_args(cache, deps, n).len() == searches_before(cache, deps, n),
        deps.contains(t) && t < n ==> {
            let at = searches_before(cache, deps, t as int);
            let words = all_search_args(cache, deps, n);
            let dep = cache[t as int]->0;
            &&& 0 <= at < at + 1 < words.len()
            &&& words[at] == encode_utf8("-L"@)
            &&& words[at + 1] == encode_utf8("dependency="@ + dep.out@)
            &&& dep.meta.custom_output ==> at + 2 < words.len() && words[at + 2] == encode_utf8(
                "@"@ + joined_text(dep.flags@, "args-transitive"@),
            )
        },
    decreases n,
{
    if n > 0 {
        lemma_search_words(cache, deps, t, n - 1);
        lemma_searches(cache, deps, n - 1, n - 1);
        if t < n - 1 {
            lemma_searches(cache, deps, t as int + 1, n - 1);
        }
    }
}

proof fn lemma_links(unit: Unit, cache: Seq<Option<UnitCache>>, d: int, n: int)
    requires
        d <= n,
    ensures
        0 <= links_before(unit, cache, d) <= links_before(unit, cache, n),
    decreases n,
{
    if n > 0 && d < n {
        lemma_links(unit, cache, d, n - 1);
    } else if n > 0 {
        lemma_links(unit, cache, n - 1, n - 1);
    }
}

/// What is read of a library by crates of a given type: libraries need the metadata only.
pub open spec fn extension(user: Seq<char>) -> Seq<char> {
    if user == "lib"@ || user == "rlib"@ {
        "rmeta"@
    } else {
        "rlib"@
    }
}

proof fn lemma_link_words(unit: Unit, cache: Seq<Option<UnitCache>>, d: int, n: int)
    ensures
        all_link_args(unit, cache, n).len() == links_before(unit, cache, n),
        0 <= d < n ==> {
            let at = links_before(unit, cache, d);
            let words = all_link_args(unit, cache, n);
            let dep = dep_cache(unit, cache, d);
            &&& dep.meta.base_name matches Some(base_name) ==> {
                &&& 0 <= at < at + 1 < words.len()
                &&& words[at] == encode_utf8("--extern"@)
                &&& words[at + 1] == encode_utf8(
                    unit.dependencies@[d].extern_crate_name@ + "="@ + (dep.out@ + "/"@ + base_name@
                        + "."@ + extension(unit.target.crate_types@[0]@)),
                )
            }
            &&& dep.meta.custom_output ==> {
                let last = links_before(unit, cache, d + 1) - 1;
                &&& at <= last < words.len()
                &&& words[last] == encode_utf8(
                    "@"@ + joined_text(dep.flags@, "args-immediate"@),
                )
            }
        },
    decreases n,
{
    if n > 0 {
        lemma_link_words(unit, cache, d, n - 1);
        lemma_links(unit, cache, n - 1, n - 1);
        if 0 <= d < n - 1 {
            lemma_links(unit, cache, d + 1, n - 1);
            lemma_links(unit, cache, d, d + 1);
        }
    }
}

/// The command line is that of the recipe.
proof fn lemma_command(c: Compilation, drv: Derivation, meta: UnitCacheMeta) -> (file: Seq<u8>)
    requires
        gives(c, Ok((drv, meta))),
    ensures
        main_file(c.unit, c.source.crate_root@, c.src.absolute_path@) == Some(file),
        command(drv) == wrapper_args(
            c.unit,
            c.cache,
            c.tools.env_wrap.real_path@,
            direct(c),
        ) + (seq![c.tools.rustc.real_path@, file] + own_args(c.own, c.unit, c.dep_hash)
            + all_feature_args(c.unit.features@, c.unit.features@.len() as int)
            + all_search_args(c.cache, c.deps, c.cache.len() as int)) + all_link_args(
            c.unit,
            c.cache,
            direct(c),
        ),
{
    let file = main_file(c.unit, c.source.crate_root@, c.src.absolute_path@)->0;
    let all = compile_command(c.tools, c.own, c.unit, c.cache, c.deps, file, c.dep_hash);
    assert(command(drv) =~= all);
    file
}

proof fn lemma_segments(
    w: Seq<Seq<u8>>,
    h: Seq<Seq<u8>>,
    o: Seq<Seq<u8>>,
    f: Seq<Seq<u8>>,
    s: Seq<Seq<u8>>,
    l: Seq<Seq<u8>>,
)
    ensures
        ({
            let all = w + (h + o + f + s) + l;
            let a = w.len() as int;
            let b = a + h.len();
            let c = b + o.len();
            let d = c + f.len();
            let e = d + s.len();
            &&& all.len() == e + l.len()
            &&& forall|i: int| 0 <= i < w.len() ==> all[i] == #[trigger] w[i]
            &&& forall|i: int| 0 <= i < h.len() ==> all[a + i] == #[trigger] h[i]
            &&& forall|i: int| 0 <= i < o.len() ==> all[b + i] == #[trigger] o[i]
            &&& forall|i: int| 0 <= i < f.len() ==> all[c + i] == #[trigger] f[i]
            &&& forall|i: int| 0 <= i < s.len() ==> all[d + i] == #[trigger] s[i]
            &&& forall|i: int| 0 <= i < l.len() ==> all[e + i] == #[trigger] l[i]
        }),
{
}

/// Where the parts of the command line stand.
proof fn lemma_parts(c: Compilation, drv: Derivation, meta: UnitCacheMeta)
    requires
        gives(c, Ok((drv, meta))),
    ensures
        ({
            let words = command(drv);
            let n = direct(c);
            let w = wrapper_args(c.unit, c.cache, c.tools.env_wrap.real_path@, n);
            let o = own_args(c.own, c.unit, c.dep_hash);
            let f = all_feature_args(c.unit.features@, c.unit.features@.len() as int);
            let s = all_search_args(c.cache, c.deps, c.cache.len() as int);
            let l = all_link_args(c.unit, c.cache, n);
            let p = compiler_at(c);
            &&& p >= 0
            &&& w.len() == p
            &&& p + 2 + o.len() == features_at(c)
            &&& f.len() == 2 * c.unit.features@.len()
            &&& words.len() == searches_at(c) + s.len() + l.len()
            &&& words[p] == c.tools.rustc.real_path@
            &&& Some(words[p + 1]) == main_file(
                c.unit,
                c.source.crate_root@,
                c.src.absolute_path@,
            )
            &&& forall|i: int| 0 <= i < w.len() ==> words[i] == #[trigger] w[i]
            &&& forall|i: int| 0 <= i < o.len() ==> words[p + 2 + i] == #[trigger] o[i]
            &&& forall|i: int| 0 <= i < f.len() ==> words[features_at(c) + i] == #[trigger] f[i]
            &&& forall|i: int| 0 <= i < s.len() ==> words[searches_at(c) + i] == #[trigger] s[i]
            &&& forall|i: int|
                0 <= i < l.len() ==> words[searches_at(c) + s.len() + i] == #[trigger] l[i]
        }),
{
    let n = direct(c);
    let file = lemma_command(c, drv, meta);
    let w = wrapper_args(c.unit, c.cache, c.tools.env_wrap.real_path@, n);
    let h = seq![c.tools.rustc.real_path@, file];
    let o = own_args(c.own, c.unit, c.dep_hash);
    let f = all_feature_args(c.unit.features@, c.unit.features@.len() as int);
    let s = all_search_args(c.cache, c.deps, c.cache.len() as int);
    let l = all_link_args(c.unit, c.cache, n);
    lemma_segments(w, h, o, f, s, l);
    lemma_wrapper_words(c.unit, c.cache, c.tools.env_wrap.real_path@, 0, n);
    lemma_scripts(c.unit, c.cache, n, n);
    lemma_feature_words(c.unit.features@, 0, c.unit.features@.len() as int);
    lemma_own_words(c.own, c.unit, c.dep_hash);
    assert(h[0] == c.tools.rustc.real_path@);
    assert(h[1] == file);
}

proof fn lemma_option_texts()
    ensures
        "--"@ + "out-dir"@ + "="@ == "--out-dir="@,
        "--"@ + "crate-name"@ + "="@ == "--crate-name="@,
        "--"@ + "edition"@ + "="@ == "--edition="@,
        "--"@ + "crate-type"@ + "="@ == "--crate-type="@,
        "--"@ + "emit"@ + "="@ + "metadata"@ == "--emit=metadata"@,
        "--"@ + "emit"@ + "="@ + "metadata,link"@ == "--emit=metadata,link"@,
        "--"@ + "emit"@ + "="@ + "link"@ == "--emit=link"@,
        "debuginfo"@ + "="@ == "debuginfo="@,
        "opt-level"@ + "="@ == "opt-level="@,
        "metadata"@ + "="@ == "metadata="@,
        "extra-filename"@ + "="@ + "-"@ == "extra-filename=-"@,
{
    reveal_strlit("--");
    reveal_strlit("=");
    reveal_strlit("-");
    reveal_strlit("out-dir");
    reveal_strlit("--out-dir=");
    reveal_strlit("crate-name");
    reveal_strlit("--crate-name=");
    reveal_strlit("edition");
    reveal_strlit("--edition=");
    reveal_strlit("crate-type");
    reveal_strlit("--crate-type=");
    reveal_strlit("emit");
    reveal_strlit("metadata");
    reveal_strlit("metadata,link");
    reveal_strlit("link");
    reveal_strlit("--emit=metadata");
    reveal_strlit("--emit=metadata,link");
    reveal_strlit("--emit=link");
    reveal_strlit("debuginfo");
    reveal_strlit("debuginfo=");
    reveal_strlit("opt-level");
    reveal_strlit("opt-level=");
    reveal_strlit("metadata=");
    reveal_strlit("extra-filename");
    reveal_strlit("extra-filename=-");
    assert("--"@ + "out-dir"@ + "="@ =~= "--out-dir="@);
    assert("--"@ + "crate-name"@ + "="@ =~= "--crate-name="@);
    assert("--"@ + "edition"@ + "="@ =~= "--edition="@);
    assert("--"@ + "crate-type"@ + "="@ =~= "--crate-type="@);
    assert("--"@ + "emit"@ + "="@ + "metadata"@ =~= "--emit=metadata"@);
    assert("--"@ + "emit"@ + "="@ + "metadata,link"@ =~= "--emit=metadata,link"@);
    assert("--"@ + "emit"@ + "="@ + "link"@ =~= "--emit=link"@);
    assert("debuginfo"@ + "="@ =~= "debuginfo="@);
    assert("opt-level"@ + "="@ =~= "opt-level="@);
    assert("metadata"@ + "="@ =~= "metadata="@);
    assert("extra-filename"@ + "="@ + "-"@ =~= "extra-filename=-"@);
}

proof fn lemma_own_words(own: OwnOutputs, unit: Unit, dep_hash: u64)
    ensures
        ({
            let words = own_args(own, unit, dep_hash);
            let kind = unit.target.crate_types@[0]@;
            let mode = unit.mode;
            let hash = hexadecimal(dep_hash as nat, 16);
            let q = 4 + if mode == CompileMode::Check || mode == CompileMode::Build {
                1int
            } else {
                0int
            };
            &&& words.len() == q + 6 + if kind == "lib"@ {
                2int
            } else {
                0int
            }
            &&& words[0] == encode_utf8("--out-dir="@ + own.out@)
            &&& words[1] == encode_utf8("--crate-name="@ + replaced(unit.target.name@, '-', '_'))
            &&& words[2] == encode_utf8("--edition="@ + unit.target.edition@)
            &&& words[3] == encode_utf8("--crate-type="@ + kind)
            &&& mode == CompileMode::Check ==> words[4] == encode_utf8("--emit=metadata"@)
            &&& mode == CompileMode::Build && (kind == "lib"@ || kind == "rlib"@) ==> words[4]
                == encode_utf8("--emit=metadata,link"@)
            &&& mode == CompileMode::Build && kind != "lib"@ && kind != "rlib"@ ==> words[4]
                == encode_utf8("--emit=link"@)
            &&& words[q] == encode_utf8("-C"@)
            &&& words[q + 1] == encode_utf8("debuginfo="@ + decimal(unit.profile.debuginfo as nat))
            &&& words[q + 2] == encode_utf8("-C"@)
            &&& words[q + 3] == encode_utf8("opt-level="@ + unit.profile.opt_level@)
            &&& words[q + 4] == encode_utf8("-C"@)
            &&& words[q + 5] == encode_utf8("metadata="@ + hash)
            &&& kind == "lib"@ ==> words[q + 6] == encode_utf8("-C"@) && words[q + 7]
                == encode_utf8("extra-filename=-"@ + hash)
        }),
{
    let hash = hexadecimal(dep_hash as nat, 16);
    lemma_option_texts();
    assert("extra-filename"@ + "="@ + ("-"@ + hash) =~= "extra-filename"@ + "="@ + "-"@ + hash);
}

/// A crate is compiled exactly if it has one type and its main file is below the directory of its
/// manifest; the reason is given where it is not.
pub proof fn lemma_compile_errors(
    c: Compilation,
    r: Result<(Derivation, UnitCacheMeta), DrvError>,
)
    requires
        gives(c, r),
    ensures
        r is Ok <==> c.unit.target.crate_types@.len() == 1 && below(
            c.unit.target.src_path@,
            encode_utf8(c.source.crate_root@),
        ) is Some,
        r is Err && c.unit.target.crate_types@.len() != 1 ==> r->Err_0
            == DrvError::UnexpectedCrateTypes,
        r is Err && c.unit.target.crate_types@.len() == 1 ==> r->Err_0
            == DrvError::OutsideCrateRoot,
{
}

/// The compiler is given the main file inside the store's copy of the source, and what the unit
/// says of itself: the output, the crate's name with `_` for `-`, its edition and type, what to
/// write, and how to generate code. The hash sets the crate apart, and libraries by their file
/// names too.
pub proof fn lemma_compiler_words(c: Compilation, drv: Derivation, meta: UnitCacheMeta)
    requires
        gives(c, Ok((drv, meta))),
    ensures
        ({
            let words = command(drv);
            let p = compiler_at(c);
            let q = codegen_at(c);
            let hash = hexadecimal(c.dep_hash as nat, 16);
            &&& 0 <= p < q < features_at(c) <= words.len()
            &&& words[p] == c.tools.rustc.real_path@
            &&& below(
                c.unit.target.src_path@,
                encode_utf8(c.source.crate_root@),
            ) matches Some(rest) && words[p + 1] == joined(c.src.absolute_path@, rest)
            &&& words[p + 2] == encode_utf8("--out-dir="@ + c.own.out@)
            &&& words[p + 3] == encode_utf8(
                "--crate-name="@ + replaced(c.unit.target.name@, '-', '_'),
            )
            &&& words[p + 4] == encode_utf8("--edition="@ + c.unit.target.edition@)
            &&& words[p + 5] == encode_utf8("--crate-type="@ + crate_type(c))
            &&& c.unit.mode == CompileMode::Check ==> words[p + 6] == encode_utf8(
                "--emit=metadata"@,
            )
            &&& c.unit.mode == CompileMode::Build && (crate_type(c) == "lib"@ || crate_type(c)
                == "rlib"@) ==> words[p + 6] == encode_utf8("--emit=metadata,link"@)
            &&& c.unit.mode == CompileMode::Build && crate_type(c) != "lib"@ && crate_type(c)
                != "rlib"@ ==> words[p + 6] == encode_utf8("--emit=link"@)
            &&& words[q] == encode_utf8("-C"@)
            &&& words[q + 1] == encode_utf8(
                "debuginfo="@ + decimal(c.unit.profile.debuginfo as nat),
            )
            &&& words[q + 2] == encode_utf8("-C"@)
            &&& words[q + 3] == encode_utf8("opt-level="@ + c.unit.profile.opt_level@)
            &&& words[q + 4] == encode_utf8("-C"@)
            &&& words[q + 5] == encode_utf8("metadata="@ + hash)
            &&& crate_type(c) == "lib"@ ==> words[q + 6] == encode_utf8("-C"@) && words[q + 7]
                == encode_utf8("extra-filename=-"@ + hash)
        }),
{
    lemma_parts(c, drv, meta);
    lemma_own_words(c.own, c.unit, c.dep_hash);
    let own = own_args(c.own, c.unit, c.dep_hash);
    let p = compiler_at(c);
    let q = codegen_at(c) - p - 2;
    assert(own[0] == command(drv)[p + 2]);
    assert(own[1] == command(drv)[p + 3]);
    assert(own[2] == command(drv)[p + 4]);
    assert(own[3] == command(drv)[p + 5]);
    assert(own[4] == command(drv)[p + 6]);
    assert(own[q] == command(drv)[p + 2 + q]);
    assert(own[q + 1] == command(drv)[p + 2 + (q + 1)]);
    assert(own[q + 2] == command(drv)[p + 2 + (q + 2)]);
    assert(own[q + 3] == command(drv)[p + 2 + (q + 3)]);
    assert(own[q + 4] == command(drv)[p + 2 + (q + 4)]);
    assert(own[q + 5] == command(drv)[p + 2 + (q + 5)]);
    if crate_type(c) == "lib"@ {
        assert(own[q + 6] == command(drv)[p + 2 + (q + 6)]);
        assert(own[q + 7] == command(drv)[p + 2 + (q + 7)]);
    }
}

/// Every feature of the unit is switched on, whatever the crate's type and the mode: the words
/// `--cfg` and `feature="..."` stand side by side for each.
pub proof fn lemma_features(c: Compilation, drv: Derivation, meta: UnitCacheMeta, k: int)
    requires
        gives(c, Ok((drv, meta))),
        0 <= k < c.unit.features@.len(),
    ensures
        ({
            let at = features_at(c) + 2 * k;
            &&& 0 < at < at + 1 < command(drv).len()
            &&& command(drv)[at] == encode_utf8("--cfg"@)
            &&& command(drv)[at + 1] == encode_utf8(
                "feature=\""@ + c.unit.features@[k]@ + "\""@,
            )
        }),
{
    lemma_parts(c, drv, meta);
    lemma_feature_words(c.unit.features@, k, c.unit.features@.len() as int);
    let f = all_feature_args(c.unit.features@, c.unit.features@.len() as int);
    assert(f[2 * k] == command(drv)[features_at(c) + 2 * k]);
    assert(f[2 * k + 1] == command(drv)[features_at(c) + (2 * k + 1)]);
}

/// No word of the list switches a configuration on.
spec fn no_cfg(words: Seq<Seq<u8>>) -> bool {
    forall|i: int| 0 <= i < words.len() ==> #[trigger] words[i] != encode_utf8("--cfg"@)
}

proof fn lemma_no_cfg_sum(a: Seq<Seq<u8>>, b: Seq<Seq<u8>>)
    requires
        no_cfg(a),
        no_cfg(b),
    ensures
        no_cfg(a + b),
{
    assert forall|i: int| 0 <= i < (a + b).len() implies #[trigger] (a + b)[i] != encode_utf8(
        "--cfg"@,
    ) by {
        if i < a.len() {
            assert((a + b)[i] == a[i]);
        } else {
            assert((a + b)[i] == b[i - a.len()]);
        }
    }
}

proof fn lemma_no_cfg_own(own: OwnOutputs, unit: Unit, dep_hash: u64)
    ensures
        no_cfg(own_args(own, unit, dep_hash)),
{
    let words = own_args(own, unit, dep_hash);
    let hash = hexadecimal(dep_hash as nat, 16);
    lemma_own_words(own, unit, dep_hash);
    lemma_encodings();
    reveal_strlit("--cfg");
    reveal_strlit("--out-dir=");
    reveal_strlit("--crate-name=");
    reveal_strlit("--edition=");
    reveal_strlit("--crate-type=");
    reveal_strlit("--emit=metadata");
    reveal_strlit("--emit=metadata,link");
    reveal_strlit("--emit=link");
    reveal_strlit("debuginfo=");
    reveal_strlit("opt-level=");
    reveal_strlit("metadata=");
    reveal_strlit("extra-filename=-");
    reveal_strlit("-C");
    assert(("--out-dir="@ + own.out@)[2] != "--cfg"@[2]);
    assert(("--crate-name="@ + replaced(unit.target.name@, '-', '_'))[3] != "--cfg"@[3]);
    assert(("--edition="@ + unit.target.edition@)[2] != "--cfg"@[2]);
    assert(("--crate-type="@ + unit.target.crate_types@[0]@)[3] != "--cfg"@[3]);
    assert("--emit=metadata"@[2] != "--cfg"@[2]);
    assert("--emit=metadata,link"@[2] != "--cfg"@[2]);
    assert("--emit=link"@[2] != "--cfg"@[2]);
    assert("-C"@.len() != "--cfg"@.len());
    assert(("debuginfo="@ + decimal(unit.profile.debuginfo as nat))[0] != "--cfg"@[0]);
    assert(("opt-level="@ + unit.profile.opt_level@)[0] != "--cfg"@[0]);
    assert(("metadata="@ + hash)[0] != "--cfg"@[0]);
    assert(("extra-filename=-"@ + hash)[0] != "--cfg"@[0]);
}

proof fn lemma_no_cfg_search(cache: Seq<Option<UnitCache>>, deps: Set<usize>, n: int)
    ensures
        no_cfg(all_search_args(cache, deps, n)),
    decreases n,
{
    if n > 0 {
        lemma_no_cfg_search(cache, deps, n - 1);
        if deps.contains((n - 1) as usize) {
            let words = crate::compile::search_args(cache[n - 1]->0);
            lemma_encodings();
            reveal_strlit("--cfg");
            reveal_strlit("-L");
            reveal_strlit("dependency=");
            reveal_strlit("@");
            assert forall|i: int| 0 <= i < words.len() implies #[trigger] words[i] != encode_utf8(
                "--cfg"@,
            ) by {
                let dep = cache[n - 1]->0;
                assert(("dependency="@ + dep.out@)[0] != "--cfg"@[0]);
                assert(("@"@ + joined_text(dep.flags@, crate::unit_drv::SCRIPT_TRANSITIVE_ARGS@))[0]
                    != "--cfg"@[0]);
                assert("-L"@.len() != "--cfg"@.len());
            }
            lemma_no_cfg_sum(all_search_args(cache, deps, n - 1), words);
        }
    }
}

proof fn lemma_no_cfg_link(unit: Unit, cache: Seq<Option<UnitCache>>, n: int)
    ensures
        no_cfg(all_link_args(unit, cache, n)),
    decreases n,
{
    if n > 0 {
        lemma_no_cfg_link(unit, cache, n - 1);
        let dep = dep_cache(unit, cache, n - 1);
        let name = unit.dependencies@[n - 1].extern_crate_name@;
        let user = unit.target.crate_types@[0]@;
        let words = crate::compile::link_args(name, dep, user);
        lemma_encodings();
        reveal_strlit("--cfg");
        reveal_strlit("--extern");
        reveal_strlit("@");
        reveal_strlit("=");
        assert forall|i: int| 0 <= i < words.len() implies #[trigger] words[i] != encode_utf8(
            "--cfg"@,
        ) by {
            assert(("@"@ + joined_text(dep.flags@, crate::unit_drv::SCRIPT_IMMEDIATE_ARGS@))[0]
                != "--cfg"@[0]);
            assert("--extern"@.len() != "--cfg"@.len());
            if let Some(base_name) = dep.meta.base_name {
                let text = name + "="@ + crate::compile::library_file(dep.out@, base_name@, user);
                assert(text[name.len() as int] == '=');
                assert(text != "--cfg"@);
            }
        }
        lemma_no_cfg_sum(all_link_args(unit, cache, n - 1), words);
    }
}

/// Nothing but the unit's own features is switched on: after the main file, `--cfg` stands only
/// where one of them follows.
pub proof fn lemma_features_only(c: Compilation, drv: Derivation, meta: UnitCacheMeta, i: int)
    requires
        gives(c, Ok((drv, meta))),
        compiler_at(c) + 2 <= i < command(drv).len(),
        command(drv)[i] == encode_utf8("--cfg"@),
    ensures
        exists|k: int|
            0 <= k < c.unit.features@.len() && i == #[trigger] (features_at(c) + 2 * k),
{
    let n = direct(c);
    let f = c.unit.features@.len() as int;
    lemma_parts(c, drv, meta);
    lemma_no_cfg_own(c.own, c.unit, c.dep_hash);
    lemma_no_cfg_search(c.cache, c.deps, c.cache.len() as int);
    lemma_no_cfg_link(c.unit, c.cache, n);
    let own = own_args(c.own, c.unit, c.dep_hash);
    let search = all_search_args(c.cache, c.deps, c.cache.len() as int);
    let link = all_link_args(c.unit, c.cache, n);
    let at = features_at(c);
    if i < at {
        assert(command(drv)[i] == own[i - compiler_at(c) - 2]);
        assert(false);
    } else if i < at + 2 * f {
        let k = (i - at) / 2;
        lemma_features(c, drv, meta, k);
        if i != at + 2 * k {
            assert(i == at + 2 * k + 1);
            lemma_encodings();
            reveal_strlit("--cfg");
            reveal_strlit("feature=\"");
            assert(("feature=\""@ + c.unit.features@[k]@ + "\""@)[0] != "--cfg"@[0]);
            assert(false);
        }
        assert(0 <= k < f && i == features_at(c) + 2 * k);
    } else if i < at + 2 * f + search.len() {
        assert(command(drv)[i] == search[i - searches_at(c)]);
        assert(false);
    } else {
        assert(command(drv)[i] == link[i - searches_at(c) - search.len()]);
        assert(false);
    }
}

/// Every unit that is depended on, directly or not, is searched for crates, and the flags that its
/// build script wants passed on are passed on. The units come in ascending order.
pub proof fn lemma_search_path(c: Compilation, drv: Derivation, meta: UnitCacheMeta, t: usize)
    requires
        gives(c, Ok((drv, meta))),
        c.cache.len() <= usize::MAX,
        c.deps.contains(t),
        t < c.cache.len(),
    ensures
        ({
            let at = searches_at(c) + searches_before(c.cache, c.deps, t as int);
            let dep = c.cache[t as int]->0;
            &&& 0 < at < at + 1 < command(drv).len()
            &&& command(drv)[at] == encode_utf8("-L"@)
            &&& command(drv)[at + 1] == encode_utf8("dependency="@ + dep.out@)
            &&& dep.meta.custom_output ==> at + 2 < command(drv).len() && command(drv)[at + 2]
                == encode_utf8("@"@ + joined_text(dep.flags@, "args-transitive"@))
        }),
{
    lemma_parts(c, drv, meta);
    lemma_search_words(c.cache, c.deps, t, c.cache.len() as int);
    let words = all_search_args(c.cache, c.deps, c.cache.len() as int);
    let at = searches_before(c.cache, c.deps, t as int);
    assert(words[at] == command(drv)[searches_at(c) + at]);
    assert(words[at + 1] == command(drv)[searches_at(c) + (at + 1)]);
    if (c.cache[t as int]->0).meta.custom_output {
        assert(words[at + 2] == command(drv)[searches_at(c) + (at + 2)]);
    }
}

/// Every crate that is depended on directly is linked under the name by which the unit knows it,
/// and the flags that the package's build script wants for it are used.
pub proof fn lemma_linked(c: Compilation, drv: Derivation, meta: UnitCacheMeta, d: int)
    requires
        gives(c, Ok((drv, meta))),
        c.cache.len() <= usize::MAX,
        0 <= d < c.unit.dependencies@.len(),
    ensures
        ({
            let at = links_at(c) + links_before(c.unit, c.cache, d);
            let dep = dep_cache(c.unit, c.cache, d);
            &&& dep.meta.base_name matches Some(base_name) ==> {
                &&& 0 < at < at + 1 < command(drv).len()
                &&& command(drv)[at] == encode_utf8("--extern"@)
                &&& command(drv)[at + 1] == encode_utf8(
                    c.unit.dependencies@[d].extern_crate_name@ + "="@ + (dep.out@ + "/"@
                        + base_name@ + "."@ + extension(crate_type(c))),
                )
            }
            &&& dep.meta.custom_output ==> {
                let last = links_at(c) + links_before(c.unit, c.cache, d + 1) - 1;
                &&& 0 < last < command(drv).len()
                &&& command(drv)[last] == encode_utf8(
                    "@"@ + joined_text(dep.flags@, "args-immediate"@),
                )
            }
        }),
{
    let n = direct(c);
    lemma_parts(c, drv, meta);
    lemma_search_words(c.cache, c.deps, 0, c.cache.len() as int);
    lemma_link_words(c.unit, c.cache, d, n);
    lemma_links(c.unit, c.cache, d, d + 1);
    lemma_links(c.unit, c.cache, 0, d);
    let words = all_link_args(c.unit, c.cache, n);
    let at = links_before(c.unit, c.cache, d);
    let last = links_before(c.unit, c.cache, d + 1) - 1;
    let dep = dep_cache(c.unit, c.cache, d);
    if dep.meta.base_name is Some {
        assert(words[at] == command(drv)[links_at(c) + at]);
        assert(words[at + 1] == command(drv)[links_at(c) + (at + 1)]);
    }
    if dep.meta.custom_output {
        assert(words[last] == command(drv)[links_at(c) + last]);
    }
}

/// Every build script among the direct dependencies puts the wrapper that reads its environment
/// before the compiler, the last of them first.
pub proof fn lemma_wrapped(c: Compilation, drv: Derivation, meta: UnitCacheMeta, d: int)
    requires
        gives(c, Ok((drv, meta))),
        0 <= d < c.unit.dependencies@.len(),
        dep_cache(c.unit, c.cache, d).meta.custom_output,
    ensures
        ({
            let at = compiler_at(c) - 3 * scripts(c.unit, c.cache, d + 1);
            &&& 0 <= at < at + 2 < command(drv).len()
            &&& command(drv)[at] == c.tools.env_wrap.real_path@
            &&& command(drv)[at + 1] == encode_utf8(
                joined_text(dep_cache(c.unit, c.cache, d).flags@, "env"@),
            )
            &&& command(drv)[at + 2] == encode_utf8("--"@)
        }),
{
    let n = direct(c);
    lemma_command(c, drv, meta);
    lemma_wrapper_words(c.unit, c.cache, c.tools.env_wrap.real_path@, d, n);
}

/// There are no other words on the command line than those for the build scripts, the unit itself,
/// its features, the units that it depends on and the crates that it links.
pub proof fn lemma_command_length(c: Compilation, drv: Derivation, meta: UnitCacheMeta)
    requires
        gives(c, Ok((drv, meta))),
        c.cache.len() <= usize::MAX,
    ensures
        command(drv).len() == links_at(c) + links_before(c.unit, c.cache, direct(c)),
{
    let n = direct(c);
    lemma_command(c, drv, meta);
    lemma_wrapper_words(c.unit, c.cache, c.tools.env_wrap.real_path@, 0, n);
    lemma_feature_words(c.unit.features@, 0, c.unit.features@.len() as int);
    lemma_search_words(c.cache, c.deps, 0, c.cache.len() as int);
    lemma_link_words(c.unit, c.cache, 0, n);
}

/// What a compilation is built from: the compilers, the source, the output of every unit that is
/// depended on, the flags of those that are build scripts, and the wrapper if one of those is
/// depended on directly. Nothing else.
pub proof fn lemma_compile_inputs(c: Compilation, drv: Derivation, meta: UnitCacheMeta, i: Input)
    requires
        gives(c, Ok((drv, meta))),
    ensures
        drv@.inputs.contains(i) <==> {
            ||| i == Input::Opaque(c.tools.rustc.store_path@)
            ||| i == Input::Opaque(c.tools.target_cc.store_path@)
            ||| i == Input::Opaque(c.src.store_path@)
            ||| exists|t: usize| #[trigger]
                c.deps.contains(t) && {
                    ||| i == Input::Built((c.cache[t as int]->0).drv_path@, OutputName::Out)
                    ||| (c.cache[t as int]->0).meta.custom_output && i == Input::Built(
                        (c.cache[t as int]->0).drv_path@,
                        OutputName::Flags,
                    )
                }
            ||| i == Input::Opaque(c.tools.env_wrap.store_path@) && exists|d: int|
                0 <= d < c.unit.dependencies@.len() && (#[trigger] dep_cache(
                    c.unit,
                    c.cache,
                    d,
                )).meta.custom_output
        },
{
    if exists|t: usize| #[trigger]
        c.deps.contains(t) && crate::compile::brings(c.cache[t as int]->0, i) {
        let t = choose|t: usize| #[trigger]
            c.deps.contains(t) && crate::compile::brings(c.cache[t as int]->0, i);
        assert(c.deps.contains(t));
    }
    if exists|t: usize| #[trigger]
        c.deps.contains(t) && {
            ||| i == Input::Built((c.cache[t as int]->0).drv_path@, OutputName::Out)
            ||| (c.cache[t as int]->0).meta.custom_output && i == Input::Built(
                (c.cache[t as int]->0).drv_path@,
                OutputName::Flags,
            )
        } {
        let t = choose|t: usize| #[trigger]
            c.deps.contains(t) && {
                ||| i == Input::Built((c.cache[t as int]->0).drv_path@, OutputName::Out)
                ||| (c.cache[t as int]->0).meta.custom_output && i == Input::Built(
                    (c.cache[t as int]->0).drv_path@,
                    OutputName::Flags,
                )
            };
        assert(c.deps.contains(t) && crate::compile::brings(c.cache[t as int]->0, i));
    }
}

proof fn lemma_out_dir(
    env: Map<Seq<u8>, Seq<u8>>,
    unit: Unit,
    cache: Seq<Option<UnitCache>>,
    key: Seq<u8>,
    n: int,
)
    ensures
        ({
            let after = crate::compile::with_out_dir(env, unit, cache, n);
            &&& key != encode_utf8("OUT_DIR"@) ==> after.contains_key(key) == env.contains_key(key)
                && after[key] == env[key]
            &&& scripts(unit, cache, n) == 0 ==> after == env
            &&& scripts(unit, cache, n) >= 0
            &&& scripts(unit, cache, n) > 0 ==> exists|d: int|
                0 <= d < n && (#[trigger] dep_cache(unit, cache, d)).meta.custom_output && scripts(
                    unit,
                    cache,
                    d + 1,
                ) == scripts(unit, cache, n) && after.contains_pair(
                    encode_utf8("OUT_DIR"@),
                    encode_utf8(dep_cache(unit, cache, d).out@),
                )
        }),
    decreases n,
{
    if n > 0 {
        lemma_out_dir(env, unit, cache, key, n - 1);
        if dep_cache(unit, cache, n - 1).meta.custom_output {
            assert(0 <= n - 1 < n && dep_cache(unit, cache, n - 1).meta.custom_output);
        } else if scripts(unit, cache, n) > 0 {
            let before = crate::compile::with_out_dir(env, unit, cache, n - 1);
            let d = choose|d: int|
                0 <= d < n - 1 && (#[trigger] dep_cache(unit, cache, d)).meta.custom_output
                    && scripts(unit, cache, d + 1) == scripts(unit, cache, n - 1)
                    && before.contains_pair(
                    encode_utf8("OUT_DIR"@),
                    encode_utf8(dep_cache(unit, cache, d).out@),
                );
            assert(0 <= d < n && dep_cache(unit, cache, d).meta.custom_output);
        }
    }
}

/// A compilation is told the compiler, the platform, the package's version and where its source is,
/// and nothing else; if it depends on build scripts directly, then also where the last of them put
/// its output.
pub proof fn lemma_compile_env(c: Compilation, drv: Derivation, meta: UnitCacheMeta)
    requires
        gives(c, Ok((drv, meta))),
    ensures
        ({
            let env = drv@.env;
            &&& env.contains_pair(
                encode_utf8("PATH"@),
                parent_of(c.tools.rustc.real_path@)->0,
            )
            &&& env.contains_pair(encode_utf8("RUSTC"@), c.tools.rustc.real_path@)
            &&& env.contains_pair(
                encode_utf8("HOST"@),
                encode_utf8("x86_64-unknown-linux-gnu"@),
            )
            &&& env.contains_pair(
                encode_utf8("TARGET"@),
                encode_utf8("x86_64-unknown-linux-gnu"@),
            )
            &&& env.contains_pair(encode_utf8("CARGO_CFG_TARGET_OS"@), encode_utf8("linux"@))
            &&& env.contains_pair(
                encode_utf8("CARGO_PKG_VERSION"@),
                encode_utf8(c.package.version@),
            )
            &&& env.contains_pair(
                encode_utf8("CARGO_PKG_VERSION_MAJOR"@),
                encode_utf8(decimal(c.package.version_major as nat)),
            )
            &&& env.contains_pair(
                encode_utf8("CARGO_PKG_VERSION_MINOR"@),
                encode_utf8(decimal(c.package.version_minor as nat)),
            )
            &&& env.contains_pair(
                encode_utf8("CARGO_PKG_VERSION_PATCH"@),
                encode_utf8(decimal(c.package.version_patch as nat)),
            )
            &&& env.contains_pair(
                encode_utf8("CARGO_PKG_VERSION_PRE"@),
                encode_utf8(c.package.version_pre@),
            )
            &&& env.contains_pair(encode_utf8("CARGO_MANIFEST_DIR"@), c.src.absolute_path@)
            &&& forall|key: Seq<u8>| #[trigger]
                env.contains_key(key) ==> is_unit_variable(key) || (key == encode_utf8("OUT_DIR"@)
                    && scripts(c.unit, c.cache, direct(c)) > 0)
            &&& scripts(c.unit, c.cache, direct(c)) > 0 ==> exists|d: int|
                0 <= d < direct(c) && (#[trigger] dep_cache(c.unit, c.cache, d)).meta.custom_output
                    && scripts(c.unit, c.cache, d + 1) == scripts(c.unit, c.cache, direct(c))
                    && env.contains_pair(
                    encode_utf8("OUT_DIR"@),
                    encode_utf8(dep_cache(c.unit, c.cache, d).out@),
                )
        }),
{
    let base = crate::unit_drv::unit_env(
        c.tools.rustc.real_path@,
        c.package,
        c.src.absolute_path@,
    );
    lemma_unit_env(c.tools.rustc.real_path@, c.package, c.src.absolute_path@);
    lemma_variables();
    lemma_encodings();
    lemma_out_dir(base, c.unit, c.cache, encode_utf8("PATH"@), direct(c));
    lemma_out_dir(base, c.unit, c.cache, encode_utf8("RUSTC"@), direct(c));
    lemma_out_dir(base, c.unit, c.cache, encode_utf8("HOST"@), direct(c));
    lemma_out_dir(base, c.unit, c.cache, encode_utf8("TARGET"@), direct(c));
    lemma_out_dir(base, c.unit, c.cache, encode_utf8("CARGO_CFG_TARGET_OS"@), direct(c));
    lemma_out_dir(base, c.unit, c.cache, encode_utf8("CARGO_PKG_VERSION"@), direct(c));
    lemma_out_dir(base, c.unit, c.cache, encode_utf8("CARGO_PKG_VERSION_MAJOR"@), direct(c));
    lemma_out_dir(base, c.unit, c.cache, encode_utf8("CARGO_PKG_VERSION_MINOR"@), direct(c));
    lemma_out_dir(base, c.unit, c.cache, encode_utf8("CARGO_PKG_VERSION_PATCH"@), direct(c));
    lemma_out_dir(base, c.unit, c.cache, encode_utf8("CARGO_PKG_VERSION_PRE"@), direct(c));
    lemma_out_dir(base, c.unit, c.cache, encode_utf8("CARGO_MANIFEST_DIR"@), direct(c));
    assert forall|key: Seq<u8>| #[trigger] drv@.env.contains_key(key) implies is_unit_variable(key)
        || (key == encode_utf8("OUT_DIR"@) && scripts(c.unit, c.cache, direct(c)) > 0) by {
        lemma_out_dir(base, c.unit, c.cache, key, direct(c));
        if key != encode_utf8("OUT_DIR"@) {
            assert(base.contains_key(key));
        } else if scripts(c.unit, c.cache, direct(c)) == 0 {
            assert(base.contains_key(key));
        }
    }
}

/// A crate is built for one platform, under the name of its directory, into one output; later units
/// learn the file name of a library, and that it is no build script.
pub proof fn lemma_compiled(c: Compilation, drv: Derivation, meta: UnitCacheMeta)
    requires
        gives(c, Ok((drv, meta))),
    ensures
        drv@.name == c.source.drv_name@,
        drv@.platform == encode_utf8("x86_64-linux"@),
        forall|o: OutputName| #[trigger]
            drv@.outputs.contains_key(o) <==> o == OutputName::Out,
        drv@.outputs[OutputName::Out] == ContentAddressMethod::NixArchive,
        !meta.custom_output,
        !meta.has_links,
        meta.base_name is Some <==> crate_type(c) == "lib"@,
        meta.base_name matches Some(base_name) ==> base_name@ == "lib"@ + c.unit.target.name@
            + "-"@ + hexadecimal(c.dep_hash as nat, 16),
{
    if let Some(base_name) = meta.base_name {
        assert(Some(base_name@) == compile_base_name(c.unit, c.dep_hash));
        assert(base_name@ =~= "lib"@ + c.unit.target.name@ + "-"@ + hexadecimal(
            c.dep_hash as nat,
            16,
        ));
    }
}

} // verus!
