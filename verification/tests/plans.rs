use bytes::Bytes;
use cargo_dyndrv::compile::compile_derivation;
use cargo_dyndrv::derivation::{
    ContentAddressMethod, Derivation, DerivedPath, OutputName, Placeholder, StorePath,
};
use cargo_dyndrv::env_wrap::parse_args;
use cargo_dyndrv::order::{contains_unit, order_units, orderable_units};
use cargo_dyndrv::package::{Package, UnitSource};
use cargo_dyndrv::path::UnixPath;
use cargo_dyndrv::planner::{PlanError, Planner};
use cargo_dyndrv::script::{script_derivation, ExternConfig, ExtraDep};
use cargo_dyndrv::survey;
use cargo_dyndrv::tools::{Tool, Tools};
use cargo_dyndrv::unit_drv::{
    add_codegen, add_feature, add_long, join_text, push_back_arg, push_front_arg, split_builder,
    unit_environment, DrvError, OwnOutputs, SourceTree, UnitCache, UnitCacheMeta,
};
use cargo_dyndrv::unit_graph::{
    discover_arguments, CompileMode, Dependency, DiscoverError, Profile, Target, Unit, UnitGraph,
};
use std::collections::{BTreeSet, HashMap, VecDeque};

const HASH: u64 = 0xab;

fn path(text: &str) -> UnixPath {
    UnixPath { bytes: text.as_bytes().to_vec() }
}

fn owned(all: &[&str]) -> Vec<String> {
    all.iter().map(|s| (*s).to_owned()).collect()
}

fn unit(name: &str, src: &str, kind: &str, mode: CompileMode, deps: &[(usize, &str)]) -> Unit {
    Unit {
        pkg_id: "pkg".to_owned(),
        target: Target {
            kind: owned(&[kind]),
            crate_types: owned(&[kind]),
            name: name.to_owned(),
            src_path: path(src),
            edition: "2021".to_owned(),
            doc: true,
            doctest: true,
            test: true,
        },
        profile: Profile {
            name: "release".to_owned(),
            opt_level: "3".to_owned(),
            lto: "false".to_owned(),
            codegen_backend: None,
            codgen_units: None,
            debuginfo: 2,
            split_debuginfo: None,
            debug_assertions: false,
            overflow_checks: false,
            rpath: false,
            incremental: false,
            panic: "unwind".to_owned(),
        },
        platform: None,
        mode,
        features: Vec::new(),
        dependencies: deps
            .iter()
            .map(|(index, name)| Dependency {
                index: *index,
                extern_crate_name: (*name).to_owned(),
            })
            .collect(),
    }
}

fn bare(deps: &[usize]) -> Unit {
    let named: Vec<(usize, &str)> = deps.iter().map(|d| (*d, "d")).collect();
    unit("u", "/u/src/lib.rs", "lib", CompileMode::Build, &named)
}

/// A build script, its run, the library that it is for, and a program.
fn sample() -> Vec<Unit> {
    let mut lib = unit(
        "foo",
        "/ws/foo/src/lib.rs",
        "lib",
        CompileMode::Build,
        &[(1, "build_script_build")],
    );
    lib.features = owned(&["std", "fast-math"]);
    vec![
        unit("build-script-build", "/ws/foo/build.rs", "bin", CompileMode::Build, &[]),
        unit(
            "build-script-build",
            "/ws/foo/build.rs",
            "bin",
            CompileMode::RunCustomBuild,
            &[(0, "build_script_build")],
        ),
        lib,
        unit("my-app", "/ws/app/src/main.rs", "bin", CompileMode::Build, &[(2, "foo")]),
    ]
}

fn tool(name: &str) -> Tool {
    Tool {
        store_path: StorePath { base_name: format!("h-{}", name) },
        real_path: path(&format!("/nix/store/h-{}/bin/{}", name, name)),
    }
}

fn tools() -> Tools {
    Tools {
        rustc: tool("rustc"),
        cargo: tool("cargo"),
        target_cc: tool("cc"),
        host_cc: tool("host-cc"),
        target_cxx: tool("cxx"),
        host_cxx: tool("host-cxx"),
        env_wrap: tool("env-wrap"),
        build_wrap: tool("build-wrap"),
        target_env: tool("target-env"),
        ln: tool("ln"),
    }
}

fn placeholder(text: &str) -> Placeholder {
    Placeholder { path: text.to_owned() }
}

fn own() -> OwnOutputs {
    OwnOutputs { out: placeholder("/own-out"), flags: placeholder("/own-flags") }
}

fn package() -> Package {
    Package {
        id: "pkg".to_owned(),
        manifest_path: "/ws/foo/Cargo.toml".to_owned(),
        links: None,
        version: "1.2.3".to_owned(),
        version_major: 1,
        version_minor: 2,
        version_patch: 3,
        version_pre: String::new(),
    }
}

fn source(name: &str) -> UnitSource {
    UnitSource { crate_root: format!("/ws/{}", name), drv_name: name.to_owned() }
}

fn src(name: &str) -> SourceTree {
    SourceTree {
        store_path: StorePath { base_name: format!("h-{}-src", name) },
        absolute_path: path(&format!("/nix/store/h-{}-src", name)),
    }
}

fn known(i: usize, meta: UnitCacheMeta) -> UnitCache {
    UnitCache {
        drv_path: StorePath { base_name: format!("h-{}.drv", i) },
        out: placeholder(&format!("/out{}", i)),
        flags: placeholder(&format!("/flags{}", i)),
        meta,
    }
}

fn strings(all: &[Bytes]) -> Vec<String> {
    all.iter().map(|b| String::from_utf8(b.to_vec()).unwrap()).collect()
}

fn inputs(drv: &Derivation) -> Vec<String> {
    let mut r: Vec<String> = drv
        .inputs
        .items()
        .iter()
        .map(|i| match i {
            DerivedPath::Opaque(p) => p.base_name.clone(),
            DerivedPath::Built { drv_path, output } => {
                format!("{}^{}", drv_path.base_name, output.text())
            }
        })
        .collect();
    r.sort();
    r
}

fn env(drv: &Derivation, key: &str) -> Option<String> {
    drv.env.get(key.as_bytes()).map(|b| String::from_utf8(b.to_vec()).unwrap())
}

fn carried_out() -> (Planner, Vec<Derivation>) {
    let graph = UnitGraph { version: 1, units: sample(), roots: vec![3] };
    let mut plan = Planner::new(graph).unwrap();
    let mut drvs = Vec::new();
    while let Some(idx) = plan.current() {
        let name = if idx == 3 { "app" } else { "foo" };
        let (drv, meta) = plan
            .derivation(&tools(), &own(), &package(), &source(name), &src(name), None, HASH)
            .unwrap();
        drvs.push(drv);
        plan.record(known(idx, meta));
    }
    (plan, drvs)
}

#[test]
fn units_come_after_their_dependencies() {
    // 0 -> 1, 2; 1 -> 3; 2 -> 3
    let units = vec![bare(&[1, 2]), bare(&[3]), bare(&[3]), bare(&[])];
    let mut deps: HashMap<usize, BTreeSet<usize>> = HashMap::new();
    let mut order = Vec::new();
    order_units(&mut deps, &mut order, &units, 0);
    assert_eq!(order, vec![3, 1, 2, 0]);
    assert_eq!(deps[&0], BTreeSet::from([1, 2, 3]));
    assert_eq!(deps[&1], BTreeSet::from([3]));
    assert_eq!(deps[&3], BTreeSet::new());
    assert!(contains_unit(&deps[&0], 2));
    assert!(!contains_unit(&deps[&0], 0));
    order_units(&mut deps, &mut order, &units, 2);
    assert_eq!(order, vec![3, 1, 2, 0]);
}

#[test]
fn what_was_ordered_stays() {
    let units = vec![bare(&[]), bare(&[0]), bare(&[1])];
    let mut deps: HashMap<usize, BTreeSet<usize>> = HashMap::new();
    let mut order = Vec::new();
    order_units(&mut deps, &mut order, &units, 1);
    assert_eq!(order, vec![0, 1]);
    order_units(&mut deps, &mut order, &units, 2);
    assert_eq!(order, vec![0, 1, 2]);
    assert_eq!(deps[&2], BTreeSet::from([0, 1]));
}

#[test]
fn cycles_and_missing_units_cannot_be_ordered() {
    let units = vec![bare(&[1]), bare(&[0]), bare(&[]), bare(&[2]), bare(&[9]), bare(&[4])];
    assert_eq!(orderable_units(&units), vec![false, false, true, true, false, false]);
}

#[test]
fn plans_are_refused() {
    let plan = |version: u32, units: Vec<Unit>, roots: Vec<usize>| {
        Planner::new(UnitGraph { version, units, roots }).err()
    };
    assert_eq!(plan(2, vec![], vec![]), Some(PlanError::UnsupportedVersion(2)));
    assert_eq!(plan(1, vec![bare(&[0])], vec![0]), Some(PlanError::Unorderable));
    assert_eq!(plan(1, vec![bare(&[])], vec![1]), Some(PlanError::Unorderable));
    assert_eq!(plan(1, vec![bare(&[0]), bare(&[])], vec![1]), None);
}

#[test]
fn a_plan_lists_what_is_asked_for_and_below() {
    let units = vec![bare(&[2]), bare(&[2]), bare(&[]), bare(&[]), bare(&[1, 0])];
    let plan = Planner::new(UnitGraph { version: 1, units, roots: vec![1, 4] }).unwrap();
    assert_eq!(plan.order, vec![2, 1, 0, 4]);
    assert_eq!(plan.deps[&4], BTreeSet::from([0, 1, 2]));
    assert_eq!(plan.current(), Some(2));
    assert_eq!(plan.done, 0);
}

#[test]
fn a_plan_is_carried_out() {
    let (plan, drvs) = carried_out();
    assert_eq!(drvs.len(), 4);
    assert_eq!(plan.current(), None);
    let roots: Vec<String> = plan.root_derivations().into_iter().map(|p| p.base_name).collect();
    assert_eq!(roots, vec!["h-3.drv"]);
    for drv in &drvs {
        for output in &drv.outputs {
            assert_eq!(output.method, ContentAddressMethod::NixArchive);
        }
        assert_eq!(drv.platform.as_ref(), b"x86_64-linux");
    }
}

#[test]
fn direct_derivations_come_in_order() {
    let units = vec![bare(&[]), bare(&[]), bare(&[1, 0, 1])];
    let mut plan = Planner::new(UnitGraph { version: 1, units, roots: vec![2] }).unwrap();
    assert!(plan.direct_derivations().is_empty());
    plan.record(known(1, UnitCacheMeta::default()));
    plan.record(known(0, UnitCacheMeta::default()));
    let direct: Vec<String> = plan.direct_derivations().into_iter().map(|p| p.base_name).collect();
    assert_eq!(direct, vec!["h-1.drv", "h-0.drv", "h-1.drv"]);
}

#[test]
fn a_build_script_is_compiled() {
    let (_, drvs) = carried_out();
    let drv = &drvs[0];
    assert_eq!(drv.name, "foo");
    assert_eq!(drv.builder.as_ref(), b"/nix/store/h-rustc/bin/rustc");
    assert_eq!(
        strings(&drv.args),
        vec![
            "/nix/store/h-foo-src/build.rs",
            "--out-dir=/own-out",
            "--crate-name=build_script_build",
            "--edition=2021",
            "--crate-type=bin",
            "--emit=link",
            "-C",
            "debuginfo=2",
            "-C",
            "opt-level=3",
            "-C",
            "metadata=00000000000000ab",
        ]
    );
    assert_eq!(inputs(drv), vec!["h-cc", "h-foo-src", "h-rustc"]);
    assert_eq!(drv.outputs.len(), 1);
    assert_eq!(drv.outputs[0].name, OutputName::Out);
    assert_eq!(drv.env.entries().len(), 11);
    assert_eq!(env(drv, "PATH").as_deref(), Some("/nix/store/h-rustc/bin"));
    assert_eq!(env(drv, "RUSTC").as_deref(), Some("/nix/store/h-rustc/bin/rustc"));
    assert_eq!(env(drv, "HOST").as_deref(), Some("x86_64-unknown-linux-gnu"));
    assert_eq!(env(drv, "TARGET").as_deref(), Some("x86_64-unknown-linux-gnu"));
    assert_eq!(env(drv, "CARGO_CFG_TARGET_OS").as_deref(), Some("linux"));
    assert_eq!(env(drv, "CARGO_PKG_VERSION").as_deref(), Some("1.2.3"));
    assert_eq!(env(drv, "CARGO_PKG_VERSION_PRE").as_deref(), Some(""));
    assert_eq!(env(drv, "CARGO_MANIFEST_DIR").as_deref(), Some("/nix/store/h-foo-src"));
    assert_eq!(env(drv, "OUT_DIR"), None);
}

#[test]
fn a_build_script_is_run() {
    let (plan, drvs) = carried_out();
    let drv = &drvs[1];
    assert_eq!(drv.name, "foo-run");
    assert_eq!(drv.builder.as_ref(), b"/nix/store/h-build-wrap/bin/build-wrap");
    assert_eq!(
        strings(&drv.args),
        vec!["/nix/store/h-foo-src", "", "/own-flags", "/own-out", "/out0/build_script_build"]
    );
    assert_eq!(inputs(drv), vec!["h-0.drv^out", "h-build-wrap", "h-cc", "h-foo-src", "h-rustc"]);
    assert_eq!(drv.outputs.len(), 2);
    assert_eq!(drv.outputs[0].name, OutputName::Out);
    assert_eq!(drv.outputs[1].name, OutputName::Flags);
    assert_eq!(env(drv, "OPT_LEVEL").as_deref(), Some("3"));
    let meta = &plan.cache[1].as_ref().unwrap().meta;
    assert!(meta.custom_output);
    assert!(!meta.has_links);
    assert_eq!(meta.base_name, None);
}

#[test]
fn a_library_is_compiled_under_its_build_script() {
    let (plan, drvs) = carried_out();
    let drv = &drvs[2];
    assert_eq!(drv.builder.as_ref(), b"/nix/store/h-env-wrap/bin/env-wrap");
    assert_eq!(
        strings(&drv.args),
        vec![
            "/flags1/env",
            "--",
            "/nix/store/h-rustc/bin/rustc",
            "/nix/store/h-foo-src/src/lib.rs",
            "--out-dir=/own-out",
            "--crate-name=foo",
            "--edition=2021",
            "--crate-type=lib",
            "--emit=metadata,link",
            "-C",
            "debuginfo=2",
            "-C",
            "opt-level=3",
            "-C",
            "metadata=00000000000000ab",
            "-C",
            "extra-filename=-00000000000000ab",
            "--cfg",
            "feature=\"std\"",
            "--cfg",
            "feature=\"fast-math\"",
            "-L",
            "dependency=/out0",
            "-L",
            "dependency=/out1",
            "@/flags1/args-transitive",
            "@/flags1/args-immediate",
        ]
    );
    assert_eq!(
        inputs(drv),
        vec![
            "h-0.drv^out",
            "h-1.drv^flags",
            "h-1.drv^out",
            "h-cc",
            "h-env-wrap",
            "h-foo-src",
            "h-rustc",
        ]
    );
    assert_eq!(env(drv, "OUT_DIR").as_deref(), Some("/out1"));
    let meta = &plan.cache[2].as_ref().unwrap().meta;
    assert_eq!(meta.base_name.as_deref(), Some("libfoo-00000000000000ab"));
    assert!(!meta.custom_output);
}

#[test]
fn a_program_is_compiled_with_all_that_it_depends_on() {
    let (_, drvs) = carried_out();
    let drv = &drvs[3];
    assert_eq!(drv.name, "app");
    let args = strings(&drv.args);
    assert_eq!(args[0], "/nix/store/h-app-src/src/main.rs");
    assert_eq!(args[2], "--crate-name=my_app");
    assert_eq!(
        args[12..].to_vec(),
        vec![
            "-L",
            "dependency=/out0",
            "-L",
            "dependency=/out1",
            "@/flags1/args-transitive",
            "-L",
            "dependency=/out2",
            "--extern",
            "foo=/out2/libfoo-00000000000000ab.rlib",
        ]
    );
    assert_eq!(
        inputs(drv),
        vec![
            "h-0.drv^out",
            "h-1.drv^flags",
            "h-1.drv^out",
            "h-2.drv^out",
            "h-app-src",
            "h-cc",
            "h-rustc",
        ]
    );
    let mut refs: Vec<String> = drv.references().into_iter().map(|p| p.base_name).collect();
    refs.sort();
    assert_eq!(
        refs,
        vec!["h-0.drv", "h-1.drv", "h-2.drv", "h-app-src", "h-cc", "h-rustc"]
    );
}

#[test]
fn unrelated_units_are_no_inputs() {
    let units = vec![bare(&[]), bare(&[]), bare(&[1])];
    let mut plan = Planner::new(UnitGraph { version: 1, units, roots: vec![0, 2] }).unwrap();
    plan.record(known(0, UnitCacheMeta::default()));
    plan.record(known(1, UnitCacheMeta::default()));
    let here = UnitSource { crate_root: "/u".to_owned(), drv_name: "u".to_owned() };
    let (drv, _) = plan
        .derivation(&tools(), &own(), &package(), &here, &src("u"), None, HASH)
        .unwrap();
    assert_eq!(inputs(&drv), vec!["h-1.drv^out", "h-cc", "h-rustc", "h-u-src"]);
}

fn compiled(unit: &Unit, cache: Vec<Option<UnitCache>>) -> Result<Derivation, DrvError> {
    let deps: BTreeSet<usize> = (0..cache.len()).collect();
    compile_derivation(
        &tools(),
        &own(),
        unit,
        &cache,
        &deps,
        &package(),
        &source("foo"),
        &src("foo"),
        HASH,
    )
    .map(|r| r.0)
}

#[test]
fn crates_are_checked() {
    let check = unit("foo", "/ws/foo/a.rs", "lib", CompileMode::Check, &[]);
    assert!(strings(&compiled(&check, vec![]).unwrap().args)
        .contains(&"--emit=metadata".to_owned()));
    let rlib = unit("foo", "/ws/foo/a.rs", "rlib", CompileMode::Build, &[]);
    let args = strings(&compiled(&rlib, vec![]).unwrap().args);
    assert!(args.contains(&"--emit=metadata,link".to_owned()));
    assert!(!args.iter().any(|a| a.starts_with("extra-filename")));
    let doc = unit("foo", "/ws/foo/a.rs", "lib", CompileMode::Doc, &[]);
    assert!(!strings(&compiled(&doc, vec![]).unwrap().args).iter().any(|a| a.starts_with("--emit")));
}

#[test]
fn libraries_use_the_metadata_of_libraries() {
    let meta = UnitCacheMeta {
        base_name: Some("libdep-1".to_owned()),
        custom_output: false,
        has_links: false,
    };
    let user = unit("foo", "/ws/foo/a.rs", "lib", CompileMode::Build, &[(0, "renamed")]);
    let args = strings(&compiled(&user, vec![Some(known(0, meta))]).unwrap().args);
    assert_eq!(args[args.len() - 1], "renamed=/out0/libdep-1.rmeta");
}

#[test]
fn several_build_scripts_wrap_each_other() {
    let script = || UnitCacheMeta { base_name: None, custom_output: true, has_links: false };
    let user = unit("foo", "/ws/foo/a.rs", "bin", CompileMode::Build, &[(0, "a"), (1, "b")]);
    let cache = vec![Some(known(0, script())), Some(known(1, script()))];
    let drv = compiled(&user, cache).unwrap();
    assert_eq!(drv.builder.as_ref(), b"/nix/store/h-env-wrap/bin/env-wrap");
    assert_eq!(
        strings(&drv.args)[..6].to_vec(),
        vec![
            "/flags1/env",
            "--",
            "/nix/store/h-env-wrap/bin/env-wrap",
            "/flags0/env",
            "--",
            "/nix/store/h-rustc/bin/rustc",
        ]
    );
    assert_eq!(env(&drv, "OUT_DIR").as_deref(), Some("/out1"));
}

#[test]
fn crates_are_refused() {
    let mut two = unit("foo", "/ws/foo/a.rs", "lib", CompileMode::Build, &[]);
    two.target.crate_types.push("cdylib".to_owned());
    assert_eq!(compiled(&two, vec![]).err(), Some(DrvError::UnexpectedCrateTypes));
    let none = Unit {
        target: Target { crate_types: vec![], ..two.target },
        ..unit("foo", "/ws/foo/a.rs", "lib", CompileMode::Build, &[])
    };
    assert_eq!(compiled(&none, vec![]).err(), Some(DrvError::UnexpectedCrateTypes));
    let outside = unit("foo", "/ws/other/a.rs", "lib", CompileMode::Build, &[]);
    assert_eq!(compiled(&outside, vec![]).err(), Some(DrvError::OutsideCrateRoot));
}

fn run(
    deps: &[(usize, &str)],
    features: &[&str],
    links: Option<&str>,
    config: Option<&ExternConfig>,
) -> Result<(Derivation, UnitCacheMeta), DrvError> {
    let mut runner =
        unit("build-script-build", "/ws/foo/build.rs", "bin", CompileMode::RunCustomBuild, deps);
    runner.features = owned(features);
    let units = vec![
        unit("build-script-build", "/ws/foo/build.rs", "bin", CompileMode::Build, &[]),
        unit("build-script-build", "/ws/z/build.rs", "bin", CompileMode::RunCustomBuild, &[]),
        unit("build-script-build", "/ws/y/build.rs", "bin", CompileMode::RunCustomBuild, &[]),
        unit("build-script-build", "/ws/x/build.rs", "bin", CompileMode::RunCustomBuild, &[]),
    ];
    let meta = |has_links: bool| UnitCacheMeta { base_name: None, custom_output: true, has_links };
    let cache = vec![
        Some(known(0, UnitCacheMeta::default())),
        Some(known(1, meta(true))),
        Some(known(2, meta(true))),
        Some(known(3, meta(false))),
    ];
    let mut package = package();
    package.links = links.map(|l| l.to_owned());
    script_derivation(
        &tools(),
        &own(),
        &runner,
        &units,
        &cache,
        &package,
        &source("foo"),
        &src("foo"),
        config,
    )
}

#[test]
fn metadata_of_other_build_scripts_is_read() {
    let (drv, meta) =
        run(&[(1, "z"), (0, "build_script_build"), (3, "x"), (2, "y")], &[], Some("z"), None)
            .unwrap();
    assert!(meta.has_links);
    assert_eq!(drv.builder.as_ref(), b"/nix/store/h-env-wrap/bin/env-wrap");
    assert_eq!(
        strings(&drv.args),
        vec![
            "/flags2/metadata",
            "/flags1/metadata",
            "--",
            "/nix/store/h-build-wrap/bin/build-wrap",
            "/nix/store/h-foo-src",
            "z",
            "/own-flags",
            "/own-out",
            "/out0/build_script_build",
        ]
    );
    assert_eq!(
        inputs(&drv),
        vec![
            "h-0.drv^out",
            "h-1.drv^flags",
            "h-2.drv^flags",
            "h-build-wrap",
            "h-cc",
            "h-env-wrap",
            "h-foo-src",
            "h-rustc",
        ]
    );
}

fn raw(all: &[Bytes]) -> Vec<Vec<u8>> {
    all.iter().map(|b| b.to_vec()).collect()
}

#[test]
fn wrappers_find_what_is_meant_for_them() {
    let script = || UnitCacheMeta { base_name: None, custom_output: true, has_links: false };
    let user = unit("foo", "/ws/foo/a.rs", "bin", CompileMode::Build, &[(0, "a"), (1, "b")]);
    let cache = vec![Some(known(0, script())), Some(known(1, script()))];
    let drv = compiled(&user, cache).unwrap();
    let outer = parse_args(&raw(&drv.args)).unwrap();
    assert_eq!(outer.env_files, vec![b"/flags1/env".to_vec()]);
    assert_eq!(outer.command, b"/nix/store/h-env-wrap/bin/env-wrap");
    let inner = parse_args(&outer.args).unwrap();
    assert_eq!(inner.env_files, vec![b"/flags0/env".to_vec()]);
    assert_eq!(inner.command, b"/nix/store/h-rustc/bin/rustc");
    assert_eq!(inner.args[0], b"/nix/store/h-foo-src/a.rs");

    let (drv, _) = run(&[(1, "z"), (0, "b"), (2, "y")], &[], None, None).unwrap();
    let call = parse_args(&raw(&drv.args)).unwrap();
    assert_eq!(
        call.env_files,
        vec![b"/flags2/metadata".to_vec(), b"/flags1/metadata".to_vec()]
    );
    assert_eq!(call.command, b"/nix/store/h-build-wrap/bin/build-wrap");
    assert_eq!(call.args.len(), 5);
    assert_eq!(call.args[4], b"/out0/b");
}

#[test]
fn libraries_are_found_under_the_name_they_are_given() {
    let (plan, drvs) = carried_out();
    let base_name = plan.cache[2].as_ref().unwrap().meta.base_name.clone().unwrap();
    let args = strings(&drvs[2].args);
    let name = args.iter().find_map(|a| a.strip_prefix("--crate-name=")).unwrap();
    let extra = args.iter().find_map(|a| a.strip_prefix("extra-filename=")).unwrap();
    assert_eq!(base_name, format!("lib{}{}", name, extra));
}

#[test]
fn features_are_told_to_build_scripts() {
    let (drv, _) = run(&[(0, "b")], &["std", "fast-math", "gr\u{f6}\u{df}e"], None, None).unwrap();
    assert_eq!(env(&drv, "CARGO_FEATURE_STD").as_deref(), Some(""));
    assert_eq!(env(&drv, "CARGO_FEATURE_FAST_MATH").as_deref(), Some(""));
    assert_eq!(env(&drv, "CARGO_FEATURE_GR\u{d6}SSE").as_deref(), Some(""));
}

#[test]
fn configurations_are_followed() {
    let dep = |text: &str, name: Option<&str>| ExtraDep {
        text: text.to_owned(),
        store_path: name.map(|n| StorePath { base_name: n.to_owned() }),
    };
    let config = ExternConfig {
        extra_deps: vec![dep("/nix/store/h-ffmpeg", Some("h-ffmpeg"))],
        extra_env: vec![
            ("PKG_CONFIG".to_owned(), "/p".to_owned()),
            ("HOST".to_owned(), "other".to_owned()),
        ],
        extra_path: owned(&["/nix/store/h-pc/bin", "/x"]),
    };
    let (drv, _) = run(&[(0, "b")], &[], None, Some(&config)).unwrap();
    assert!(inputs(&drv).contains(&"h-ffmpeg".to_owned()));
    assert_eq!(env(&drv, "PKG_CONFIG").as_deref(), Some("/p"));
    assert_eq!(env(&drv, "HOST").as_deref(), Some("other"));
    assert_eq!(
        env(&drv, "PATH").as_deref(),
        Some("/nix/store/h-rustc/bin:/nix/store/h-pc/bin:/x")
    );

    let wrong = ExternConfig {
        extra_deps: vec![dep("/nix/store/h-ok", Some("h-ok")), dep("/tmp", None), dep("/x", None)],
        extra_env: vec![],
        extra_path: vec![],
    };
    assert_eq!(
        run(&[(0, "b")], &[], None, Some(&wrong)).err(),
        Some(DrvError::InvalidExtraDep(1))
    );
    assert_eq!(run(&[(1, "z")], &[], None, Some(&wrong)).err(), Some(DrvError::NothingToRun));
    assert_eq!(run(&[], &[], None, None).err(), Some(DrvError::NothingToRun));
}

#[test]
fn a_configured_search_path_starts_from_a_configured_one() {
    let config = ExternConfig {
        extra_deps: vec![],
        extra_env: vec![("PATH".to_owned(), "/mine".to_owned())],
        extra_path: owned(&["/more"]),
    };
    let (drv, _) = run(&[(0, "b")], &[], None, Some(&config)).unwrap();
    assert_eq!(env(&drv, "PATH").as_deref(), Some("/mine:/more"));
}

#[test]
fn arguments_are_put_together() {
    let mut args: VecDeque<Bytes> = VecDeque::new();
    add_long(&mut args, "edition", "2021");
    add_codegen(&mut args, "opt-level", "3");
    add_feature(&mut args, "std");
    push_back_arg(&mut args, Bytes::from("last"));
    push_front_arg(&mut args, Bytes::from("rustc"));
    let (builder, rest) = split_builder(args);
    assert_eq!(builder.as_ref(), b"rustc");
    assert_eq!(
        strings(&rest),
        vec!["--edition=2021", "-C", "opt-level=3", "--cfg", "feature=\"std\"", "last"]
    );
    assert_eq!(join_text("/a", "b"), "/a/b");
    assert_eq!(join_text("/a/", "b"), "/a/b");
    assert_eq!(join_text("/a", "/b"), "/b");
    assert_eq!(join_text("", "b"), "b");
    let env = unit_environment(&tools(), &package(), &path("/s"));
    assert_eq!(env.get(b"CARGO_MANIFEST_DIR").unwrap().as_ref(), b"/s");
}

#[test]
fn cargo_is_asked_for_the_graph() {
    assert_eq!(
        discover_arguments(&owned(&["build", "--release"])),
        owned(&["build", "--release", "-Z", "unstable-options", "--unit-graph"])
    );
    let graph = || UnitGraph { version: 1, units: vec![], roots: vec![4] };
    assert_eq!(UnitGraph::discover(true, Some(0), Some(graph())).unwrap().roots, vec![4]);
    assert_eq!(
        UnitGraph::discover(false, Some(101), None).err(),
        Some(DiscoverError::CargoFailed(101))
    );
    assert_eq!(
        UnitGraph::discover(false, None, Some(graph())).err(),
        Some(DiscoverError::CargoFailed(-1))
    );
    assert_eq!(UnitGraph::discover(true, Some(0), None).err(), Some(DiscoverError::Malformed));
}

#[test]
fn a_survey_lists_units_in_the_order_of_a_plan() {
    let units = vec![bare(&[1, 2]), bare(&[3]), bare(&[3, 1]), bare(&[])];
    let mut lists: HashMap<usize, Vec<usize>> = HashMap::new();
    let mut order = Vec::new();
    survey::order_units(&mut lists, &mut order, &units, 0);
    let plan = Planner::new(UnitGraph { version: 1, units, roots: vec![0] }).unwrap();
    assert_eq!(order, plan.order);
    assert_eq!(order, vec![3, 1, 2, 0]);
    assert_eq!(lists.len(), 4);
    assert!(lists.values().all(|l| l.is_empty()));
}

#[test]
fn a_survey_strings_lists_together() {
    let units = vec![bare(&[1, 2, 1]), bare(&[]), bare(&[])];
    let mut lists: HashMap<usize, Vec<usize>> = HashMap::new();
    lists.insert(1, vec![7, 8]);
    lists.insert(2, vec![9]);
    let mut order = Vec::new();
    survey::order_units(&mut lists, &mut order, &units, 0);
    assert_eq!(order, vec![0]);
    assert_eq!(lists[&0], vec![7, 8, 9, 7, 8]);
}

#[test]
fn package_directories_are_guessed() {
    let root = |p: &str| {
        survey::find_crate_root(&path(p)).map(|r| String::from_utf8(r.bytes).unwrap())
    };
    assert_eq!(root("/ws/foo/src/lib.rs").as_deref(), Some("/ws/foo"));
    assert_eq!(root("/ws/foo/build.rs").as_deref(), Some("/ws/foo"));
    assert_eq!(root("/ws/foo/src/bin/a.rs").as_deref(), Some("/ws/foo/src/bin"));
    assert_eq!(root("src/lib.rs").as_deref(), Some(""));
    assert_eq!(root("/src/lib.rs").as_deref(), Some("/"));
    assert_eq!(root("lib.rs").as_deref(), Some(""));
    assert_eq!(root("/"), None);
    assert_eq!(root(""), None);
}

#[test]
fn sources_are_surveyed() {
    let found = survey::crate_source(&path("/ws/foo/src/lib.rs")).unwrap();
    assert_eq!(found.crate_root.bytes, b"/ws/foo");
    assert_eq!(found.drv_name, "foo");
    assert_eq!(survey::crate_source(&path("")).err(), Some(survey::SurveyError::NoSourcePath));
    assert_eq!(
        survey::crate_source(&path("/src/lib.rs")).err(),
        Some(survey::SurveyError::EmptyPath)
    );
    let odd = UnixPath { bytes: b"/\xff/lib.rs".to_vec() };
    assert_eq!(survey::crate_source(&odd).err(), Some(survey::SurveyError::InvalidName));
}

#[test]
fn compiler_arguments_are_surveyed() {
    let mut lib = unit("foo", "/ws/foo/src/lib.rs", "lib", CompileMode::Build, &[]);
    lib.target.crate_types.push("cdylib".to_owned());
    let args = survey::rustc_arguments(&lib, &path("/ws/foo"), &path("/nix/store/h-foo-src"));
    assert_eq!(
        args.unwrap(),
        owned(&[
            "--crate-name=foo",
            "--edition=2021",
            "/nix/store/h-foo-src/src/lib.rs",
            "----crate-type=lib,cdylib",
        ])
    );
    assert_eq!(
        survey::rustc_arguments(&lib, &path("/ws/bar"), &path("/s")).err(),
        Some(survey::SurveyError::OutsideCrateRoot)
    );
    let store = UnixPath { bytes: b"/\xff".to_vec() };
    assert_eq!(
        survey::rustc_arguments(&lib, &path("/ws/foo"), &store).err(),
        Some(survey::SurveyError::NotUtf8)
    );
}

#[test]
fn surveyed_options_are_long() {
    let mut args = owned(&["a"]);
    survey::add_long(&mut args, "edition", "2018");
    assert_eq!(args, owned(&["a", "--edition=2018"]));
}

#[test]
fn store_objects_are_found_with_the_way_below() {
    let found = |p: &str| {
        survey::containing_store_path(&path("/nix/store"), &path(p))
            .map(|(name, rest)| (name, String::from_utf8(rest.bytes).unwrap()))
    };
    assert_eq!(
        found("/nix/store/h-rustc/bin/rustc"),
        Some(("h-rustc".to_owned(), "bin/rustc".to_owned()))
    );
    assert_eq!(found("/nix/store/h-rustc/"), Some(("h-rustc".to_owned(), String::new())));
    assert_eq!(found("/usr/bin/rustc"), None);
}
