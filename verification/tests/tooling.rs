use bytes::Bytes;
use cargo_dyndrv::derivation::{
    ContentAddressMethod, DerivedPath, EnvMap, InputSet, OutputName, Placeholder, StorePath,
};
use cargo_dyndrv::package::{
    add_metadata_env, find_package, manifest_path_argument, source_name, unit_source, Package,
    SourceError,
};
use cargo_dyndrv::path::UnixPath;
use cargo_dyndrv::script::config_path;
use cargo_dyndrv::store::{
    daemon_path, drv_file_name, platform, submit_wrapper, submitted_output, target_env_drv,
    SourceCache,
};
use cargo_dyndrv::tools::{
    containing_store_path, tool_search, tool_variable, Search, Searches, Tool, ToolError, Tools,
};
use cargo_dyndrv::unit_drv::{OwnOutputs, UnitCache, UnitCacheMeta};
use cargo_dyndrv::util::IntoBytes;

fn path(text: &str) -> UnixPath {
    UnixPath { bytes: text.as_bytes().to_vec() }
}

fn store_dir() -> UnixPath {
    path("/nix/store")
}

fn tool(name: &str) -> Tool {
    Tool {
        store_path: StorePath { base_name: format!("h-{}", name) },
        real_path: path(&format!("/nix/store/h-{}/bin/{}", name, name)),
    }
}

fn missing(name: &str) -> ToolError {
    ToolError::NotFound { tool: name.to_owned(), tried: None }
}

fn searches() -> Searches {
    Searches {
        cc: Ok(tool("cc")),
        host_cc: Ok(tool("host-cc")),
        cxx: Ok(tool("cxx")),
        host_cxx: Ok(tool("host-cxx")),
        rustc: Ok(tool("rustc")),
        cargo: Ok(tool("cargo")),
        env_wrap: Ok(tool("env-wrap")),
        build_wrap: Ok(tool("build-wrap")),
        target_env: Ok(tool("target-env")),
        ln: Ok(tool("ln")),
    }
}

fn placeholder(text: &str) -> Placeholder {
    Placeholder { path: text.to_owned() }
}

fn own() -> OwnOutputs {
    OwnOutputs { out: placeholder("/own-out"), flags: placeholder("/own-flags") }
}

fn strings(all: &[Bytes]) -> Vec<String> {
    all.iter().map(|b| String::from_utf8(b.to_vec()).unwrap()).collect()
}

fn opaque(inputs: &InputSet) -> Vec<String> {
    let mut r: Vec<String> = inputs
        .items()
        .iter()
        .map(|i| match i {
            DerivedPath::Opaque(p) => p.base_name.clone(),
            DerivedPath::Built { drv_path, output } => {
                format!("{}^{}", drv_path.base_name, output.text())
            }
        })
        .collect();
    r.sort();
    r
}

#[test]
fn store_objects_are_found_in_paths() {
    let found = |p: &str| containing_store_path(&store_dir(), &path(p));
    assert_eq!(found("/nix/store/h-rustc/bin/rustc").as_deref(), Some("h-rustc"));
    assert_eq!(found("/nix/store//h-rustc").as_deref(), Some("h-rustc"));
    assert_eq!(found("/nix/./store/h-rustc/").as_deref(), Some("h-rustc"));
    assert_eq!(found("/nix/store"), None);
    assert_eq!(found("/nix/store/.."), None);
    assert_eq!(found("/usr/bin/rustc"), None);
    assert_eq!(found("nix/store/h-rustc"), None);
    let odd = UnixPath { bytes: b"/nix/store/\xff/bin".to_vec() };
    assert_eq!(containing_store_path(&store_dir(), &odd), None);
}

#[test]
fn tools_are_named_by_variables() {
    assert_eq!(tool_variable("cc"), "CC");
    assert_eq!(tool_variable("build-wrap"), "BUILD_WRAP");
}

#[test]
fn searches_go_by_the_environment_first() {
    match tool_search("ln", Some(path("gln")), Some("/fixed/ln")) {
        Search::Program(p) => assert_eq!(p.bytes, b"gln"),
        Search::Fixed(_) => panic!("should be searched"),
    }
    match tool_search("ln", None, Some("/fixed/ln")) {
        Search::Fixed(p) => assert_eq!(p.bytes, b"/fixed/ln"),
        Search::Program(_) => panic!("should be fixed"),
    }
    match tool_search("ln", None, None) {
        Search::Program(p) => assert_eq!(p.bytes, b"ln"),
        Search::Fixed(_) => panic!("should be searched"),
    }
}

#[test]
fn a_tool_is_in_the_store_or_refused() {
    let real = "/nix/store/h-rustc/bin/rustc";
    let found = Tool::find(&store_dir(), "rustc", None, Some(path(real)), true).unwrap();
    assert_eq!(found.store_path.base_name, "h-rustc");
    assert_eq!(found.real_path.bytes, real.as_bytes());

    match Tool::find(&store_dir(), "rustc", Some(path("my-rustc")), None, true) {
        Err(ToolError::NotFound { tool, tried }) => {
            assert_eq!(tool, "rustc");
            assert_eq!(tried.unwrap().bytes, b"my-rustc");
        }
        other => panic!("{:?}", other),
    }
    match Tool::find(&store_dir(), "rustc", None, Some(path("/usr/bin/rustc")), true) {
        Err(ToolError::NotInStore { tool }) => assert_eq!(tool, "rustc"),
        other => panic!("{:?}", other),
    }
    match Tool::find(&store_dir(), "rustc", None, Some(path(real)), false) {
        Err(ToolError::NotInStore { tool }) => assert_eq!(tool, "rustc"),
        other => panic!("{:?}", other),
    }
}

#[test]
fn all_tools_together() {
    let tools = Tools::find(searches()).unwrap();
    assert_eq!(tools.host_cc.store_path.base_name, "h-host-cc");
    assert_eq!(tools.host_cxx.store_path.base_name, "h-host-cxx");
    assert_eq!(tools.ln.store_path.base_name, "h-ln");

    let mut s = searches();
    s.host_cc = Err(missing("host-cc"));
    s.host_cxx = Err(missing("host-cxx"));
    let tools = Tools::find(s).unwrap();
    assert_eq!(tools.host_cc.store_path.base_name, "h-cc");
    assert_eq!(tools.host_cxx.store_path.base_name, "h-cc");
    assert_eq!(tools.target_cxx.store_path.base_name, "h-cxx");
}

#[test]
fn the_first_missing_tool_is_reported() {
    let mut s = searches();
    s.ln = Err(missing("ln"));
    s.rustc = Err(missing("rustc"));
    s.host_cc = Err(missing("host-cc"));
    match Tools::find(s) {
        Err(ToolError::NotFound { tool, .. }) => assert_eq!(tool, "rustc"),
        _ => panic!("should fail"),
    }
    let mut s = searches();
    s.cxx = Err(missing("cxx"));
    s.rustc = Err(missing("rustc"));
    match Tools::find(s) {
        Err(ToolError::NotFound { tool, .. }) => assert_eq!(tool, "cxx"),
        _ => panic!("should fail"),
    }
}

#[test]
fn the_base_environment_holds_the_compiler() {
    let tools = Tools::find(searches()).unwrap();
    let env = tools.base_environment();
    assert_eq!(env.entries().len(), 2);
    assert_eq!(env.get(b"PATH").unwrap().as_ref(), b"/nix/store/h-rustc/bin");
    assert_eq!(env.get(b"RUSTC").unwrap().as_ref(), b"/nix/store/h-rustc/bin/rustc");
}

#[test]
fn environments_keep_the_last_value() {
    let mut env = EnvMap::new();
    env.insert(Bytes::from("A"), Bytes::from("1"));
    env.insert(Bytes::from("B"), Bytes::from("2"));
    env.insert(Bytes::from("A"), Bytes::from("3"));
    assert_eq!(env.entries().len(), 2);
    assert_eq!(env.get(b"A").unwrap().as_ref(), b"3");
    assert!(env.get(b"C").is_none());
    let copy = env.clone();
    assert_eq!(copy.get(b"A").unwrap().as_ref(), b"3");
    assert_eq!(copy.get(b"B").unwrap().as_ref(), b"2");
}

#[test]
fn inputs_are_kept_once() {
    let p = |s: &str| StorePath { base_name: s.to_owned() };
    let mut inputs = InputSet::new();
    inputs.insert(DerivedPath::Opaque(p("a")));
    inputs.insert(DerivedPath::Built { drv_path: p("d"), output: OutputName::Out });
    inputs.insert(DerivedPath::Opaque(p("a")));
    inputs.insert(DerivedPath::Built { drv_path: p("d"), output: OutputName::Flags });
    inputs.insert(DerivedPath::Built { drv_path: p("d"), output: OutputName::Out });
    assert_eq!(opaque(&inputs), vec!["a", "d^flags", "d^out"]);
    assert_eq!(inputs.items()[1].root_path().base_name, "d");
}

#[test]
fn placeholders_become_byte_strings() {
    assert_eq!(placeholder("/1abc").into_bytes().as_ref(), b"/1abc");
}

fn package(id: &str, manifest: &str) -> Package {
    Package {
        id: id.to_owned(),
        manifest_path: manifest.to_owned(),
        links: None,
        version: "1.20.3-rc.1".to_owned(),
        version_major: 1,
        version_minor: 20,
        version_patch: 3,
        version_pre: "rc.1".to_owned(),
    }
}

#[test]
fn sources_are_where_the_manifest_is() {
    let source = unit_source("/home/me/foo-1.2/Cargo.toml").unwrap();
    assert_eq!(source.crate_root, "/home/me/foo-1.2");
    assert_eq!(source.drv_name, "foo-1.2");
    assert_eq!(source_name(&source.drv_name), "foo-1.2-src");
    assert_eq!(unit_source("").err(), Some(SourceError::NoSourcePath));
    assert_eq!(unit_source("/").err(), Some(SourceError::NoSourcePath));
    assert_eq!(unit_source("/Cargo.toml").err(), Some(SourceError::EmptyPath));
    assert_eq!(unit_source("Cargo.toml").err(), Some(SourceError::EmptyPath));
    assert_eq!(unit_source("../Cargo.toml").err(), Some(SourceError::EmptyPath));
    assert_eq!(unit_source("a/./Cargo.toml").unwrap().drv_name, "a");
}

#[test]
fn versions_are_in_the_environment() {
    let mut env = EnvMap::new();
    env.insert(Bytes::from("CARGO_PKG_VERSION"), Bytes::from("old"));
    add_metadata_env(&mut env, &package("p", "/p/Cargo.toml"));
    assert_eq!(env.entries().len(), 5);
    assert_eq!(env.get(b"CARGO_PKG_VERSION").unwrap().as_ref(), b"1.20.3-rc.1");
    assert_eq!(env.get(b"CARGO_PKG_VERSION_MAJOR").unwrap().as_ref(), b"1");
    assert_eq!(env.get(b"CARGO_PKG_VERSION_MINOR").unwrap().as_ref(), b"20");
    assert_eq!(env.get(b"CARGO_PKG_VERSION_PATCH").unwrap().as_ref(), b"3");
    assert_eq!(env.get(b"CARGO_PKG_VERSION_PRE").unwrap().as_ref(), b"rc.1");
}

#[test]
fn packages_are_found_by_id() {
    let all = vec![package("a", "/1"), package("b", "/2"), package("a", "/3")];
    assert_eq!(find_package(&all, "a"), Some(2));
    assert_eq!(find_package(&all, "b"), Some(1));
    assert_eq!(find_package(&all, "c"), None);
}

#[test]
fn the_manifest_is_named_on_the_command_line() {
    let find = |all: &[&str]| {
        let args: Vec<String> = all.iter().map(|a| (*a).to_owned()).collect();
        manifest_path_argument(&args)
    };
    assert_eq!(find(&["self", "build", "-m", "x/Cargo.toml"]), Some(3));
    assert_eq!(find(&["self", "--manifest-path", "a", "-m", "b"]), Some(4));
    assert_eq!(find(&["self", "-m", "-m", "b"]), Some(2));
    assert_eq!(find(&["self", "build", "-m"]), None);
    assert_eq!(find(&["-m", "build"]), None);
    assert_eq!(find(&["self"]), None);
    assert_eq!(find(&[]), None);
}

#[test]
fn the_daemon_is_found() {
    assert_eq!(daemon_path(None), "/nix/var/nix/daemon-socket/socket");
    assert_eq!(daemon_path(Some("unix:///run/nix.sock")), "/run/nix.sock");
    assert_eq!(daemon_path(Some("/run/nix.sock")), "/run/nix.sock");
    assert_eq!(daemon_path(Some("")), "");
}

#[test]
fn configuration_files() {
    assert_eq!(config_path(None).bytes, b"extern.json");
    assert_eq!(config_path(Some(path("/etc/deps.json"))).bytes, b"/etc/deps.json");
}

#[test]
fn names_in_the_store() {
    assert_eq!(platform("x86_64", "linux").as_ref(), b"x86_64-linux");
    assert_eq!(drv_file_name("foo"), "foo.drv");
    assert_eq!(submitted_output("foo"), "foo.drv");
}

#[test]
fn sources_are_put_into_the_store_once() {
    let mut cache = SourceCache::new();
    assert!(cache.lookup(&path("/a/b")).is_none());
    cache.note(path("/a/b"), StorePath { base_name: "h-b-src".to_owned() });
    cache.note(path("/a/c"), StorePath { base_name: "h-c-src".to_owned() });
    assert_eq!(cache.lookup(&path("/a/b")).unwrap().base_name, "h-b-src");
    assert_eq!(cache.lookup(&path("/a//b/")).unwrap().base_name, "h-b-src");
    assert_eq!(cache.lookup(&path("/a/c")).unwrap().base_name, "h-c-src");
    assert!(cache.lookup(&path("/a")).is_none());
}

#[test]
fn the_wrapper_links_to_the_output() {
    let base = UnitCache {
        drv_path: StorePath { base_name: "h-app.drv".to_owned() },
        out: placeholder("/ph-app"),
        flags: placeholder("/ph-app-flags"),
        meta: UnitCacheMeta::default(),
    };
    let tools = Tools::find(searches()).unwrap();
    let drv = submit_wrapper("pkgs", "app", &tools.ln, &base, &own(), &platform("x86_64", "linux"));
    assert_eq!(drv.name, "pkgs-app");
    assert_eq!(drv.outputs.len(), 1);
    assert_eq!(drv.outputs[0].name, OutputName::Out);
    assert_eq!(drv.outputs[0].method, ContentAddressMethod::Flat);
    assert_eq!(opaque(&drv.inputs), vec!["h-app.drv^out", "h-ln"]);
    assert_eq!(drv.platform.as_ref(), b"x86_64-linux");
    assert_eq!(drv.builder.as_ref(), b"/nix/store/h-ln/bin/ln");
    assert_eq!(strings(&drv.args), vec!["-s", "/ph-app", "/own-out"]);
    assert!(drv.env.entries().is_empty());
    let mut refs: Vec<String> = drv.references().into_iter().map(|r| r.base_name).collect();
    refs.sort();
    assert_eq!(refs, vec!["h-app.drv", "h-ln"]);
}

#[test]
fn the_target_is_asked_for() {
    let tools = Tools::find(searches()).unwrap();
    let drv = target_env_drv(&tools, Some("wasm32-wasi"), &own(), &platform("aarch64", "linux"));
    assert_eq!(drv.name, "cargo-cfg-wasm32-wasi");
    assert_eq!(drv.outputs[0].method, ContentAddressMethod::Flat);
    assert_eq!(opaque(&drv.inputs), vec!["h-rustc", "h-target-env"]);
    assert_eq!(drv.platform.as_ref(), b"aarch64-linux");
    assert_eq!(drv.builder.as_ref(), b"/nix/store/h-target-env/bin/target-env");
    assert_eq!(
        strings(&drv.args),
        vec!["/nix/store/h-rustc/bin/rustc", "wasm32-wasi", "/own-out"]
    );

    let host = target_env_drv(&tools, None, &own(), &platform("aarch64", "linux"));
    assert_eq!(host.name, "cargo-cfg-host");
    assert_eq!(strings(&host.args), vec!["/nix/store/h-rustc/bin/rustc", "", "/own-out"]);
}
