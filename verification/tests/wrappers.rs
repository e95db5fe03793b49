use cargo_dyndrv::build_wrap::{directive, exit_status, push_arg, Directive};
use cargo_dyndrv::env_wrap::{parse_args, parse_env, EnvLine, WrapError};
use cargo_dyndrv::target_env::{
    cfg_readable, cfg_variables, choose_target, host_tuple, tuple_variables,
};

fn shown(d: Directive) -> (&'static str, String) {
    match d {
        Directive::Nothing => ("nothing", String::new()),
        Directive::Immediate(s) => ("immediate", s),
        Directive::Transitive(s) => ("transitive", s),
        Directive::Env(s) => ("env", s),
        Directive::Error(s) => ("error", s),
    }
}

fn assert_directive(line: &str, kind: &str, text: &str) {
    let (k, t) = shown(directive(line));
    assert_eq!((k, t.as_str()), (kind, text), "{:?}", line);
}

#[test]
fn directives_of_each_kind() {
    assert_directive("cargo:rustc-link-arg=-Wl,-z", "transitive", "-C\nlink-arg=-Wl,-z\n");
    assert_directive("cargo:rustc-link-lib=static=z", "transitive", "-l\nstatic=z\n");
    assert_directive("cargo:rustc-link-search=native=/x", "transitive", "-L\nnative=/x\n");
    assert_directive("cargo:rustc-cfg=has_foo", "immediate", "--cfg\nhas_foo\n");
    assert_directive("cargo:rustc-check-cfg=cfg(foo)", "immediate", "--check-cfg\ncfg(foo)\n");
    assert_directive("cargo:rustc-flags=-l z -L /x", "transitive", "-l\nz\n-L\n/x");
    assert_directive("cargo:rustc-env=KEY=a=b", "env", "KEY=a=b\n");
    assert_directive("cargo:error=it broke", "error", "it broke");
}

#[test]
fn other_lines_add_nothing() {
    for line in [
        "",
        "hello",
        "cargo",
        "cargo:",
        "cargo::",
        "cargo:rustc-cfg",
        "cargo:rerun-if-changed=build.rs",
        "cargo:warning=careful",
        " cargo:rustc-cfg=x",
        "cargo:::rustc-cfg=x",
        "Cargo:rustc-cfg=x",
    ] {
        assert_directive(line, "nothing", "");
    }
}

#[test]
fn one_colon_means_the_same_as_two() {
    for rest in ["rustc-cfg=x", "rustc-env=A=B", "error=e", "rustc-flags=-l a", "metadata=k=v", ""] {
        let one = shown(directive(&format!("cargo:{}", rest)));
        let two = shown(directive(&format!("cargo::{}", rest)));
        assert_eq!(one, two);
    }
}

#[test]
fn arguments_are_written_on_lines_of_their_own() {
    let mut file = "-l\na\n".to_owned();
    push_arg(&mut file, "-L", "/x");
    assert_eq!(file, "-l\na\n-L\n/x\n");
}

#[test]
fn exit_statuses() {
    assert_eq!(exit_status(Some(0), false), 0);
    assert_eq!(exit_status(Some(101), false), 101);
    assert_eq!(exit_status(Some(256), false), 0);
    assert_eq!(exit_status(None, false), 0);
    assert_eq!(exit_status(Some(0), true), 1);
    assert_eq!(exit_status(Some(7), true), 1);
    for code in [-1, -256, -300, i32::MIN, i32::MAX, 511] {
        assert_eq!(exit_status(Some(code), false), code as u8);
    }
}

fn args(all: &[&str]) -> Vec<Vec<u8>> {
    all.iter().map(|a| a.as_bytes().to_vec()).collect()
}

#[test]
fn wrapper_arguments_are_taken_apart() {
    let call = parse_args(&args(&["/f1", "/f2", "--", "rustc", "-o", "--", "x"])).unwrap();
    assert_eq!(call.env_files, args(&["/f1", "/f2"]));
    assert_eq!(call.command, b"rustc");
    assert_eq!(call.args, args(&["-o", "--", "x"]));

    let call = parse_args(&args(&["--", "true"])).unwrap();
    assert!(call.env_files.is_empty());
    assert_eq!(call.command, b"true");
    assert!(call.args.is_empty());
}

#[test]
fn wrapper_arguments_may_be_wrong() {
    assert_eq!(parse_args(&args(&[])).err(), Some(WrapError::NoSeparator));
    assert_eq!(parse_args(&args(&["a", "---", "-"])).err(), Some(WrapError::NoSeparator));
    assert_eq!(parse_args(&args(&["a", "--"])).err(), Some(WrapError::NoCommand));
}

fn settings(content: &str) -> Vec<(String, String)> {
    parse_env(content)
        .into_iter()
        .map(|line| match line {
            EnvLine::Assigned(k, v) => (k.to_owned(), v.to_owned()),
            EnvLine::Skipped(l) => ("skipped".to_owned(), l.to_owned()),
        })
        .collect()
}

fn pairs(all: &[(&str, &str)]) -> Vec<(String, String)> {
    all.iter().map(|(k, v)| ((*k).to_owned(), (*v).to_owned())).collect()
}

#[test]
fn environment_files_are_read() {
    assert_eq!(
        settings("A=1\nB=x=y\n\nnothing\nC=\r\n=v"),
        pairs(&[
            ("A", "1"),
            ("B", "x=y"),
            ("skipped", ""),
            ("skipped", "nothing"),
            ("C", ""),
            ("", "v"),
        ])
    );
    assert!(settings("").is_empty());
}

#[test]
fn what_a_build_script_asks_for_is_read_back() {
    let mut file = String::new();
    for line in ["cargo:rustc-env=A=1", "noise", "cargo::rustc-env=B=two words", "cargo:rustc-cfg=x"] {
        if let Directive::Env(text) = directive(line) {
            file.push_str(&text);
        }
    }
    assert_eq!(settings(&file), pairs(&[("A", "1"), ("B", "two words")]));
}

const CFG: &str = "debug_assertions\npanic=\"unwind\"\n\ntarget_feature=\"sse2\"\n\
                   target_feature=\"fxsr\"\ntarget_feature=\"sse\"\ntarget_feature=\"sse\"\n\
                   target_os=\"linux\"\nunix\nbroken=\nworse=x\nempty=\"\"\n";

#[test]
fn compiler_settings_become_variables() {
    assert!(cfg_readable(CFG));
    assert_eq!(
        cfg_variables(CFG),
        "CARGO_CFG_DEBUG_ASSERTIONS=\n\
         CARGO_CFG_EMPTY=\n\
         CARGO_CFG_PANIC=unwind\n\
         CARGO_CFG_TARGET_FEATURE=fxsr,sse,sse2\n\
         CARGO_CFG_TARGET_OS=linux\n\
         CARGO_CFG_UNIX=\n"
    );
    assert_eq!(cfg_variables(""), "");
    assert_eq!(cfg_variables("unix\nunix=\"a\"\n"), "CARGO_CFG_UNIX=,a\n");
    assert_eq!(cfg_variables("a-b=\"c\"\n"), "CARGO_CFG_A-B=c\n");
}

#[test]
fn settings_that_cannot_be_unquoted() {
    assert!(!cfg_readable("a=\u{e9}"));
    assert!(!cfg_readable("ok\na=\"x\u{e9}"));
    assert!(!cfg_readable("a=\u{e9}x\""));
    assert!(cfg_readable("a=\"\u{e9}\""));
    assert_eq!(cfg_variables("a=\"\u{e9}\""), "CARGO_CFG_A=\u{e9}\n");
}

#[test]
fn host_and_target() {
    assert_eq!(host_tuple("x86_64-unknown-linux-gnu\n"), "x86_64-unknown-linux-gnu");
    assert_eq!(choose_target("host", ""), "host");
    assert_eq!(choose_target("host", "wasm32-wasi"), "wasm32-wasi");
    assert_eq!(tuple_variables("h", "t"), "HOST=h\nTARGET=t\n");
}

#[test]
fn what_is_written_of_a_target_is_read_back() {
    let file = format!("{}{}", tuple_variables("h", "t"), cfg_variables(CFG));
    assert_eq!(
        settings(&file),
        pairs(&[
            ("HOST", "h"),
            ("TARGET", "t"),
            ("CARGO_CFG_DEBUG_ASSERTIONS", ""),
            ("CARGO_CFG_EMPTY", ""),
            ("CARGO_CFG_PANIC", "unwind"),
            ("CARGO_CFG_TARGET_FEATURE", "fxsr,sse,sse2"),
            ("CARGO_CFG_TARGET_OS", "linux"),
            ("CARGO_CFG_UNIX", ""),
        ])
    );
}
