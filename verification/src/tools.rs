//! The programs that builds run, and where they are kept in the Nix store.
use crate::derivation::{EnvMap, StorePath};
use crate::path::{
    component_names, components, copy_bytes, is_normal, lemma_spans, names, normal, parent,
    parent_of, starts_with_names, UnixPath, SLASH,
};
use crate::text::{ascii_constant_case, constant_case, constant_name};
use crate::util::{bytes_from_vec, text_bytes, CloneBytes};
use vstd::prelude::*;
use vstd::utf8::{encode_utf8, is_ascii_chars, valid_utf8};

verus! {

/// `String::from_utf8`: the text whose UTF-8 encoding the bytes are, if they are any.
#[verifier::external_body]
pub(crate) fn text_from_utf8(v: Vec<u8>) -> (r: Option<String>)
    ensures
        match r {
            Some(s) => valid_utf8(v@) && encode_utf8(s@) == v@,
            None => !valid_utf8(v@),
        },
{
    String::from_utf8(v).ok()
}

/// The entry of the directory `dir` that a path leads through, if it is a plain name.
pub open spec fn entry_of(dir: Seq<u8>, p: Seq<u8>) -> Option<Seq<u8>> {
    let n = names(dir).len() as int;
    if names(dir).is_prefix_of(names(p)) && n < names(p).len() && is_normal(names(p)[n]) {
        Some(names(p)[n])
    } else {
        None
    }
}

/// The base name of the store object that holds `path`, as far as the text of the path shows:
/// the entry of the store directory that the path leads through, if it is plain UTF-8.
pub fn containing_store_path(store_dir: &UnixPath, path: &UnixPath) -> (r: Option<String>)
    ensures
        match r {
            Some(name) => entry_of(store_dir@, path@) == Some(encode_utf8(name@)),
            None => match entry_of(store_dir@, path@) {
                Some(entry) => !valid_utf8(entry),
                None => true,
            },
        },
{
    let base = component_names(store_dir.bytes.as_slice());
    let all = component_names(path.bytes.as_slice());
    assert(names(store_dir@).len() == base@.len() && names(path@).len() == all@.len());
    if base.len() >= all.len() || !starts_with_names(&all, &base) {
        return None;
    }
    let entry = &all[base.len()];
    assert(names(path@)[base@.len() as int] == entry@);
    if !normal(entry) {
        return None;
    }
    text_from_utf8(copy_bytes(entry.as_slice()))
}

/// A path that leads through an entry of a directory has a parent.
pub proof fn lemma_entry_has_parent(dir: Seq<u8>, p: Seq<u8>)
    requires
        entry_of(dir, p) is Some,
    ensures
        parent_of(p) is Some,
{
    lemma_spans(p, p.len() as int);
    let n = components(p).len() as int;
    assert(names(p).len() == n);
    if names(p)[n - 1] == seq![SLASH] {
        let c = components(p)[n - 1];
        assert(p.subrange(c.0, c.1)[0] == p[c.0]);
        crate::path::lemma_span_starts(p, p.len() as int, n - 1);
        assert(c.0 == 0);
        if n > 1 {
            assert(components(p)[0].0 < components(p)[n - 1].0);
        }
    }
}

/// A program that builds may run.
#[derive(Debug)]
pub struct Tool {
    /// The store object that it belongs to.
    pub store_path: StorePath,
    /// Where the program is.
    pub real_path: UnixPath,
}

impl Clone for Tool {
    fn clone(&self) -> (r: Self)
        ensures
            r.same_as(*self),
    {
        Tool { store_path: self.store_path.clone(), real_path: self.real_path.clone() }
    }
}

/// Why a program cannot be used.
#[derive(Debug)]
pub enum ToolError {
    /// It was not found, neither under its own name nor under the one that was tried instead.
    NotFound { tool: String, tried: Option<UnixPath> },
    /// It is not in the Nix store.
    NotInStore { tool: String },
}

/// Where to look for a program.
#[derive(Debug)]
pub enum Search {
    /// Look it up as a shell would.
    Program(UnixPath),
    /// It is here.
    Fixed(UnixPath),
}

/// The environment variable that names a program: its own name in upper case, with `_` for `-`.
pub fn tool_variable(tool_name: &str) -> (r: String)
    ensures
        r@ == constant_case(tool_name@),
        is_ascii_chars(tool_name@) ==> r@ == ascii_constant_case(tool_name@),
{
    constant_name(tool_name)
}

/// Decides where to look for a program: the environment comes first, then a path that was built
/// in, then the program's own name.
pub fn tool_search(tool_name: &str, variable: Option<UnixPath>, fallback: Option<&str>) -> (r:
    Search)
    ensures
        match variable {
            Some(path) => r matches Search::Program(p) && p@ == path@,
            None => match fallback {
                Some(path) => r matches Search::Fixed(p) && p@ == encode_utf8(path@),
                None => r matches Search::Program(p) && p@ == encode_utf8(tool_name@),
            },
        },
{
    match variable {
        Some(path) => Search::Program(path),
        None => match fallback {
            Some(path) => Search::Fixed(UnixPath { bytes: copy_bytes(path.as_bytes()) }),
            None => Search::Program(UnixPath { bytes: copy_bytes(tool_name.as_bytes()) }),
        },
    }
}

impl Tool {
    /// The same program of the same store object.
    pub open spec fn same_as(self, other: Tool) -> bool {
        &&& self.store_path@ == other.store_path@
        &&& self.real_path@ == other.real_path@
    }

    /// Takes up a program that was searched for. `variable` is what the environment named it,
    /// `located` is where the search ended, and `well_formed` says whether the entry of the store
    /// directory that holds it is named as a store object is.
    pub fn find(
        store_dir: &UnixPath,
        tool_name: &str,
        variable: Option<UnixPath>,
        located: Option<UnixPath>,
        well_formed: bool,
    ) -> (r: Result<Tool, ToolError>)
        ensures
            match r {
                Ok(tool) => {
                    &&& well_formed
                    &&& located matches Some(path) && tool.real_path@ == path@
                    &&& entry_of(store_dir@, tool.real_path@) == Some(
                        encode_utf8(tool.store_path@),
                    )
                    &&& parent_of(tool.real_path@) is Some
                },
                Err(ToolError::NotFound { tool, tried }) => {
                    &&& located is None
                    &&& tool@ == tool_name@
                    &&& tried == variable
                },
                Err(ToolError::NotInStore { tool }) => {
                    &&& tool@ == tool_name@
                    &&& located matches Some(path) && (!well_formed || match entry_of(
                        store_dir@,
                        path@,
                    ) {
                        Some(entry) => !valid_utf8(entry),
                        None => true,
                    })
                },
            },
    {
        let real_path = match located {
            Some(path) => path,
            None => {
                return Err(ToolError::NotFound { tool: tool_name.to_owned(), tried: variable });
            },
        };
        match containing_store_path(store_dir, &real_path) {
            Some(base_name) => {
                if well_formed {
                    proof {
                        lemma_entry_has_parent(store_dir@, real_path@);
                    }
                    Ok(Tool { store_path: StorePath { base_name }, real_path })
                } else {
                    Err(ToolError::NotInStore { tool: tool_name.to_owned() })
                }
            },
            None => Err(ToolError::NotInStore { tool: tool_name.to_owned() }),
        }
    }
}

/// How the searches for the programs went.
pub struct Searches {
    pub cc: Result<Tool, ToolError>,
    pub host_cc: Result<Tool, ToolError>,
    pub cxx: Result<Tool, ToolError>,
    pub host_cxx: Result<Tool, ToolError>,
    pub rustc: Result<Tool, ToolError>,
    pub cargo: Result<Tool, ToolError>,
    pub env_wrap: Result<Tool, ToolError>,
    pub build_wrap: Result<Tool, ToolError>,
    pub target_env: Result<Tool, ToolError>,
    pub ln: Result<Tool, ToolError>,
}

/// All programs that the builds need.
pub struct Tools {
    pub rustc: Tool,
    pub cargo: Tool,
    pub target_cc: Tool,
    pub host_cc: Tool,
    pub target_cxx: Tool,
    pub host_cxx: Tool,
    pub env_wrap: Tool,
    pub build_wrap: Tool,
    pub target_env: Tool,
    pub ln: Tool,
}

/// The searches whose success is needed, in the order in which a failure is reported.
pub open spec fn needed(s: Searches) -> Seq<Result<Tool, ToolError>> {
    seq![s.cc, s.cxx, s.rustc, s.cargo, s.env_wrap, s.build_wrap, s.target_env, s.ln]
}

/// The first failure in a list of searches.
pub open spec fn first_failure(s: Seq<Result<Tool, ToolError>>) -> Option<ToolError>
    decreases s.len(),
{
    if s.len() == 0 {
        None
    } else {
        match s[0] {
            Ok(_) => first_failure(s.drop_first()),
            Err(e) => Some(e),
        }
    }
}

/// What builds find in their environment from the start: the compiler and the directory it is in.
pub open spec fn base_env(rustc: Seq<u8>) -> Map<Seq<u8>, Seq<u8>> {
    Map::<Seq<u8>, Seq<u8>>::empty().insert(
        encode_utf8("PATH"@),
        parent_of(rustc)->0,
    ).insert(encode_utf8("RUSTC"@), rustc)
}

impl Tools {
    /// Puts the programs together. The C compiler stands in for a host compiler that is missing.
    pub fn find(s: Searches) -> (r: Result<Tools, ToolError>)
        ensures
            match r {
                Ok(t) => {
                    &&& s.cc == Ok::<Tool, ToolError>(t.target_cc)
                    &&& s.cxx == Ok::<Tool, ToolError>(t.target_cxx)
                    &&& s.rustc == Ok::<Tool, ToolError>(t.rustc)
                    &&& s.cargo == Ok::<Tool, ToolError>(t.cargo)
                    &&& s.env_wrap == Ok::<Tool, ToolError>(t.env_wrap)
                    &&& s.build_wrap == Ok::<Tool, ToolError>(t.build_wrap)
                    &&& s.target_env == Ok::<Tool, ToolError>(t.target_env)
                    &&& s.ln == Ok::<Tool, ToolError>(t.ln)
                    &&& match s.host_cc {
                        Ok(tool) => t.host_cc == tool,
                        Err(_) => t.host_cc.same_as(t.target_cc),
                    }
                    &&& match s.host_cxx {
                        Ok(tool) => t.host_cxx == tool,
                        Err(_) => t.host_cxx.same_as(t.target_cc),
                    }
                },
                Err(e) => first_failure(needed(s)) == Some(e),
            },
    {
        proof {
            reveal_with_fuel(first_failure, 9);
            let all = needed(s);
            assert(all.drop_first() =~= seq![
                s.cxx,
                s.rustc,
                s.cargo,
                s.env_wrap,
                s.build_wrap,
                s.target_env,
                s.ln,
            ]);
        }
        let cc = match s.cc {
            Ok(tool) => tool,
            Err(e) => return Err(e),
        };
        let host_cc = match s.host_cc {
            Ok(tool) => tool,
            Err(_) => cc.clone(),
        };
        let cxx = match s.cxx {
            Ok(tool) => tool,
            Err(e) => return Err(e),
        };
        let host_cxx = match s.host_cxx {
            Ok(tool) => tool,
            Err(_) => cc.clone(),
        };
        let rustc = match s.rustc {
            Ok(tool) => tool,
            Err(e) => return Err(e),
        };
        let cargo = match s.cargo {
            Ok(tool) => tool,
            Err(e) => return Err(e),
        };
        let env_wrap = match s.env_wrap {
            Ok(tool) => tool,
            Err(e) => return Err(e),
        };
        let build_wrap = match s.build_wrap {
            Ok(tool) => tool,
            Err(e) => return Err(e),
        };
        let target_env = match s.target_env {
            Ok(tool) => tool,
            Err(e) => return Err(e),
        };
        let ln = match s.ln {
            Ok(tool) => tool,
            Err(e) => return Err(e),
        };
        Ok(
            Tools {
                rustc,
                cargo,
                target_cc: cc,
                host_cc,
                target_cxx: cxx,
                host_cxx,
                env_wrap,
                build_wrap,
                target_env,
                ln,
            },
        )
    }

    /// The environment that every build starts from.
    pub fn base_environment(&self) -> (env: EnvMap)
        requires
            parent_of(self.rustc.real_path@) is Some,
        ensures
            env.wf(),
            env@ == base_env(self.rustc.real_path@),
    {
        let mut env = EnvMap::new();
        match parent(self.rustc.real_path.bytes.as_slice()) {
            Some(dir) => env.insert(text_bytes("PATH"), bytes_from_vec(dir)),
            None => {},
        }
        env.insert(text_bytes("RUSTC"), self.rustc.real_path.clone_bytes());
        env
    }
}

} // verus!
