//! What goes into the Nix store besides the units' own derivations, and under which names.
use crate::derivation::{
    output_map, ContentAddressMethod, Derivation, DerivationOutput, DerivedPath, EnvMap, Input,
    InputSet, OutputName, Recipe, StorePath,
};
use crate::path::{names, same_path, UnixPath};
use crate::text::{strip_prefix, without_prefix};
use crate::tools::{Tool, Tools};
use crate::unit_drv::{OwnOutputs, UnitCache};
use crate::util::{bytes_clone, bytes_from_string, contents, text_bytes, CloneBytes};
use bytes::Bytes;
use vstd::prelude::*;
use vstd::utf8::encode_utf8;

verus! {

/// Where the Nix daemon listens, unless the environment says otherwise.
pub const DEFAULT_SOCKET: &'static str = "/nix/var/nix/daemon-socket/socket";

/// The path of the socket that `remote` names.
pub open spec fn socket_path(remote: Option<Seq<char>>) -> Seq<char> {
    match remote {
        Some(remote) => match without_prefix(remote, "unix://"@) {
            Some(path) => path,
            None => remote,
        },
        None => DEFAULT_SOCKET@,
    }
}

/// The text of an optional string slice.
pub open spec fn slice_text(s: Option<&str>) -> Option<Seq<char>> {
    match s {
        Some(s) => Some(s@),
        None => None,
    }
}

/// The path of the daemon's socket. `remote` is what the environment names, either as a path or as
/// a `unix://` address.
pub fn daemon_path(remote: Option<&str>) -> (r: String)
    ensures
        r@ == socket_path(slice_text(remote)),
{
    match remote {
        Some(remote) => match strip_prefix(remote, "unix://") {
            Some(path) => path.to_owned(),
            None => remote.to_owned(),
        },
        None => DEFAULT_SOCKET.to_owned(),
    }
}

/// The platform that derivations are built on, as Nix names it.
pub fn platform(arch: &str, os: &str) -> (b: Bytes)
    ensures
        contents(b) == encode_utf8(arch@ + "-"@ + os@),
{
    bytes_from_string(arch.to_owned().concat("-").concat(os))
}

/// The name of the file that a derivation is kept in.
pub fn drv_file_name(drv_name: &str) -> (r: String)
    ensures
        r@ == drv_name@ + ".drv"@,
{
    drv_name.to_owned().concat(".drv")
}

/// The sources that were put into the store, by the path that leads to them.
#[derive(Debug)]
pub struct SourceCache {
    entries: Vec<(UnixPath, StorePath)>,
}

spec fn source_has(entries: Seq<(UnixPath, StorePath)>, key: Seq<Seq<u8>>) -> bool {
    exists|k: int| 0 <= k < entries.len() && names((#[trigger] entries[k]).0@) == key
}

spec fn source_index(entries: Seq<(UnixPath, StorePath)>, key: Seq<Seq<u8>>) -> int {
    choose|k: int| 0 <= k < entries.len() && names((#[trigger] entries[k]).0@) == key
}

impl View for SourceCache {
    type V = Map<Seq<Seq<u8>>, Seq<char>>;

    closed spec fn view(&self) -> Map<Seq<Seq<u8>>, Seq<char>> {
        Map::new(
            |key: Seq<Seq<u8>>| source_has(self.entries@, key),
            |key: Seq<Seq<u8>>| self.entries@[source_index(self.entries@, key)].1@,
        )
    }
}

impl SourceCache {
    /// No path is listed twice.
    pub closed spec fn wf(&self) -> bool {
        forall|j: int, k: int|
            0 <= j < k < self.entries@.len() ==> names((#[trigger] self.entries@[j]).0@) != names(
                (#[trigger] self.entries@[k]).0@,
            )
    }

    /// Nothing is in the store yet.
    pub fn new() -> (r: SourceCache)
        ensures
            r.wf(),
            r@ == Map::<Seq<Seq<u8>>, Seq<char>>::empty(),
    {
        let r = SourceCache { entries: Vec::new() };
        assert(r@ =~= Map::<Seq<Seq<u8>>, Seq<char>>::empty());
        r
    }

    /// The store object for a path, if it was put into the store.
    pub fn lookup(&self, path: &UnixPath) -> (r: Option<StorePath>)
        requires
            self.wf(),
        ensures
            match r {
                Some(store_path) => self@.contains_key(names(path@)) && self@[names(path@)]
                    == store_path@,
                None => !self@.contains_key(names(path@)),
            },
    {
        let mut k: usize = 0;
        while k < self.entries.len()
            invariant
                k <= self.entries@.len(),
                self.wf(),
                forall|j: int|
                    0 <= j < k ==> names((#[trigger] self.entries@[j]).0@) != names(path@),
            decreases self.entries@.len() - k,
        {
            let entry = &self.entries[k];
            if same_path(entry.0.bytes.as_slice(), path.bytes.as_slice()) {
                proof {
                    let j = source_index(self.entries@, names(path@));
                    assert(names(self.entries@[k as int].0@) == names(path@));
                    assert(names(self.entries@[j].0@) == names(path@));
                    assert(j == k);
                }
                return Some(entry.1.clone());
            }
            k = k + 1;
        }
        None
    }

    /// Notes the store object for a path that was not in the store.
    pub fn note(&mut self, path: UnixPath, store_path: StorePath)
        requires
            old(self).wf(),
            !old(self)@.contains_key(names(path@)),
        ensures
            final(self).wf(),
            final(self)@ == old(self)@.insert(names(path@), store_path@),
    {
        let ghost before = self.entries@;
        let ghost key = names(path@);
        let ghost value = store_path@;
        self.entries.push((path, store_path));
        proof {
            let after = self.entries@;
            assert(names(after[before.len() as int].0@) == key);
            assert forall|j: int, k: int| 0 <= j < k < after.len() implies names(
                (#[trigger] after[j]).0@,
            ) != names((#[trigger] after[k]).0@) by {
                assert(after[j] == before[j]);
                if k < before.len() {
                    assert(after[k] == before[k]);
                } else if names(after[j].0@) == key {
                    assert(source_has(before, key));
                }
            }
            assert forall|n: Seq<Seq<u8>>| self@.contains_key(n) <==> old(self)@.insert(
                key,
                value,
            ).contains_key(n) by {
                if source_has(after, n) && n != key {
                    let j = source_index(after, n);
                    assert(names(after[j].0@) == n);
                    assert(before[j] == after[j]);
                }
                if source_has(before, n) {
                    let j = source_index(before, n);
                    assert(names(before[j].0@) == n);
                    assert(before[j] == after[j]);
                }
            }
            assert forall|n: Seq<Seq<u8>>| self@.contains_key(n) implies self@[n] == old(
                self,
            )@.insert(key, value)[n] by {
                let j = source_index(after, n);
                assert(names(after[j].0@) == n);
                if n != key {
                    assert(before[j] == after[j]);
                    assert(source_has(before, n));
                    let i = source_index(before, n);
                    assert(names(before[i].0@) == n);
                    assert(before[i] == after[i]);
                } else {
                    assert(j == before.len());
                }
            }
            assert(self@ =~= old(self)@.insert(key, value));
        }
    }
}

/// The derivation that makes a link to the output of another, under a name that the derivation
/// which plans the builds may hand out.
pub open spec fn wrapper_recipe(
    base_name: Seq<char>,
    unit_name: Seq<char>,
    ln: Tool,
    base: UnitCache,
    own: OwnOutputs,
    platform: Seq<u8>,
) -> Recipe {
    Recipe {
        name: base_name + "-"@ + unit_name,
        outputs: Map::<OutputName, ContentAddressMethod>::empty().insert(
            OutputName::Out,
            ContentAddressMethod::Flat,
        ),
        inputs: Set::<Input>::empty().insert(
            Input::Built(base.drv_path@, OutputName::Out),
        ).insert(Input::Opaque(ln.store_path@)),
        platform,
        builder: ln.real_path@,
        args: seq![encode_utf8("-s"@), encode_utf8(base.out@), encode_utf8(own.out@)],
        env: Map::<Seq<u8>, Seq<u8>>::empty(),
    }
}

fn one_output(method: ContentAddressMethod) -> (r: Vec<DerivationOutput>)
    ensures
        output_map(r@) == Map::<OutputName, ContentAddressMethod>::empty().insert(
            OutputName::Out,
            method,
        ),
{
    let mut r: Vec<DerivationOutput> = Vec::new();
    r.push(DerivationOutput { name: OutputName::Out, method });
    proof {
        reveal_with_fuel(output_map, 2);
    }
    r
}

/// Builds the derivation that makes a link to the output of another.
pub fn submit_wrapper(
    base_name: &str,
    unit_name: &str,
    ln: &Tool,
    base: &UnitCache,
    own: &OwnOutputs,
    platform: &Bytes,
) -> (drv: Derivation)
    ensures
        drv.wf(),
        drv@ == wrapper_recipe(base_name@, unit_name@, *ln, *base, *own, contents(*platform)),
{
    let mut inputs = InputSet::new();
    inputs.insert(
        DerivedPath::Built { drv_path: base.drv_path.clone(), output: OutputName::Out },
    );
    inputs.insert(DerivedPath::Opaque(ln.store_path.clone()));
    let mut args: Vec<Bytes> = Vec::new();
    args.push(text_bytes("-s"));
    args.push(text_bytes(base.out.path.as_str()));
    args.push(text_bytes(own.out.path.as_str()));
    let drv = Derivation {
        name: base_name.to_owned().concat("-").concat(unit_name),
        outputs: one_output(ContentAddressMethod::Flat),
        inputs,
        platform: bytes_clone(platform),
        builder: ln.real_path.clone_bytes(),
        args,
        env: EnvMap::new(),
    };
    assert(drv@.args =~= seq![encode_utf8("-s"@), encode_utf8(base.out@), encode_utf8(own.out@)]);
    drv
}

/// The name of the output that a unit's derivation is handed out under.
pub fn submitted_output(unit_name: &str) -> (r: String)
    ensures
        r@ == unit_name@ + ".drv"@,
{
    drv_file_name(unit_name)
}

/// The derivation that asks the compiler for the properties of a target.
pub open spec fn target_env_recipe(
    tools: Tools,
    target: Option<Seq<char>>,
    own: OwnOutputs,
    platform: Seq<u8>,
) -> Recipe {
    Recipe {
        name: "cargo-cfg-"@ + match target {
            Some(target) => target,
            None => "host"@,
        },
        outputs: Map::<OutputName, ContentAddressMethod>::empty().insert(
            OutputName::Out,
            ContentAddressMethod::Flat,
        ),
        inputs: Set::<Input>::empty().insert(Input::Opaque(tools.rustc.store_path@)).insert(
            Input::Opaque(tools.target_env.store_path@),
        ),
        platform,
        builder: tools.target_env.real_path@,
        args: seq![
            tools.rustc.real_path@,
            encode_utf8(
                match target {
                    Some(target) => target,
                    None => ""@,
                },
            ),
            encode_utf8(own.out@),
        ],
        env: Map::<Seq<u8>, Seq<u8>>::empty(),
    }
}

/// Builds the derivation that asks the compiler for the properties of a target, or of the host.
pub fn target_env_drv(
    tools: &Tools,
    target: Option<&str>,
    own: &OwnOutputs,
    platform: &Bytes,
) -> (drv: Derivation)
    ensures
        drv.wf(),
        drv@ == target_env_recipe(*tools, slice_text(target), *own, contents(*platform)),
{
    let mut inputs = InputSet::new();
    inputs.insert(DerivedPath::Opaque(tools.rustc.store_path.clone()));
    inputs.insert(DerivedPath::Opaque(tools.target_env.store_path.clone()));
    let mut args: Vec<Bytes> = Vec::new();
    args.push(tools.rustc.real_path.clone_bytes());
    let label = match target {
        Some(target) => {
            args.push(text_bytes(target));
            target
        },
        None => {
            args.push(text_bytes(""));
            "host"
        },
    };
    args.push(text_bytes(own.out.path.as_str()));
    let drv = Derivation {
        name: "cargo-cfg-".to_owned().concat(label),
        outputs: one_output(ContentAddressMethod::Flat),
        inputs,
        platform: bytes_clone(platform),
        builder: tools.target_env.real_path.clone_bytes(),
        args,
        env: EnvMap::new(),
    };
    assert(drv@.args =~= target_env_recipe(
        *tools,
        slice_text(target),
        *own,
        contents(*platform),
    ).args);
    drv
}

} // verus!
