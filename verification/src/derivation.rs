//! Derivations: what is built, from what, and how.
use crate::path::same_bytes;
use crate::util::{
    all_contents, bytes_as_slice, bytes_clone, bytes_from_string, contents, IntoBytes,
};
use bytes::Bytes;
use vstd::prelude::*;
use vstd::utf8::encode_utf8;

verus! {

/// An object of the Nix store, known by its base name (`<hash>-<name>`).
#[derive(Debug)]
pub struct StorePath {
    pub base_name: String,
}

impl View for StorePath {
    type V = Seq<char>;

    open spec fn view(&self) -> Seq<char> {
        self.base_name@
    }
}

impl Clone for StorePath {
    fn clone(&self) -> (r: Self)
        ensures
            r@ == self@,
    {
        StorePath { base_name: self.base_name.clone() }
    }
}

/// The outputs that derivations have here.
#[derive(PartialEq, Eq, Structural, Copy, Clone, Debug)]
pub enum OutputName {
    /// The build result, `out`.
    Out,
    /// The compiler flags that a build script asks for, `flags`.
    Flags,
}

impl OutputName {
    /// The output's name in Nix.
    pub open spec fn spec_text(self) -> Seq<char> {
        match self {
            OutputName::Out => "out"@,
            OutputName::Flags => "flags"@,
        }
    }

    /// The output's name in Nix.
    pub fn text(self) -> (r: &'static str)
        ensures
            r@ == self.spec_text(),
    {
        match self {
            OutputName::Out => "out",
            OutputName::Flags => "flags",
        }
    }
}

/// How an output is hashed to find its store path, always with SHA-256.
#[derive(PartialEq, Eq, Structural, Copy, Clone, Debug)]
pub enum ContentAddressMethod {
    /// The output's tree, as a Nix archive.
    NixArchive,
    /// The one file that the output is.
    Flat,
}

/// An output of a derivation: its store path is not fixed before it is built, but follows from
/// its contents.
#[derive(Debug)]
pub struct DerivationOutput {
    pub name: OutputName,
    pub method: ContentAddressMethod,
}

/// What a derivation may be built from.
#[derive(Debug)]
pub enum DerivedPath {
    /// An object that is in the store.
    Opaque(StorePath),
    /// An output of a derivation.
    Built { drv_path: StorePath, output: OutputName },
}

/// An input, by the names that it goes by.
pub enum Input {
    Opaque(Seq<char>),
    Built(Seq<char>, OutputName),
}

impl View for DerivedPath {
    type V = Input;

    open spec fn view(&self) -> Input {
        match self {
            DerivedPath::Opaque(path) => Input::Opaque(path@),
            DerivedPath::Built { drv_path, output } => Input::Built(drv_path@, *output),
        }
    }
}

/// The store object that an input rests on.
pub open spec fn root_of(input: Input) -> Seq<char> {
    match input {
        Input::Opaque(path) => path,
        Input::Built(drv_path, _) => drv_path,
    }
}

impl DerivedPath {
    /// The store object that the input rests on: itself, or the derivation that builds it.
    pub fn root_path(&self) -> (r: &StorePath)
        ensures
            r@ == root_of(self@),
    {
        match self {
            DerivedPath::Opaque(path) => path,
            DerivedPath::Built { drv_path, .. } => drv_path,
        }
    }

    fn same(&self, other: &DerivedPath) -> (r: bool)
        ensures
            r == (self@ == other@),
    {
        match (self, other) {
            (DerivedPath::Opaque(a), DerivedPath::Opaque(b)) => a.base_name == b.base_name,
            (
                DerivedPath::Built { drv_path: a, output: x },
                DerivedPath::Built { drv_path: b, output: y },
            ) => a.base_name == b.base_name && *x == *y,
            _ => false,
        }
    }
}

/// A set of inputs.
#[derive(Debug)]
pub struct InputSet {
    items: Vec<DerivedPath>,
}

impl View for InputSet {
    type V = Set<Input>;

    closed spec fn view(&self) -> Set<Input> {
        Set::new(|i: Input| exists|k: int| 0 <= k < self.items@.len() && self.items@[k]@ == i)
    }
}

impl InputSet {
    /// No input is listed twice.
    pub closed spec fn wf(&self) -> bool {
        forall|j: int, k: int|
            0 <= j < k < self.items@.len() ==> (#[trigger] self.items@[j])@ != (
            #[trigger] self.items@[k])@
    }

    /// The empty set.
    pub fn new() -> (r: InputSet)
        ensures
            r.wf(),
            r@ == Set::<Input>::empty(),
    {
        let r = InputSet { items: Vec::new() };
        assert(r@ =~= Set::<Input>::empty());
        r
    }

    /// Adds an input, unless it is there already.
    pub fn insert(&mut self, input: DerivedPath)
        requires
            old(self).wf(),
        ensures
            final(self).wf(),
            final(self)@ == old(self)@.insert(input@),
    {
        let mut k: usize = 0;
        while k < self.items.len()
            invariant
                k <= self.items@.len(),
                *self == *old(self),
                old(self).wf(),
                forall|j: int| 0 <= j < k ==> (#[trigger] self.items@[j])@ != input@,
            decreases self.items@.len() - k,
        {
            if self.items[k].same(&input) {
                assert(self@.contains(input@));
                assert(self@ =~= old(self)@.insert(input@));
                return ;
            }
            k = k + 1;
        }
        let ghost before = self.items@;
        self.items.push(input);
        proof {
            assert forall|i: Input|
                self@.contains(i) <==> old(self)@.insert(input@).contains(i) by {
                if self@.contains(i) && i != input@ {
                    let k = choose|k: int| 0 <= k < self.items@.len() && self.items@[k]@ == i;
                    assert(before[k]@ == i);
                }
                if old(self)@.contains(i) {
                    let k = choose|k: int| 0 <= k < before.len() && before[k]@ == i;
                    assert(self.items@[k]@ == i);
                }
                if i == input@ {
                    assert(self.items@[before.len() as int]@ == i);
                }
            }
            assert(self@ =~= old(self)@.insert(input@));
        }
    }

    /// The inputs, each once.
    pub fn items(&self) -> (r: &Vec<DerivedPath>)
        requires
            self.wf(),
        ensures
            forall|i: Input| #[trigger]
                self@.contains(i) <==> exists|k: int| 0 <= k < r@.len() && r@[k]@ == i,
            forall|j: int, k: int|
                0 <= j < k < r@.len() ==> (#[trigger] r@[j])@ != (#[trigger] r@[k])@,
    {
        &self.items
    }
}

/// The environment of a build: variables and their values.
#[derive(Debug)]
pub struct EnvMap {
    entries: Vec<(Bytes, Bytes)>,
}

impl View for EnvMap {
    type V = Map<Seq<u8>, Seq<u8>>;

    closed spec fn view(&self) -> Map<Seq<u8>, Seq<u8>> {
        Map::new(
            |key: Seq<u8>| env_has(self.entries@, key),
            |key: Seq<u8>| contents(self.entries@[env_index(self.entries@, key)].1),
        )
    }
}

spec fn env_has(entries: Seq<(Bytes, Bytes)>, key: Seq<u8>) -> bool {
    exists|k: int| 0 <= k < entries.len() && contents((#[trigger] entries[k]).0) == key
}

spec fn env_index(entries: Seq<(Bytes, Bytes)>, key: Seq<u8>) -> int {
    choose|k: int| 0 <= k < entries.len() && contents((#[trigger] entries[k]).0) == key
}

spec fn env_unique(entries: Seq<(Bytes, Bytes)>) -> bool {
    forall|j: int, k: int|
        0 <= j < k < entries.len() ==> contents((#[trigger] entries[j]).0) != contents(
            (#[trigger] entries[k]).0,
        )
}

proof fn lemma_env_index(entries: Seq<(Bytes, Bytes)>, k: int)
    requires
        env_unique(entries),
        0 <= k < entries.len(),
    ensures
        env_has(entries, contents(entries[k].0)),
        env_index(entries, contents(entries[k].0)) == k,
{
    let key = contents(entries[k].0);
    assert(env_has(entries, key));
    let j = env_index(entries, key);
    assert(contents(entries[j].0) == key);
}

impl EnvMap {
    /// No variable is set twice.
    pub closed spec fn wf(&self) -> bool {
        env_unique(self.entries@)
    }

    /// The empty environment.
    pub fn new() -> (r: EnvMap)
        ensures
            r.wf(),
            r@ == Map::<Seq<u8>, Seq<u8>>::empty(),
    {
        let r = EnvMap { entries: Vec::new() };
        assert(r@ =~= Map::<Seq<u8>, Seq<u8>>::empty());
        r
    }

    /// Where a variable is listed, or the number of variables.
    fn find(&self, key: &[u8]) -> (k: usize)
        ensures
            k <= self.entries@.len(),
            k < self.entries@.len() ==> contents(self.entries@[k as int].0) == key@,
            k == self.entries@.len() ==> !env_has(self.entries@, key@),
    {
        let mut k: usize = 0;
        while k < self.entries.len()
            invariant
                k <= self.entries@.len(),
                forall|j: int| 0 <= j < k ==> contents((#[trigger] self.entries@[j]).0) != key@,
            decreases self.entries@.len() - k,
        {
            if same_bytes(bytes_as_slice(&self.entries[k].0), key) {
                return k;
            }
            k = k + 1;
        }
        k
    }

    /// Sets a variable.
    pub fn insert(&mut self, key: Bytes, value: Bytes)
        requires
            old(self).wf(),
        ensures
            final(self).wf(),
            final(self)@ == old(self)@.insert(contents(key), contents(value)),
    {
        let k = self.find(bytes_as_slice(&key));
        let ghost before = self.entries@;
        let ghost at = k as int;
        let ghost name = contents(key);
        let ghost text = contents(value);
        if k < self.entries.len() {
            self.entries.set(k, (key, value));
        } else {
            self.entries.push((key, value));
        }
        proof {
            let after = self.entries@;
            assert(contents(after[at].0) == name);
            assert(env_unique(after)) by {
                assert forall|i: int, j: int| 0 <= i < j < after.len() implies contents(
                    (#[trigger] after[i]).0,
                ) != contents((#[trigger] after[j]).0) by {
                    if i != at {
                        assert(after[i] == before[i]);
                    }
                    if j != at {
                        assert(after[j] == before[j]);
                    }
                    if i != at && j == at && at < before.len() {
                        assert(contents(before[i].0) != contents(before[j].0));
                    }
                    if i == at && at < before.len() {
                        assert(contents(before[i].0) != contents(before[j].0));
                    }
                }
            }
            lemma_env_index(after, at);
            assert forall|n: Seq<u8>| self@.contains_key(n) <==> old(self)@.insert(
                name,
                text,
            ).contains_key(n) by {
                if env_has(after, n) && n != name {
                    let j = env_index(after, n);
                    assert(contents(after[j].0) == n);
                    assert(before[j] == after[j]);
                }
                if env_has(before, n) && n != name {
                    let j = env_index(before, n);
                    assert(contents(before[j].0) == n);
                    assert(before[j] == after[j]);
                }
            }
            assert forall|n: Seq<u8>| self@.contains_key(n) implies self@[n] == old(self)@.insert(
                name,
                text,
            )[n] by {
                if n != name {
                    let j = env_index(after, n);
                    assert(contents(after[j].0) == n);
                    assert(before[j] == after[j]);
                    lemma_env_index(before, j);
                }
            }
            assert(self@ =~= old(self)@.insert(name, text));
        }
    }

    /// The value of a variable.
    pub fn get(&self, key: &[u8]) -> (r: Option<&Bytes>)
        requires
            self.wf(),
        ensures
            match r {
                Some(value) => self@.contains_key(key@) && self@[key@] == contents(*value),
                None => !self@.contains_key(key@),
            },
    {
        let k = self.find(key);
        if k < self.entries.len() {
            proof {
                lemma_env_index(self.entries@, k as int);
            }
            Some(&self.entries[k].1)
        } else {
            None
        }
    }

    /// The variables with their values, each once.
    pub fn entries(&self) -> (r: &Vec<(Bytes, Bytes)>)
        requires
            self.wf(),
        ensures
            forall|key: Seq<u8>| #[trigger]
                self@.contains_key(key) <==> exists|k: int|
                    0 <= k < r@.len() && contents((#[trigger] r@[k]).0) == key,
            forall|k: int|
                0 <= k < r@.len() ==> self@[contents((#[trigger] r@[k]).0)] == contents(r@[k].1),
            forall|j: int, k: int|
                0 <= j < k < r@.len() ==> contents((#[trigger] r@[j]).0) != contents(
                    (#[trigger] r@[k]).0,
                ),
    {
        proof {
            assert forall|k: int| 0 <= k < self.entries@.len() implies self@[contents(
                (#[trigger] self.entries@[k]).0,
            )] == contents(self.entries@[k].1) by {
                lemma_env_index(self.entries@, k);
            }
        }
        &self.entries
    }
}

impl Clone for EnvMap {
    fn clone(&self) -> (r: Self)
        ensures
            self.wf() ==> r.wf(),
            self.wf() ==> r@ == self@,
    {
        let mut entries: Vec<(Bytes, Bytes)> = Vec::new();
        let mut k: usize = 0;
        while k < self.entries.len()
            invariant
                k <= self.entries@.len(),
                entries@.len() == k,
                forall|j: int|
                    0 <= j < k ==> contents((#[trigger] entries@[j]).0) == contents(
                        self.entries@[j].0,
                    ) && contents(entries@[j].1) == contents(self.entries@[j].1),
            decreases self.entries@.len() - k,
        {
            let entry = &self.entries[k];
            entries.push((bytes_clone(&entry.0), bytes_clone(&entry.1)));
            k = k + 1;
        }
        let r = EnvMap { entries };
        proof {
            if self.wf() {
                assert(env_unique(r.entries@)) by {
                    assert forall|i: int, j: int| 0 <= i < j < r.entries@.len() implies contents(
                        (#[trigger] r.entries@[i]).0,
                    ) != contents((#[trigger] r.entries@[j]).0) by {
                        assert(contents(self.entries@[i].0) != contents(self.entries@[j].0));
                    }
                }
                assert forall|n: Seq<u8>| r@.contains_key(n) <==> self@.contains_key(n) by {
                    if env_has(r.entries@, n) {
                        let j = env_index(r.entries@, n);
                        assert(contents(r.entries@[j].0) == n);
                        assert(contents(self.entries@[j].0) == n);
                    }
                    if env_has(self.entries@, n) {
                        let j = env_index(self.entries@, n);
                        assert(contents(self.entries@[j].0) == n);
                        assert(contents(r.entries@[j].0) == n);
                    }
                }
                assert forall|n: Seq<u8>| r@.contains_key(n) implies r@[n] == self@[n] by {
                    let j = env_index(r.entries@, n);
                    assert(contents(r.entries@[j].0) == n);
                    lemma_env_index(self.entries@, j);
                }
                assert(r@ =~= self@);
            }
        }
        r
    }
}

/// Stands for an output's store path until that is known.
#[derive(Debug)]
pub struct Placeholder {
    /// The path as it is written into a derivation.
    pub path: String,
}

impl View for Placeholder {
    type V = Seq<char>;

    open spec fn view(&self) -> Seq<char> {
        self.path@
    }
}

impl Clone for Placeholder {
    fn clone(&self) -> (r: Self)
        ensures
            r@ == self@,
    {
        Placeholder { path: self.path.clone() }
    }
}

impl IntoBytes for Placeholder {
    open spec fn bytes_to_take(&self) -> Seq<u8> {
        encode_utf8(self@)
    }

    fn into_bytes(self) -> (b: Bytes) {
        bytes_from_string(self.path)
    }
}

/// A derivation whose outputs are found by their contents.
#[derive(Debug)]
pub struct Derivation {
    pub name: String,
    pub outputs: Vec<DerivationOutput>,
    pub inputs: InputSet,
    pub platform: Bytes,
    pub builder: Bytes,
    pub args: Vec<Bytes>,
    pub env: EnvMap,
}

/// What a derivation says.
pub struct Recipe {
    pub name: Seq<char>,
    pub outputs: Map<OutputName, ContentAddressMethod>,
    pub inputs: Set<Input>,
    pub platform: Seq<u8>,
    pub builder: Seq<u8>,
    pub args: Seq<Seq<u8>>,
    pub env: Map<Seq<u8>, Seq<u8>>,
}

/// The outputs that a list of outputs describes.
pub open spec fn output_map(outputs: Seq<DerivationOutput>) -> Map<OutputName, ContentAddressMethod>
    decreases outputs.len(),
{
    if outputs.len() == 0 {
        Map::empty()
    } else {
        output_map(outputs.drop_last()).insert(outputs.last().name, outputs.last().method)
    }
}

impl View for Derivation {
    type V = Recipe;

    open spec fn view(&self) -> Recipe {
        Recipe {
            name: self.name@,
            outputs: output_map(self.outputs@),
            inputs: self.inputs@,
            platform: contents(self.platform),
            builder: contents(self.builder),
            args: all_contents(self.args@),
            env: self.env@,
        }
    }
}

/// The store objects that something with these inputs refers to.
pub open spec fn references_of(inputs: Set<Input>) -> Set<Seq<char>> {
    inputs.map(|i: Input| root_of(i))
}

impl Derivation {
    /// The inputs and the environment list nothing twice.
    pub open spec fn wf(&self) -> bool {
        self.inputs.wf() && self.env.wf()
    }

    /// The store objects that the derivation's file refers to, each once.
    pub fn references(&self) -> (r: Vec<StorePath>)
        requires
            self.wf(),
        ensures
            forall|p: Seq<char>| #[trigger]
                references_of(self@.inputs).contains(p) <==> exists|k: int|
                    0 <= k < r@.len() && (#[trigger] r@[k])@ == p,
            forall|j: int, k: int|
                0 <= j < k < r@.len() ==> (#[trigger] r@[j])@ != (#[trigger] r@[k])@,
    {
        let items = self.inputs.items();
        let mut r: Vec<StorePath> = Vec::new();
        let mut k: usize = 0;
        while k < items.len()
            invariant
                k <= items@.len(),
                forall|p: Seq<char>|
                    (exists|j: int| 0 <= j < k && root_of((#[trigger] items@[j])@) == p)
                        <==> #[trigger] listed(r@, p),
                forall|i: int, j: int|
                    0 <= i < j < r@.len() ==> (#[trigger] r@[i])@ != (#[trigger] r@[j])@,
            decreases items@.len() - k,
        {
            let root = items[k].root_path();
            let ghost before = r@;
            if !is_listed(&r, root) {
                r.push(root.clone());
            }
            proof {
                assert forall|p: Seq<char>|
                    (exists|j: int| 0 <= j < k + 1 && root_of((#[trigger] items@[j])@) == p)
                        <==> #[trigger] listed(r@, p) by {
                    if listed(before, p) {
                        let j = choose|j: int|
                            0 <= j < before.len() && (#[trigger] before[j])@ == p;
                        assert(r@[j]@ == p);
                        let i = choose|i: int| 0 <= i < k && root_of((#[trigger] items@[i])@) == p;
                        assert(root_of(items@[i]@) == p);
                    }
                    if p == root@ {
                        assert(root_of(items@[k as int]@) == p);
                        if r@.len() > before.len() {
                            assert(r@[before.len() as int]@ == p);
                        }
                    }
                    if listed(r@, p) && p != root@ {
                        let j = choose|j: int| 0 <= j < r@.len() && (#[trigger] r@[j])@ == p;
                        assert(before[j]@ == p);
                    }
                    if exists|j: int| 0 <= j < k + 1 && root_of((#[trigger] items@[j])@) == p {
                        let j = choose|j: int|
                            0 <= j < k + 1 && root_of((#[trigger] items@[j])@) == p;
                        if j < k {
                            assert(root_of(items@[j]@) == p);
                            assert(listed(before, p));
                        }
                    }
                }
                assert forall|i: int, j: int| 0 <= i < j < r@.len() implies (#[trigger] r@[i])@ != (
                #[trigger] r@[j])@ by {
                    if j == before.len() {
                        assert(before[i]@ == r@[i]@);
                        assert(listed(before, r@[i]@));
                    }
                }
            }
            k = k + 1;
        }
        proof {
            assert forall|p: Seq<char>| #[trigger] references_of(self@.inputs).contains(p)
                <==> exists|k: int| 0 <= k < r@.len() && (#[trigger] r@[k])@ == p by {
                if references_of(self@.inputs).contains(p) {
                    let i = choose|i: Input| self@.inputs.contains(i) && root_of(i) == p;
                    assert(self.inputs@.contains(i));
                    let j = choose|j: int| 0 <= j < items@.len() && items@[j]@ == i;
                    assert(root_of(items@[j]@) == p);
                    assert(listed(r@, p));
                }
                if exists|k: int| 0 <= k < r@.len() && (#[trigger] r@[k])@ == p {
                    assert(listed(r@, p));
                    let j = choose|j: int|
                        0 <= j < items@.len() && root_of((#[trigger] items@[j])@) == p;
                    assert(self.inputs@.contains(items@[j]@));
                }
            }
        }
        r
    }
}

spec fn listed(v: Seq<StorePath>, p: Seq<char>) -> bool {
    exists|k: int| 0 <= k < v.len() && (#[trigger] v[k])@ == p
}

fn is_listed(v: &Vec<StorePath>, p: &StorePath) -> (r: bool)
    ensures
        r == listed(v@, p@),
{
    let mut k: usize = 0;
    while k < v.len()
        invariant
            k <= v@.len(),
            forall|j: int| 0 <= j < k ==> (#[trigger] v@[j])@ != p@,
        decreases v@.len() - k,
    {
        if v[k].base_name == p.base_name {
            assert(v@[k as int]@ == p@);
            return true;
        }
        k = k + 1;
    }
    false
}

} // verus!
