//! What values stand for.
use crate::build_wrap::{Directive, Effect};
use crate::compile::optional_text;
use crate::derivation::{
    output_map, Derivation, DerivationOutput, DerivedPath, Input, OutputName, Placeholder,
    StorePath,
};
use crate::env_wrap::{Assignment, EnvLine};
use crate::package::has_directory;
use crate::path::{all_bytes, is_normal, names, UnixPath, DOT, SLASH};
use crate::store::slice_text;
use crate::text::{ascii_constant_case, texts, views};
use crate::tools::Tool;
use crate::util::{all_contents, contents};
use bytes::Bytes;
use vstd::prelude::*;
use vstd::utf8::encode_utf8;

verus! {

/// A derivation says what its fields hold.
pub proof fn lemma_derivation(drv: Derivation)
    ensures
        drv@.name == drv.name@,
        drv@.inputs == drv.inputs@,
        drv@.env == drv.env@,
        drv@.platform == contents(drv.platform),
        drv@.builder == contents(drv.builder),
        drv@.args.len() == drv.args@.len(),
        forall|k: int|
            0 <= k < drv.args@.len() ==> (#[trigger] drv@.args[k]) == contents(drv.args@[k]),
{
}

/// A derivation has the outputs that it lists, and no others; an output that is listed twice is as
/// it is listed last.
pub proof fn lemma_outputs(outputs: Seq<DerivationOutput>, name: OutputName, k: int)
    ensures
        output_map(outputs).contains_key(name) <==> exists|j: int|
            0 <= j < outputs.len() && (#[trigger] outputs[j]).name == name,
        0 <= k < outputs.len() && outputs[k].name == name && (forall|j: int|
            k < j < outputs.len() ==> (#[trigger] outputs[j]).name != name) ==> output_map(
            outputs,
        )[name] == outputs[k].method,
    decreases outputs.len(),
{
    if outputs.len() > 0 {
        let less = outputs.drop_last();
        lemma_outputs(less, name, k);
        if exists|j: int| 0 <= j < outputs.len() && (#[trigger] outputs[j]).name == name {
            let j = choose|j: int| 0 <= j < outputs.len() && (#[trigger] outputs[j]).name == name;
            if j < less.len() {
                assert(less[j].name == name);
            }
        }
        if exists|j: int| 0 <= j < less.len() && (#[trigger] less[j]).name == name {
            let j = choose|j: int| 0 <= j < less.len() && (#[trigger] less[j]).name == name;
            assert(outputs[j].name == name);
        }
        if outputs.last().name == name {
            assert(outputs[outputs.len() - 1].name == name);
        }
        if 0 <= k < less.len() && outputs[k].name == name && (forall|j: int|
            k < j < outputs.len() ==> (#[trigger] outputs[j]).name != name) {
            assert(outputs[outputs.len() - 1].name != name);
            assert(less[k].name == name);
            assert forall|j: int| k < j < less.len() implies (#[trigger] less[j]).name != name by {
                assert(outputs[j].name != name);
            }
        }
    }
}

/// Inputs, objects, placeholders and paths stand for the names that they hold.
pub proof fn lemma_store_names(path: StorePath, output: OutputName, p: Placeholder, u: UnixPath)
    ensures
        path@ == path.base_name@,
        p@ == p.path@,
        u@ == u.bytes@,
        DerivedPath::Opaque(path)@ == Input::Opaque(path.base_name@),
        (DerivedPath::Built { drv_path: path, output })@ == Input::Built(path.base_name@, output),
        OutputName::Out.spec_text() == "out"@,
        OutputName::Flags.spec_text() == "flags"@,
{
}

/// Two tools are the same if they are the same program of the same object.
pub proof fn lemma_same_tool(a: Tool, b: Tool)
    ensures
        a.same_as(b) <==> a.store_path.base_name@ == b.store_path.base_name@ && a.real_path.bytes@
            == b.real_path.bytes@,
{
}

/// A directive adds the text that it holds, to the file that it names.
pub proof fn lemma_directives(text: String)
    ensures
        Directive::Nothing@ == Effect::Nothing,
        Directive::Immediate(text)@ == Effect::Immediate(text@),
        Directive::Transitive(text)@ == Effect::Transitive(text@),
        Directive::Env(text)@ == Effect::Env(text@),
        Directive::Error(text)@ == Effect::Error(text@),
{
}

/// A line of an environment file is the text that it holds.
pub proof fn lemma_env_lines<'a>(key: &'a str, value: &'a str)
    ensures
        EnvLine::Assigned(key, value)@ == Assignment::Assigned(key@, value@),
        EnvLine::Skipped(key)@ == Assignment::Skipped(key@),
{
}

/// Lists stand for what their elements hold, in order.
pub proof fn lemma_lists(a: Seq<String>, b: Seq<&str>, c: Seq<Vec<u8>>, d: Seq<Bytes>)
    ensures
        texts(a).len() == a.len(),
        forall|k: int| 0 <= k < a.len() ==> (#[trigger] texts(a)[k]) == a[k]@,
        views(b).len() == b.len(),
        forall|k: int| 0 <= k < b.len() ==> (#[trigger] views(b)[k]) == b[k]@,
        all_bytes(c).len() == c.len(),
        forall|k: int| 0 <= k < c.len() ==> (#[trigger] all_bytes(c)[k]) == c[k]@,
        all_contents(d).len() == d.len(),
        forall|k: int| 0 <= k < d.len() ==> (#[trigger] all_contents(d)[k]) == contents(d[k]),
{
}

/// An optional text is there if and only if the string is.
pub proof fn lemma_optional(s: String, t: &str)
    ensures
        optional_text(Some(s)) == Some(s@),
        optional_text(None) is None,
        slice_text(Some(t)) == Some(t@),
        slice_text(None) is None,
{
}

/// A plain name is none of the root, `.` and `..`.
pub proof fn lemma_normal(name: Seq<u8>)
    ensures
        is_normal(name) <==> name != seq![SLASH] && name != seq![DOT] && name != seq![DOT, DOT],
{
}

/// The empty path and the root are in no directory; every other path is.
pub proof fn lemma_has_directory(file: Seq<char>)
    ensures
        has_directory(file) <==> names(encode_utf8(file)).len() > 0 && names(
            encode_utf8(file),
        ).last() != seq![SLASH],
{
}

/// In ASCII, small letters become capitals and `-` becomes `_`; nothing else changes.
pub proof fn lemma_ascii_constant_case(s: Seq<char>, k: int)
    requires
        0 <= k < s.len(),
    ensures
        ascii_constant_case(s).len() == s.len(),
        'a' <= s[k] <= 'z' ==> ascii_constant_case(s)[k] as int == s[k] as int - 32,
        s[k] == '-' ==> ascii_constant_case(s)[k] == '_',
        !('a' <= s[k] <= 'z') && s[k] != '-' ==> ascii_constant_case(s)[k] == s[k],
{
}

} // verus!
