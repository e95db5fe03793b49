//! Reads what a build script prints, and sorts out the flags that it asks for.
use crate::text::{
    replace_char, replaced, same_text, split_at_first, split_once, strip_prefix, without_prefix,
};
use vstd::prelude::*;

verus! {

/// What a line of a build script's output adds, and to which file.
#[derive(Debug)]
pub enum Directive {
    /// Nothing.
    Nothing,
    /// Compiler arguments for the package itself.
    Immediate(String),
    /// Compiler arguments for everything that depends on the package.
    Transitive(String),
    /// A variable for the package itself.
    Env(String),
    /// The build has failed, for this reason.
    Error(String),
}

/// What a line adds, as text.
pub enum Effect {
    Nothing,
    Immediate(Seq<char>),
    Transitive(Seq<char>),
    Env(Seq<char>),
    Error(Seq<char>),
}

impl View for Directive {
    type V = Effect;

    open spec fn view(&self) -> Effect {
        match self {
            Directive::Nothing => Effect::Nothing,
            Directive::Immediate(text) => Effect::Immediate(text@),
            Directive::Transitive(text) => Effect::Transitive(text@),
            Directive::Env(text) => Effect::Env(text@),
            Directive::Error(text) => Effect::Error(text@),
        }
    }
}

/// A flag and its value, in a file of compiler arguments.
pub open spec fn arg_lines(flag: Seq<char>, value: Seq<char>) -> Seq<char> {
    flag + "\n"@ + value + "\n"@
}

/// The key and value of a line, if it is meant for Cargo. One colon or two come after `cargo`.
pub open spec fn instruction(line: Seq<char>) -> Option<(Seq<char>, Seq<char>)> {
    match without_prefix(line, "cargo:"@) {
        Some(rest) => split_at_first(
            match without_prefix(rest, ":"@) {
                Some(rest) => rest,
                None => rest,
            },
            '=',
        ),
        None => None,
    }
}

/// What an instruction adds.
pub open spec fn effect(key: Seq<char>, value: Seq<char>) -> Effect {
    if key == "rustc-link-arg"@ {
        Effect::Transitive(arg_lines("-C"@, "link-arg="@ + value))
    } else if key == "rustc-link-lib"@ {
        Effect::Transitive(arg_lines("-l"@, value))
    } else if key == "rustc-link-search"@ {
        Effect::Transitive(arg_lines("-L"@, value))
    } else if key == "rustc-cfg"@ {
        Effect::Immediate(arg_lines("--cfg"@, value))
    } else if key == "rustc-check-cfg"@ {
        Effect::Immediate(arg_lines("--check-cfg"@, value))
    } else if key == "rustc-flags"@ {
        Effect::Transitive(replaced(value, ' ', '\n'))
    } else if key == "rustc-env"@ {
        Effect::Env(value + "\n"@)
    } else if key == "error"@ {
        Effect::Error(value)
    } else {
        Effect::Nothing
    }
}

/// What a line of a build script's output adds.
pub open spec fn line_effect(line: Seq<char>) -> Effect {
    match instruction(line) {
        Some((key, value)) => effect(key, value),
        None => Effect::Nothing,
    }
}

/// Adds a flag and its value to a file of compiler arguments.
pub fn push_arg(file: &mut String, flag: &str, value: &str)
    ensures
        final(file)@ == old(file)@ + arg_lines(flag@, value@),
{
    file.append(flag);
    file.append("\n");
    file.append(value);
    file.append("\n");
    assert(file@ =~= old(file)@ + arg_lines(flag@, value@));
}

fn arg_text(flag: &str, value: &str) -> (r: String)
    ensures
        r@ == arg_lines(flag@, value@),
{
    let mut r = String::new();
    push_arg(&mut r, flag, value);
    assert(r@ =~= arg_lines(flag@, value@));
    r
}

/// Decides what an instruction adds.
fn obey(key: &str, value: &str) -> (r: Directive)
    ensures
        r@ == effect(key@, value@),
{
    if same_text(key, "rustc-link-arg") {
        Directive::Transitive(
            arg_text("-C", "link-arg=".to_owned().concat(value).as_str()),
        )
    } else if same_text(key, "rustc-link-lib") {
        Directive::Transitive(arg_text("-l", value))
    } else if same_text(key, "rustc-link-search") {
        Directive::Transitive(arg_text("-L", value))
    } else if same_text(key, "rustc-cfg") {
        Directive::Immediate(arg_text("--cfg", value))
    } else if same_text(key, "rustc-check-cfg") {
        Directive::Immediate(arg_text("--check-cfg", value))
    } else if same_text(key, "rustc-flags") {
        proof {
            reveal_strlit("\n");
        }
        Directive::Transitive(replace_char(value, ' ', "\n"))
    } else if same_text(key, "rustc-env") {
        Directive::Env(value.to_owned().concat("\n"))
    } else if same_text(key, "error") {
        Directive::Error(value.to_owned())
    } else {
        Directive::Nothing
    }
}

/// Decides what a line of a build script's output adds.
pub fn directive(line: &str) -> (r: Directive)
    ensures
        r@ == line_effect(line@),
{
    let rest = match strip_prefix(line, "cargo:") {
        Some(rest) => rest,
        None => {
            return Directive::Nothing;
        },
    };
    let rest = match strip_prefix(rest, ":") {
        Some(shorter) => shorter,
        None => rest,
    };
    match split_once(rest, '=') {
        Some((key, value)) => obey(key, value),
        None => Directive::Nothing,
    }
}

/// The status that a build script's run ends with: that of the script itself, reduced to a byte,
/// unless it reported an error. A script that a signal ended counts as one that went well.
pub fn exit_status(code: Option<i32>, reported_error: bool) -> (r: u8)
    ensures
        r == if reported_error {
            1int
        } else {
            match code {
                Some(code) => code as int % 256,
                None => 0,
            }
        },
{
    if reported_error {
        return 1;
    }
    match code {
        Some(code) => {
            let shifted: i64 = code as i64 + 0x1_0000_0000;
            (shifted % 256) as u8
        },
        None => 0,
    }
}

} // verus!
