//! Runs a command with variables read from files.
use crate::path::{all_bytes, copy_bytes};
use crate::text::{lines, split_at_first, split_lines, split_once, views};
use vstd::prelude::*;

verus! {

/// What to run, and which files hold its environment.
#[derive(Debug)]
pub struct WrapCall {
    pub env_files: Vec<Vec<u8>>,
    pub command: Vec<u8>,
    pub args: Vec<Vec<u8>>,
}

/// Why arguments name nothing to run.
#[derive(PartialEq, Eq, Structural, Copy, Clone, Debug)]
pub enum WrapError {
    /// There is no `--` after the files.
    NoSeparator,
    /// Nothing comes after the `--`.
    NoCommand,
}

/// The argument that ends the list of files.
pub open spec fn separator() -> Seq<u8> {
    seq![0x2du8, 0x2du8]
}

/// Index `p` holds the first separator.
pub open spec fn first_separator(args: Seq<Seq<u8>>, p: int) -> bool {
    &&& 0 <= p < args.len()
    &&& args[p] == separator()
    &&& forall|j: int| 0 <= j < p ==> #[trigger] args[j] != separator()
}

fn is_separator(arg: &Vec<u8>) -> (r: bool)
    ensures
        r == (arg@ == separator()),
{
    if arg.len() == 2 && arg[0] == 0x2d && arg[1] == 0x2d {
        assert(arg@ =~= separator());
        true
    } else {
        false
    }
}

fn copy_range(args: &Vec<Vec<u8>>, from: usize, to: usize) -> (r: Vec<Vec<u8>>)
    requires
        from <= to <= args@.len(),
    ensures
        all_bytes(r@) == all_bytes(args@).subrange(from as int, to as int),
{
    let mut r: Vec<Vec<u8>> = Vec::new();
    let mut k: usize = from;
    while k < to
        invariant
            from <= k <= to <= args@.len(),
            all_bytes(r@) =~= all_bytes(args@).subrange(from as int, k as int),
        decreases to - k,
    {
        let ghost before = r@;
        r.push(copy_bytes(args[k].as_slice()));
        assert(all_bytes(r@) =~= all_bytes(before).push(args@[k as int]@));
        k = k + 1;
    }
    r
}

/// Takes the arguments apart: files up to the first `--`, then the command and its arguments.
pub fn parse_args(args: &Vec<Vec<u8>>) -> (r: Result<WrapCall, WrapError>)
    ensures
        match r {
            Ok(call) => exists|p: int|
                {
                    &&& #[trigger] first_separator(all_bytes(args@), p)
                    &&& p + 1 < args@.len()
                    &&& all_bytes(call.env_files@) == all_bytes(args@).take(p)
                    &&& call.command@ == args@[p + 1]@
                    &&& all_bytes(call.args@) == all_bytes(args@).skip(p + 2)
                },
            Err(WrapError::NoSeparator) => forall|p: int|
                !#[trigger] first_separator(all_bytes(args@), p),
            Err(WrapError::NoCommand) => first_separator(all_bytes(args@), args@.len() - 1),
        },
{
    let mut p: usize = 0;
    while p < args.len()
        invariant
            p <= args@.len(),
            forall|j: int| 0 <= j < p ==> #[trigger] all_bytes(args@)[j] != separator(),
        decreases args@.len() - p,
    {
        if is_separator(&args[p]) {
            assert(all_bytes(args@)[p as int] == separator());
            assert(first_separator(all_bytes(args@), p as int));
            if p + 1 == args.len() {
                return Err(WrapError::NoCommand);
            }
            let env_files = copy_range(args, 0, p);
            let command = copy_bytes(args[p + 1].as_slice());
            let rest = copy_range(args, p + 2, args.len());
            assert(all_bytes(env_files@) =~= all_bytes(args@).take(p as int));
            assert(all_bytes(rest@) =~= all_bytes(args@).skip(p + 2));
            return Ok(WrapCall { env_files, command, args: rest });
        }
        p = p + 1;
    }
    Err(WrapError::NoSeparator)
}

/// What a line of an environment file says.
#[derive(Debug)]
pub enum EnvLine<'a> {
    /// Sets a variable.
    Assigned(&'a str, &'a str),
    /// Nothing that could be understood.
    Skipped(&'a str),
}

/// What a line of an environment file says, as text.
pub enum Assignment {
    Assigned(Seq<char>, Seq<char>),
    Skipped(Seq<char>),
}

impl<'a> View for EnvLine<'a> {
    type V = Assignment;

    open spec fn view(&self) -> Assignment {
        match self {
            EnvLine::Assigned(key, value) => Assignment::Assigned(key@, value@),
            EnvLine::Skipped(line) => Assignment::Skipped(line@),
        }
    }
}

/// What a line of an environment file says: the variable is named before the first `=`.
pub open spec fn assignment(line: Seq<char>) -> Assignment {
    match split_at_first(line, '=') {
        Some((key, value)) => Assignment::Assigned(key, value),
        None => Assignment::Skipped(line),
    }
}

/// What an environment file says, line by line.
pub open spec fn assignments(content: Seq<char>) -> Seq<Assignment> {
    lines(content).map_values(|line: Seq<char>| assignment(line))
}

/// Reads an environment file.
pub fn parse_env<'a>(content: &'a str) -> (r: Vec<EnvLine<'a>>)
    ensures
        r@.map_values(|line: EnvLine<'a>| line@) == assignments(content@),
{
    let all = split_lines(content);
    let mut r: Vec<EnvLine<'a>> = Vec::new();
    let mut k: usize = 0;
    assert(views(all@).len() == all@.len());
    while k < all.len()
        invariant
            k <= all@.len(),
            views(all@) == lines(content@),
            r@.len() == k,
            forall|j: int| 0 <= j < k ==> (#[trigger] r@[j])@ == assignment(lines(content@)[j]),
        decreases all@.len() - k,
    {
        let line = all[k];
        assert(views(all@)[k as int] == line@);
        match split_once(line, '=') {
            Some((key, value)) => r.push(EnvLine::Assigned(key, value)),
            None => r.push(EnvLine::Skipped(line)),
        }
        k = k + 1;
    }
    assert(r@.map_values(|line: EnvLine<'a>| line@) =~= assignments(content@));
    r
}

} // verus!
