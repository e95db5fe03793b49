//! The programs that builds run under: what each line that they read comes to.
use crate::build_wrap::{arg_lines, effect, instruction, line_effect, Effect};
use crate::env_wrap::{assignment, assignments, first_separator, Assignment};
use crate::laws::text::{
    lemma_lines, lemma_listed, lemma_no_split, lemma_prefix, lemma_replaced, lemma_split,
    lemma_trimmed,
};
use crate::sorted::{ascending, listing};
use crate::target_env::{
    all_readable, cfg_entries, cfg_entry, cfg_file, cfg_keys, cfg_lines, cfg_values, host_of,
    is_readable, target_of, tuple_lines,
};
use crate::text::{
    is_white_space, lemma_position, lines, separated, split_at_first, upper_case,
};
use vstd::prelude::*;

verus! {

/// An instruction is written as `cargo:` or `cargo::`, a key, `=` and a value; key and value are
/// read as they were written.
pub proof fn lemma_instruction(key: Seq<char>, value: Seq<char>)
    requires
        !key.contains('='),
    ensures
        instruction("cargo::"@ + key + "="@ + value) == Some((key, value)),
        key.len() == 0 || key[0] != ':' ==> instruction("cargo:"@ + key + "="@ + value) == Some(
            (key, value),
        ),
{
    reveal_strlit("cargo:");
    reveal_strlit("cargo::");
    reveal_strlit(":");
    reveal_strlit("=");
    let rest = key + seq!['='] + value;
    lemma_split(key, '=', value);
    assert("="@ =~= seq!['=']);
    assert("cargo::"@ =~= "cargo:"@ + ":"@);
    assert("cargo:"@ + key + "="@ + value =~= "cargo:"@ + rest);
    assert("cargo::"@ + key + "="@ + value =~= "cargo:"@ + (":"@ + rest));
    lemma_prefix("cargo:"@, rest);
    lemma_prefix("cargo:"@, ":"@ + rest);
    lemma_prefix(":"@, rest);
    if key.len() == 0 || key[0] != ':' {
        assert(!":"@.is_prefix_of(rest)) by {
            if ":"@.is_prefix_of(rest) {
                assert(rest.subrange(0, 1)[0] == ":"@[0]);
            }
        }
    }
}

/// A line that does not start with `cargo:`, or has no `=`, adds nothing.
pub proof fn lemma_no_instruction(line: Seq<char>)
    requires
        !"cargo:"@.is_prefix_of(line) || !line.contains('='),
    ensures
        line_effect(line) == Effect::Nothing,
{
    if "cargo:"@.is_prefix_of(line) {
        let rest = line.skip("cargo:"@.len() as int);
        let shorter = rest.skip(":"@.len() as int);
        reveal_strlit("cargo:");
        reveal_strlit(":");
        assert(!rest.contains('=')) by {
            if rest.contains('=') {
                let k = choose|k: int| 0 <= k < rest.len() && rest[k] == '=';
                assert(line[k + 6] == '=');
            }
        }
        lemma_no_split(rest, '=');
        if ":"@.is_prefix_of(rest) {
            assert(!shorter.contains('=')) by {
                if shorter.contains('=') {
                    let k = choose|k: int| 0 <= k < shorter.len() && shorter[k] == '=';
                    assert(rest[k + 1] == '=');
                }
            }
            lemma_no_split(shorter, '=');
        }
    }
}

/// A flag is written on one line and its value on the next, as it is.
pub proof fn lemma_arg_lines(flag: Seq<char>, value: Seq<char>)
    ensures
        arg_lines(flag, value) == flag + seq!['\n'] + value + seq!['\n'],
        !flag.contains('\n') && !value.contains('\n') && (flag.len() > 0 ==> flag.last() != '\r')
            && (value.len() > 0 ==> value.last() != '\r') ==> lines(arg_lines(flag, value))
            == seq![flag, value],
{
    reveal_strlit("\n");
    assert("\n"@ =~= seq!['\n']);
    if !flag.contains('\n') && !value.contains('\n') && (flag.len() > 0 ==> flag.last() != '\r')
        && (value.len() > 0 ==> value.last() != '\r') {
        let second = value + seq!['\n'];
        lemma_lines(flag, second);
        lemma_lines(value, Seq::empty());
        assert(second + Seq::<char>::empty() =~= second);
        assert(arg_lines(flag, value) =~= flag + seq!['\n'] + second);
        assert(lines(arg_lines(flag, value)) =~= seq![flag, value]);
    }
}

proof fn lemma_keys()
    ensures
        "rustc-link-arg"@ != "rustc-link-lib"@,
        "rustc-cfg"@ != "rustc-env"@,
        "rustc-link-arg"@.len() == 14,
        "rustc-link-lib"@.len() == 14,
        "rustc-link-search"@.len() == 17,
        "rustc-cfg"@.len() == 9,
        "rustc-check-cfg"@.len() == 15,
        "rustc-flags"@.len() == 11,
        "rustc-env"@.len() == 9,
        "error"@.len() == 5,
{
    reveal_strlit("rustc-link-arg");
    reveal_strlit("rustc-link-lib");
    reveal_strlit("rustc-link-search");
    reveal_strlit("rustc-cfg");
    reveal_strlit("rustc-check-cfg");
    reveal_strlit("rustc-flags");
    reveal_strlit("rustc-env");
    reveal_strlit("error");
    assert("rustc-link-arg"@[11] != "rustc-link-lib"@[11]);
    assert("rustc-cfg"@[6] != "rustc-env"@[6]);
}

/// Each instruction passes its value on unchanged, under the flag that belongs to it and to the
/// file that belongs to it.
pub proof fn lemma_effects(value: Seq<char>)
    ensures
        effect("rustc-link-arg"@, value) == Effect::Transitive(
            "-C"@ + seq!['\n'] + ("link-arg="@ + value) + seq!['\n'],
        ),
        effect("rustc-link-lib"@, value) == Effect::Transitive(
            "-l"@ + seq!['\n'] + value + seq!['\n'],
        ),
        effect("rustc-link-search"@, value) == Effect::Transitive(
            "-L"@ + seq!['\n'] + value + seq!['\n'],
        ),
        effect("rustc-cfg"@, value) == Effect::Immediate(
            "--cfg"@ + seq!['\n'] + value + seq!['\n'],
        ),
        effect("rustc-check-cfg"@, value) == Effect::Immediate(
            "--check-cfg"@ + seq!['\n'] + value + seq!['\n'],
        ),
        effect("rustc-env"@, value) == Effect::Env(value + seq!['\n']),
        effect("error"@, value) == Effect::Error(value),
{
    lemma_keys();
    reveal_strlit("\n");
    assert("\n"@ =~= seq!['\n']);
    lemma_arg_lines("-C"@, "link-arg="@ + value);
    lemma_arg_lines("-l"@, value);
    lemma_arg_lines("-L"@, value);
    lemma_arg_lines("--cfg"@, value);
    lemma_arg_lines("--check-cfg"@, value);
}

/// `rustc-flags` passes its value on with every space turned into the end of a line.
pub proof fn lemma_flags_effect(value: Seq<char>)
    ensures
        effect("rustc-flags"@, value) matches Effect::Transitive(text) && text.len() == value.len()
            && forall|k: int|
            0 <= k < value.len() ==> (#[trigger] text[k]) == if value[k] == ' ' {
                '\n'
            } else {
                value[k]
            },
{
    lemma_keys();
    lemma_replaced(value, ' ', '\n');
}

/// Any other key adds nothing.
pub proof fn lemma_other_keys(key: Seq<char>, value: Seq<char>)
    requires
        key != "rustc-link-arg"@,
        key != "rustc-link-lib"@,
        key != "rustc-link-search"@,
        key != "rustc-cfg"@,
        key != "rustc-check-cfg"@,
        key != "rustc-flags"@,
        key != "rustc-env"@,
        key != "error"@,
    ensures
        effect(key, value) == Effect::Nothing,
{
}

/// What a line adds is what its instruction adds, whatever the key and the value.
pub proof fn lemma_line_effect(key: Seq<char>, value: Seq<char>)
    requires
        !key.contains('='),
    ensures
        line_effect("cargo::"@ + key + "="@ + value) == effect(key, value),
        key.len() == 0 || key[0] != ':' ==> line_effect("cargo:"@ + key + "="@ + value) == effect(
            key,
            value,
        ),
{
    lemma_instruction(key, value);
}

/// A native library is asked for under the name that the build script gives it: two lines come to
/// the file, the flag and the name.
pub proof fn lemma_link_lib(value: Seq<char>)
    requires
        !value.contains('\n'),
        value.len() > 0 ==> value.last() != '\r',
    ensures
        line_effect("cargo:rustc-link-lib="@ + value) matches Effect::Transitive(text) && lines(
            text,
        ) == seq!["-l"@, value],
        line_effect("cargo::rustc-link-lib="@ + value) matches Effect::Transitive(text) && lines(
            text,
        ) == seq!["-l"@, value],
{
    reveal_strlit("cargo:rustc-link-lib=");
    reveal_strlit("cargo::rustc-link-lib=");
    reveal_strlit("cargo:");
    reveal_strlit("cargo::");
    reveal_strlit("rustc-link-lib");
    reveal_strlit("=");
    reveal_strlit("-l");
    let key = "rustc-link-lib"@;
    assert("cargo:rustc-link-lib="@ + value =~= "cargo:"@ + key + "="@ + value);
    assert("cargo::rustc-link-lib="@ + value =~= "cargo::"@ + key + "="@ + value);
    lemma_line_effect(key, value);
    lemma_effects(value);
    lemma_arg_lines("-l"@, value);
}

/// A line of an environment file names a variable before its first `=`; what comes after it is the
/// value, whatever that holds. Without `=` a line sets nothing.
pub proof fn lemma_assignment(key: Seq<char>, value: Seq<char>)
    requires
        !key.contains('='),
    ensures
        assignment(key + seq!['='] + value) == Assignment::Assigned(key, value),
        assignment(key) == Assignment::Skipped(key),
{
    lemma_split(key, '=', value);
    lemma_no_split(key, '=');
}

/// Every line of an environment file counts, in its place.
pub proof fn lemma_assignments(content: Seq<char>)
    ensures
        assignments(content).len() == lines(content).len(),
        forall|k: int|
            0 <= k < lines(content).len() ==> (#[trigger] assignments(content)[k]) == assignment(
                lines(content)[k],
            ),
{
}

/// Files that are listed before `--`, and none of which is called that, are all of the files.
pub proof fn lemma_files(files: Seq<Seq<u8>>, rest: Seq<Seq<u8>>)
    requires
        forall|k: int| 0 <= k < files.len() ==> #[trigger] files[k] != seq![0x2du8, 0x2du8],
    ensures
        first_separator(files + seq![seq![0x2du8, 0x2du8]] + rest, files.len() as int),
        forall|p: int|
            first_separator(files + seq![seq![0x2du8, 0x2du8]] + rest, p) ==> p == files.len(),
        forall|p: int| !#[trigger] first_separator(files, p),
{
    let args = files + seq![seq![0x2du8, 0x2du8]] + rest;
    let n = files.len() as int;
    assert(args[n] == seq![0x2du8, 0x2du8]);
    assert forall|k: int| 0 <= k < n implies #[trigger] args[k] != seq![0x2du8, 0x2du8] by {
        assert(args[k] == files[k]);
    }
    assert forall|p: int| first_separator(args, p) implies p == n by {
        if p > n {
            assert(args[n] == seq![0x2du8, 0x2du8]);
        }
    }
}

/// The host is what the compiler printed without the white space around it.
pub proof fn lemma_host(output: Seq<char>) -> (from: int)
    ensures
        0 <= from <= from + host_of(output).len() <= output.len(),
        host_of(output) == output.subrange(from, from + host_of(output).len()),
        forall|k: int|
            0 <= k < from || from + host_of(output).len() <= k < output.len() ==> is_white_space(
                #[trigger] output[k],
            ),
        host_of(output).len() > 0 ==> !is_white_space(host_of(output)[0]) && !is_white_space(
            host_of(output).last(),
        ),
{
    lemma_trimmed(output)
}

/// The target that was specified is the one; the host stands in for it only where it is missing.
pub proof fn lemma_target(host: Seq<char>, specified: Seq<char>)
    ensures
        specified.len() > 0 ==> target_of(host, specified) == specified,
        target_of(host, Seq::empty()) == host,
        tuple_lines(host, specified) == "HOST="@ + host + "\nTARGET="@ + specified + "\n"@,
{
    reveal_strlit("\nTARGET=");
    reveal_strlit("TARGET=");
    reveal_strlit("\n");
    assert("\nTARGET="@ =~= "\n"@ + "TARGET="@);
    assert(tuple_lines(host, specified) =~= "HOST="@ + host + "\nTARGET="@ + specified + "\n"@);
}

/// A setting with a value is read as it was written, whatever the value: only the quotes are taken
/// off.
pub proof fn lemma_setting(key: Seq<char>, open: char, value: Seq<char>, close: char)
    requires
        !key.contains('='),
    ensures
        cfg_entry(key + seq!['=', open] + value + seq![close]) == Some((key, value)),
        is_readable(key + seq!['=', open] + value + seq![close]) <==> open <= '\u{7f}' && close
            <= '\u{7f}',
{
    let rhs = seq![open] + value + seq![close];
    assert(key + seq!['=', open] + value + seq![close] =~= key + seq!['='] + rhs);
    lemma_split(key, '=', rhs);
    assert(rhs.subrange(1, rhs.len() - 1) =~= value);
    assert(rhs[0] == open && rhs.last() == close);
}

/// A setting without a value has the empty one.
pub proof fn lemma_bare_setting(line: Seq<char>)
    requires
        !line.contains('='),
        line.len() > 0,
    ensures
        cfg_entry(line) == Some((line, Seq::<char>::empty())),
        is_readable(line),
{
    lemma_no_split(line, '=');
}

/// An empty line, and a value that is too short to be in quotes, are left out.
pub proof fn lemma_no_setting(key: Seq<char>, c: char)
    requires
        !key.contains('='),
    ensures
        cfg_entry(Seq::empty()) is None,
        cfg_entry(key + seq!['=']) is None,
        c <= '\u{7f}' ==> cfg_entry(key + seq!['=', c]) is None,
        is_readable(key + seq!['=']),
        is_readable(key + seq!['=', c]) <==> c <= '\u{7f}',
{
    lemma_no_split(Seq::empty(), '=');
    lemma_split(key, '=', Seq::empty());
    assert(key + seq!['='] + Seq::<char>::empty() =~= key + seq!['=']);
    lemma_split(key, '=', seq![c]);
    assert(key + seq!['='] + seq![c] =~= key + seq!['=', c]);
}

/// All of what the compiler printed can be read if and only if every line can.
pub proof fn lemma_all_readable(cfg: Seq<char>)
    ensures
        all_readable(cfg) <==> forall|k: int|
            0 <= k < lines(cfg).len() ==> is_readable(#[trigger] lines(cfg)[k]),
{
}

/// What is taken from the lines is what each of them says, nothing left out and nothing added.
pub proof fn lemma_entries(all: Seq<Seq<char>>, entry: (Seq<char>, Seq<char>))
    ensures
        cfg_entries(all).contains(entry) <==> exists|k: int|
            0 <= k < all.len() && cfg_entry(#[trigger] all[k]) == Some(entry),
    decreases all.len(),
{
    if all.len() > 0 {
        let less = all.drop_last();
        lemma_entries(less, entry);
        let before = cfg_entries(less);
        let after = cfg_entries(all);
        if before.contains(entry) {
            let i = choose|i: int| 0 <= i < before.len() && before[i] == entry;
            assert(after[i] == entry);
            let k = choose|k: int|
                0 <= k < less.len() && cfg_entry(#[trigger] less[k]) == Some(entry);
            assert(cfg_entry(all[k]) == Some(entry));
        }
        if after.contains(entry) && !before.contains(entry) {
            let i = choose|i: int| 0 <= i < after.len() && after[i] == entry;
            if i < before.len() {
                assert(before[i] == entry);
            }
            assert(cfg_entry(all[all.len() - 1]) == Some(entry));
        }
        if exists|k: int| 0 <= k < all.len() && cfg_entry(#[trigger] all[k]) == Some(entry) {
            let k = choose|k: int|
                0 <= k < all.len() && cfg_entry(#[trigger] all[k]) == Some(entry);
            if k < less.len() {
                assert(cfg_entry(less[k]) == Some(entry));
            } else {
                assert(after[after.len() - 1] == entry);
            }
        }
    }
}

/// The settings and their values are those of the entries, and are listed once each.
pub proof fn lemma_collected(
    entries: Seq<(Seq<char>, Seq<char>)>,
    key: Seq<char>,
    value: Seq<char>,
)
    ensures
        entries.contains((key, value)) ==> cfg_keys(entries).contains(key),
        cfg_keys(entries).contains(key) ==> exists|v: Seq<char>| #[trigger]
            entries.contains((key, v)),
        cfg_values(entries, key).contains(value) <==> entries.contains((key, value)),
        ascending(listing(cfg_keys(entries))),
        listing(cfg_keys(entries)).contains(key) <==> cfg_keys(entries).contains(key),
        ascending(listing(cfg_values(entries, key))),
        listing(cfg_values(entries, key)).contains(value) <==> entries.contains((key, value)),
{
    let names = entries.map_values(|e: (Seq<char>, Seq<char>)| e.0);
    if entries.contains((key, value)) {
        let k = choose|k: int| 0 <= k < entries.len() && entries[k] == (key, value);
        assert(names[k] == key);
    }
    if cfg_keys(entries).contains(key) {
        let k = choose|k: int| 0 <= k < names.len() && names[k] == key;
        assert(entries[k] == (key, entries[k].1));
        assert(entries.contains((key, entries[k].1)));
    }
    lemma_listed(names);
    assert(listing(names.to_set()).contains(key) <==> names.contains(key));
    let found = lemma_values(entries, key);
    lemma_listed(found);
    assert(listing(found.to_set()).contains(value) <==> found.contains(value));
    assert(found.to_set().contains(value) <==> found.contains(value));
}

proof fn lemma_values(entries: Seq<(Seq<char>, Seq<char>)>, key: Seq<char>) -> (found: Seq<
    Seq<char>,
>)
    ensures
        found.to_set() == cfg_values(entries, key),
    decreases entries.len(),
{
    if entries.len() == 0 {
        let found = Seq::<Seq<char>>::empty();
        assert(found.to_set() =~= cfg_values(entries, key));
        found
    } else {
        let less = entries.drop_last();
        let last = entries.last();
        let before = lemma_values(less, key);
        let found = if last.0 == key {
            before.push(last.1)
        } else {
            before
        };
        assert forall|v: Seq<char>| found.to_set().contains(v) <==> cfg_values(
            entries,
            key,
        ).contains(v) by {
            assert(before.to_set().contains(v) <==> less.contains((key, v)));
            if before.contains(v) {
                let k = choose|k: int| 0 <= k < before.len() && before[k] == v;
                assert(found[k] == v);
            }
            if found.contains(v) {
                let k = choose|k: int| 0 <= k < found.len() && found[k] == v;
                if k < before.len() {
                    assert(before[k] == v);
                    assert(before.contains(v));
                    let i = choose|i: int| 0 <= i < less.len() && less[i] == (key, v);
                    assert(entries[i] == (key, v));
                } else {
                    assert(entries[entries.len() - 1] == (key, v));
                }
            }
            if entries.contains((key, v)) {
                let i = choose|i: int| 0 <= i < entries.len() && entries[i] == (key, v);
                if i < less.len() {
                    assert(less[i] == (key, v));
                    assert(before.to_set().contains(v));
                } else {
                    assert(found[before.len() as int] == v);
                }
            }
        }
        assert(found.to_set() =~= cfg_values(entries, key));
        found
    }
}

/// Every quoted setting that the compiler prints reaches the file, whatever its value.
pub proof fn lemma_setting_kept(cfg: Seq<char>, key: Seq<char>, value: Seq<char>, k: int)
    requires
        0 <= k < lines(cfg).len(),
        lines(cfg)[k] == key + seq!['=', '"'] + value + seq!['"'],
        !key.contains('='),
    ensures
        cfg_keys(cfg_entries(lines(cfg))).contains(key),
        cfg_values(cfg_entries(lines(cfg)), key).contains(value),
        listing(cfg_keys(cfg_entries(lines(cfg)))).contains(key),
        listing(cfg_values(cfg_entries(lines(cfg)), key)).contains(value),
{
    lemma_setting(key, '"', value, '"');
    lemma_entries(lines(cfg), (key, value));
    lemma_collected(cfg_entries(lines(cfg)), key, value);
}

/// Every setting without a value that the compiler prints reaches the file.
pub proof fn lemma_bare_setting_kept(cfg: Seq<char>, key: Seq<char>, k: int)
    requires
        0 <= k < lines(cfg).len(),
        lines(cfg)[k] == key,
        !key.contains('='),
        key.len() > 0,
    ensures
        listing(cfg_keys(cfg_entries(lines(cfg)))).contains(key),
        listing(cfg_values(cfg_entries(lines(cfg)), key)).contains(Seq::<char>::empty()),
{
    lemma_bare_setting(key);
    lemma_entries(lines(cfg), (key, Seq::<char>::empty()));
    lemma_collected(cfg_entries(lines(cfg)), key, Seq::empty());
}

/// Nothing reaches the file but what the compiler printed: a setting alone, or one with a value in
/// quotes.
pub proof fn lemma_settings_only(cfg: Seq<char>, key: Seq<char>, value: Seq<char>)
    requires
        all_readable(cfg),
        cfg_values(cfg_entries(lines(cfg)), key).contains(value),
    ensures
        exists|k: int|
            0 <= k < lines(cfg).len() && {
                let line = #[trigger] lines(cfg)[k];
                ||| line == key && value.len() == 0
                ||| exists|open: char, close: char| #[trigger]
                    quoted(key, open, value, close) == line
            },
{
    let all = lines(cfg);
    lemma_entries(all, (key, value));
    let k = choose|k: int| 0 <= k < all.len() && cfg_entry(#[trigger] all[k]) == Some((key, value));
    let line = all[k];
    lemma_position(line, '=');
    assert(is_readable(lines(cfg)[k]));
    if let Some((lhs, rhs)) = split_at_first(line, '=') {
        assert(line =~= lhs + seq!['='] + rhs);
        assert(rhs =~= seq![rhs[0]] + value + seq![rhs.last()]);
        assert(quoted(key, rhs[0], value, rhs.last()) =~= line);
    }
    assert(lines(cfg)[k] == line);
}

/// A setting as the compiler prints it, with some quotes.
pub open spec fn quoted(key: Seq<char>, open: char, value: Seq<char>, close: char) -> Seq<char> {
    key + seq!['=', open] + value + seq![close]
}

/// The variables for some settings, from the first on.
pub open spec fn written(entries: Seq<(Seq<char>, Seq<char>)>, keys: Seq<Seq<char>>) -> Seq<char>
    decreases keys.len(),
{
    if keys.len() == 0 {
        Seq::empty()
    } else {
        "CARGO_CFG_"@ + upper_case(keys[0]) + "="@ + separated(
            listing(cfg_values(entries, keys[0])),
            ","@,
        ) + "\n"@ + written(entries, keys.drop_first())
    }
}

proof fn lemma_written(
    entries: Seq<(Seq<char>, Seq<char>)>,
    done: Seq<Seq<char>>,
    keys: Seq<Seq<char>>,
)
    ensures
        cfg_lines(entries, done + keys) == cfg_lines(entries, done) + written(entries, keys),
    decreases keys.len(),
{
    if keys.len() == 0 {
        assert(done + keys =~= done);
        assert(cfg_lines(entries, done + keys) =~= cfg_lines(entries, done) + written(
            entries,
            keys,
        ));
    } else {
        let more = done.push(keys[0]);
        lemma_written(entries, more, keys.drop_first());
        assert(more + keys.drop_first() =~= done + keys);
        assert(more.drop_last() =~= done);
        assert(cfg_lines(entries, done + keys) =~= cfg_lines(entries, done) + written(
            entries,
            keys,
        ));
    }
}

/// The file holds one variable for each setting, in ascending order, and all values of the setting
/// in it.
pub proof fn lemma_cfg_file(cfg: Seq<char>)
    ensures
        cfg_file(cfg) == written(
            cfg_entries(lines(cfg)),
            listing(cfg_keys(cfg_entries(lines(cfg)))),
        ),
{
    let entries = cfg_entries(lines(cfg));
    let keys = listing(cfg_keys(entries));
    lemma_written(entries, Seq::empty(), keys);
    assert(Seq::<Seq<char>>::empty() + keys =~= keys);
    assert(cfg_file(cfg) =~= written(entries, keys));
}

} // verus!
