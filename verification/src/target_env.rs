//! Turns what the compiler says of a target into environment variables.
use crate::sorted::{listing, sort_texts};
use crate::text::{
    join_texts, lines, separated, split_at_first, split_lines, split_once, to_chars, trim,
    trimmed_end, trimmed_start, upper_case, views,
};
use vstd::prelude::*;

verus! {

/// The host that the compiler names in its output.
pub open spec fn host_of(output: Seq<char>) -> Seq<char> {
    trimmed_end(trimmed_start(output))
}

/// The target to ask for: the one that was specified, or else the host.
pub open spec fn target_of(host: Seq<char>, specified: Seq<char>) -> Seq<char> {
    if specified.len() == 0 {
        host
    } else {
        specified
    }
}

/// The variables that name the host and the target.
pub open spec fn tuple_lines(host: Seq<char>, target: Seq<char>) -> Seq<char> {
    "HOST="@ + host + "\n"@ + ("TARGET="@ + target + "\n"@)
}

/// A setting is left out if its value is too short to be in quotes.
pub open spec fn is_skipped(rhs: Seq<char>) -> bool {
    rhs.len() == 0 || (rhs.len() == 1 && rhs[0] <= '\u{7f}')
}

/// What a line says: the name of a setting, and a value without its quotes. A setting without a
/// value has the empty one.
pub open spec fn cfg_entry(line: Seq<char>) -> Option<(Seq<char>, Seq<char>)> {
    match split_at_first(line, '=') {
        Some((lhs, rhs)) => if is_skipped(rhs) {
            None
        } else {
            Some((lhs, rhs.subrange(1, rhs.len() - 1)))
        },
        None => if line.len() == 0 {
            None
        } else {
            Some((line, Seq::empty()))
        },
    }
}

/// The value of a line, if it has one, starts and ends with one byte each, so that these can be
/// taken off.
pub open spec fn is_readable(line: Seq<char>) -> bool {
    match split_at_first(line, '=') {
        Some((_, rhs)) => is_skipped(rhs) || (rhs.len() >= 2 && rhs[0] <= '\u{7f}' && rhs.last()
            <= '\u{7f}'),
        None => true,
    }
}

/// Every line can be read.
pub open spec fn all_readable(cfg: Seq<char>) -> bool {
    forall|k: int| 0 <= k < lines(cfg).len() ==> is_readable(#[trigger] lines(cfg)[k])
}

/// What the lines say, in order.
pub open spec fn cfg_entries(all: Seq<Seq<char>>) -> Seq<(Seq<char>, Seq<char>)>
    decreases all.len(),
{
    if all.len() == 0 {
        Seq::empty()
    } else {
        match cfg_entry(all.last()) {
            Some(entry) => cfg_entries(all.drop_last()).push(entry),
            None => cfg_entries(all.drop_last()),
        }
    }
}

/// The settings that occur.
pub open spec fn cfg_keys(entries: Seq<(Seq<char>, Seq<char>)>) -> Set<Seq<char>> {
    entries.map_values(|e: (Seq<char>, Seq<char>)| e.0).to_set()
}

/// The values that a setting occurs with.
pub open spec fn cfg_values(entries: Seq<(Seq<char>, Seq<char>)>, key: Seq<char>) -> Set<
    Seq<char>,
> {
    Set::new(|value: Seq<char>| entries.contains((key, value)))
}

/// The name of the variable for a setting.
pub open spec fn cfg_name(key: Seq<char>) -> Seq<char> {
    "CARGO_CFG_"@ + upper_case(key)
}

/// The variable for a setting: its values in ascending order, each once, separated by commas.
pub open spec fn cfg_line(entries: Seq<(Seq<char>, Seq<char>)>, key: Seq<char>) -> Seq<char> {
    cfg_name(key) + "="@ + separated(listing(cfg_values(entries, key)), ","@) + "\n"@
}

/// The variables for several settings.
pub open spec fn cfg_lines(
    entries: Seq<(Seq<char>, Seq<char>)>,
    keys: Seq<Seq<char>>,
) -> Seq<char>
    decreases keys.len(),
{
    if keys.len() == 0 {
        Seq::empty()
    } else {
        cfg_lines(entries, keys.drop_last()) + cfg_line(entries, keys.last())
    }
}

/// The variables for all settings that the compiler printed, in ascending order of the settings.
pub open spec fn cfg_file(cfg: Seq<char>) -> Seq<char> {
    let entries = cfg_entries(lines(cfg));
    cfg_lines(entries, listing(cfg_keys(entries)))
}

/// Reads the host from the compiler's output.
pub fn host_tuple<'a>(output: &'a str) -> (r: &'a str)
    ensures
        r@ == host_of(output@),
{
    trim(output)
}

/// Decides which target to ask the compiler about.
pub fn choose_target<'a>(host: &'a str, specified: &'a str) -> (r: &'a str)
    ensures
        r@ == target_of(host@, specified@),
{
    if to_chars(specified).len() == 0 {
        host
    } else {
        specified
    }
}

/// Writes the variables that name the host and the target.
pub fn tuple_variables(host: &str, target: &str) -> (r: String)
    ensures
        r@ == tuple_lines(host@, target@),
{
    let r = "HOST=".to_owned().concat(host).concat("\n").concat("TARGET=").concat(target).concat(
        "\n",
    );
    assert(r@ =~= tuple_lines(host@, target@));
    r
}

fn skipped(rhs: &Vec<char>) -> (r: bool)
    ensures
        r == is_skipped(rhs@),
{
    rhs.len() == 0 || (rhs.len() == 1 && rhs[0] <= '\u{7f}')
}

/// Whether every line that the compiler printed can be read.
pub fn cfg_readable(cfg: &str) -> (r: bool)
    ensures
        r == all_readable(cfg@),
{
    let all = split_lines(cfg);
    let mut k: usize = 0;
    assert(views(all@).len() == all@.len());
    while k < all.len()
        invariant
            k <= all@.len(),
            views(all@) == lines(cfg@),
            forall|j: int| 0 <= j < k ==> is_readable(#[trigger] lines(cfg@)[j]),
        decreases all@.len() - k,
    {
        assert(lines(cfg@)[k as int] == all@[k as int]@);
        match split_once(all[k], '=') {
            Some((_, rhs)) => {
                let cs = to_chars(rhs);
                if !skipped(&cs) && !(cs.len() >= 2 && cs[0] <= '\u{7f}' && cs[cs.len() - 1]
                    <= '\u{7f}') {
                    return false;
                }
            },
            None => {},
        }
        k = k + 1;
    }
    true
}

/// The text of every pair of a list.
pub open spec fn pair_views(v: Seq<(&str, &str)>) -> Seq<(Seq<char>, Seq<char>)> {
    v.map_values(|e: (&str, &str)| (e.0@, e.1@))
}

/// Reads what the lines say.
fn read_entries<'a>(cfg: &'a str) -> (r: Vec<(&'a str, &'a str)>)
    requires
        all_readable(cfg@),
    ensures
        pair_views(r@) == cfg_entries(lines(cfg@)),
{
    let all = split_lines(cfg);
    let mut r: Vec<(&'a str, &'a str)> = Vec::new();
    let mut k: usize = 0;
    assert(lines(cfg@).take(0) =~= Seq::empty());
    assert(views(all@).len() == all@.len());
    while k < all.len()
        invariant
            k <= all@.len(),
            all_readable(cfg@),
            views(all@) == lines(cfg@),
            pair_views(r@) =~= cfg_entries(lines(cfg@).take(k as int)),
        decreases all@.len() - k,
    {
        let line = all[k];
        let ghost before = r@;
        let ghost longer = lines(cfg@).take(k + 1);
        proof {
            assert(longer.drop_last() =~= lines(cfg@).take(k as int));
            assert(lines(cfg@)[k as int] == all@[k as int]@);
            assert(longer.last() == line@);
            assert(is_readable(lines(cfg@)[k as int]));
        }
        match split_once(line, '=') {
            Some((lhs, rhs)) => {
                let cs = to_chars(rhs);
                if !skipped(&cs) {
                    let value = rhs.substring_char(1, cs.len() - 1);
                    r.push((lhs, value));
                    assert(pair_views(r@) =~= pair_views(before).push((lhs@, value@)));
                }
            },
            None => if to_chars(line).len() > 0 {
                let value = line.substring_char(0, 0);
                r.push((line, value));
                assert(value@ =~= Seq::empty());
                assert(pair_views(r@) =~= pair_views(before).push((line@, value@)));
            },
        }
        k = k + 1;
    }
    assert(lines(cfg@).take(k as int) =~= lines(cfg@));
    r
}

/// The values of one setting, in ascending order.
fn values_of<'a>(entries: &Vec<(&'a str, &'a str)>, key: &str) -> (r: Vec<&'a str>)
    ensures
        views(r@) == listing(cfg_values(pair_views(entries@), key@)),
{
    let ghost pairs = pair_views(entries@);
    let mut found: Vec<&'a str> = Vec::new();
    let mut k: usize = 0;
    while k < entries.len()
        invariant
            k <= entries@.len(),
            pairs == pair_views(entries@),
            forall|value: Seq<char>| #[trigger]
                views(found@).contains(value) <==> pairs.take(k as int).contains((key@, value)),
        decreases entries@.len() - k,
    {
        let entry = entries[k];
        let ghost before = views(found@);
        let same = crate::text::same_text(entry.0, key);
        if same {
            found.push(entry.1);
        }
        proof {
            let shorter = pairs.take(k as int);
            let longer = pairs.take(k + 1);
            assert(longer =~= shorter.push((entry.0@, entry.1@)));
            assert(same ==> views(found@) =~= before.push(entry.1@));
            assert forall|value: Seq<char>| #[trigger]
                views(found@).contains(value) <==> longer.contains((key@, value)) by {
                if shorter.contains((key@, value)) {
                    let i = choose|i: int|
                        0 <= i < shorter.len() && shorter[i] == (key@, value);
                    assert(longer[i] == (key@, value));
                }
                if longer.contains((key@, value)) {
                    let i = choose|i: int| 0 <= i < longer.len() && longer[i] == (key@, value);
                    if i < k {
                        assert(shorter[i] == (key@, value));
                        assert(before.contains(value));
                        let j = choose|j: int| 0 <= j < before.len() && before[j] == value;
                        assert(views(found@)[j] == value);
                    } else {
                        assert(views(found@)[before.len() as int] == value);
                    }
                }
                if views(found@).contains(value) {
                    let j = choose|j: int|
                        0 <= j < views(found@).len() && views(found@)[j] == value;
                    if j < before.len() {
                        assert(before[j] == value);
                        assert(before.contains(value));
                    } else {
                        assert(longer[k as int] == (key@, value));
                    }
                }
            }
        }
        k = k + 1;
    }
    assert(pairs.take(k as int) =~= pairs);
    assert(views(found@).to_set() =~= cfg_values(pairs, key@));
    sort_texts(&found)
}

/// Writes the variables for all settings that the compiler printed.
pub fn cfg_variables(cfg: &str) -> (r: String)
    requires
        all_readable(cfg@),
    ensures
        r@ == cfg_file(cfg@),
{
    let entries = read_entries(cfg);
    let ghost pairs = pair_views(entries@);
    let mut names: Vec<&str> = Vec::new();
    let mut k: usize = 0;
    while k < entries.len()
        invariant
            k <= entries@.len(),
            pairs == pair_views(entries@),
            views(names@) =~= pairs.take(k as int).map_values(|e: (Seq<char>, Seq<char>)| e.0),
        decreases entries@.len() - k,
    {
        let ghost before = views(names@);
        names.push(entries[k].0);
        assert(pairs[k as int].0 == entries@[k as int].0@);
        assert(views(names@) =~= before.push(pairs[k as int].0));
        assert(pairs.take(k + 1) =~= pairs.take(k as int).push(pairs[k as int]));
        k = k + 1;
    }
    assert(pairs.take(k as int) =~= pairs);
    let keys = sort_texts(&names);
    let ghost all = listing(cfg_keys(pairs));
    let mut r = String::new();
    let mut n: usize = 0;
    assert(all.take(0) =~= Seq::empty());
    assert(views(keys@).len() == keys@.len());
    while n < keys.len()
        invariant
            n <= keys@.len(),
            pairs == pair_views(entries@),
            views(keys@) == all,
            r@ == cfg_lines(pairs, all.take(n as int)),
        decreases keys@.len() - n,
    {
        let key = keys[n];
        let ghost longer = all.take(n + 1);
        assert(all[n as int] == key@);
        assert(longer.drop_last() =~= all.take(n as int));
        assert(longer.last() == key@);
        let values = values_of(&entries, key);
        r.append("CARGO_CFG_");
        r.append(key.to_uppercase().as_str());
        r.append("=");
        r.append(join_texts(&values, ",").as_str());
        r.append("\n");
        assert(r@ =~= cfg_lines(pairs, longer));
        n = n + 1;
    }
    assert(all.take(n as int) =~= all);
    r
}

} // verus!
