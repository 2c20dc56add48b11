//! Where the hooks around a command write: the record directory that
//! `preexec` and `precmd` choose, and what goes into its files.

use vstd::prelude::*;
use vstd::string::*;

use crate::decimal::{decimal, format_decimal};
use crate::query::prev_of;
use crate::layout::{
    lemma_record_name_parses, name_views, names_index, parse_record_dir_name,
    parsed_entries, record_dir_name, record_name, sorted_by_index, FALLBACK_LABEL,
};

verus! {

/// The file that holds a record's command text.
pub const COMMAND_FILE: &'static str = "command.txt";

/// The file that holds what the command wrote to stdout.
pub const STDOUT_FILE: &'static str = "stdout.txt";

/// The file that holds what the command wrote to stderr.
pub const STDERR_FILE: &'static str = "stderr.txt";

/// The file that holds both streams as they came.
pub const FULL_FILE: &'static str = "full.txt";

/// The file that holds the command's exit status.
pub const EXIT_STATUS_FILE: &'static str = "exit_status.txt";

/// A character that may stand in a directory name as it is.
pub open spec fn label_char(c: char) -> char {
    if c == '/' || c == '\0' {
        '_'
    } else {
        c
    }
}

/// A command text made fit to be a directory label: path separators and
/// NUL characters become `_`.
pub open spec fn sanitize(s: Seq<char>) -> Seq<char> {
    s.map_values(|c: char| label_char(c))
}

/// The first of `names` that holds the record of `index`, if any.
pub open spec fn existing_dir(names: Seq<Seq<char>>, index: nat) -> Option<Seq<char>>
    decreases names.len(),
{
    if names.len() == 0 {
        None
    } else if names_index(names[0], index) {
        Some(names[0])
    } else {
        existing_dir(names.drop_first(), index)
    }
}

/// The directory that `preexec` writes to: the record of `index` where there
/// is one, else a new one labelled by the command.
pub open spec fn preexec_dir(names: Seq<Seq<char>>, index: nat, cmd: Seq<char>) -> Seq<char> {
    match existing_dir(names, index) {
        Some(d) => d,
        None => record_name(index, sanitize(cmd)),
    }
}

/// The directory that `precmd` writes to: the record of `index` where there
/// is one, else a new one with the fallback label.
pub open spec fn precmd_dir(names: Seq<Seq<char>>, index: nat) -> Seq<char> {
    match existing_dir(names, index) {
        Some(d) => d,
        None => record_name(index, FALLBACK_LABEL@),
    }
}

/// The text of an exit status.
pub open spec fn exit_status_of(status: int) -> Seq<char> {
    if status < 0 {
        seq!['-'] + decimal((-status) as nat)
    } else {
        decimal(status as nat)
    }
}

/// `cmd` made fit to be a directory label.
pub fn sanitize_label(cmd: &str) -> (r: String)
    ensures
        r@ == sanitize(cmd@),
{
    let len = cmd.unicode_len();
    let mut r = String::new();
    let mut i: usize = 0;
    while i < len
        invariant
            len == cmd@.len(),
            i <= len,
            r@ =~= sanitize(cmd@.take(i as int)),
        decreases len - i,
    {
        let c = cmd.get_char(i);
        if c == '/' || c == '\0' {
            r.push('_');
        } else {
            r.push(c);
        }
        i = i + 1;
        assert(r@ =~= sanitize(cmd@.take(i as int)));
    }
    assert(cmd@.take(len as int) =~= cmd@);
    r
}

/// The first of `names` that holds the record of `index`, if any.
pub fn find_record_dir(names: &Vec<String>, index: usize) -> (r: Option<String>)
    ensures
        r matches Some(d) ==> existing_dir(name_views(names@), index as nat) == Some(d@),
        r is None ==> existing_dir(name_views(names@), index as nat) is None,
{
    let ghost nv = name_views(names@);
    let mut i: usize = 0;
    assert(nv.skip(0) =~= nv);
    while i < names.len()
        invariant
            i <= names@.len(),
            nv == name_views(names@),
            existing_dir(nv, index as nat) == existing_dir(nv.skip(i as int), index as nat),
        decreases names.len() - i,
    {
        assert(nv.skip(i as int)[0] == names@[i as int]@);
        assert(nv.skip(i as int).drop_first() =~= nv.skip(i + 1int));
        match parse_record_dir_name(names[i].as_str()) {
            Some(e) => {
                if e.index == index {
                    return Some(names[i].clone());
                }
            },
            None => {},
        }
        i = i + 1;
    }
    assert(nv.skip(i as int) =~= Seq::<Seq<char>>::empty());
    None
}

/// The record directory that the hook before command `cmd_count` writes to,
/// given the names already in the session. Its `COMMAND_FILE` receives `cmd`.
pub fn preexec(names: &Vec<String>, cmd_count: usize, cmd: &str) -> (r: String)
    ensures
        r@ == preexec_dir(name_views(names@), cmd_count as nat, cmd@),
{
    match find_record_dir(names, cmd_count) {
        Some(d) => d,
        None => {
            let label = sanitize_label(cmd);
            record_dir_name(cmd_count, label.as_str())
        },
    }
}

/// The record directory that the hook after command `cmd_count` writes the
/// captured streams and the exit status to, given the names already in the
/// session.
pub fn precmd(names: &Vec<String>, cmd_count: usize) -> (r: String)
    ensures
        r@ == precmd_dir(name_views(names@), cmd_count as nat),
{
    match find_record_dir(names, cmd_count) {
        Some(d) => d,
        None => record_dir_name(cmd_count, FALLBACK_LABEL),
    }
}

/// The text written to `EXIT_STATUS_FILE`.
pub fn exit_status_text(status: i32) -> (r: String)
    ensures
        r@ == exit_status_of(status as int),
{
    if status < 0 {
        let mut r = String::new();
        r.push('-');
        let digits = format_decimal((-(status as i64)) as u64);
        r.append(digits.as_str());
        assert(r@ =~= exit_status_of(status as int));
        r
    } else {
        format_decimal(status as u64)
    }
}

proof fn lemma_existing_dir_push(names: Seq<Seq<char>>, d: Seq<char>, index: nat)
    ensures
        existing_dir(names.push(d), index) == match existing_dir(names, index) {
            Some(x) => Some(x),
            None => if names_index(d, index) {
                Some(d)
            } else {
                None
            },
        },
    decreases names.len(),
{
    if names.len() > 0 {
        assert(names.push(d)[0] == names[0]);
        assert(names.push(d).drop_first() =~= names.drop_first().push(d));
        lemma_existing_dir_push(names.drop_first(), d, index);
    } else {
        assert(names.push(d)[0] == d);
        assert(names.push(d).drop_first() =~= Seq::<Seq<char>>::empty());
        assert(existing_dir(names.push(d).drop_first(), index) is None);
    }
}

proof fn lemma_existing_dir_names_index(names: Seq<Seq<char>>, index: nat)
    ensures
        existing_dir(names, index) matches Some(d) ==> names_index(d, index),
    decreases names.len(),
{
    if names.len() > 0 {
        lemma_existing_dir_names_index(names.drop_first(), index);
    }
}

/// Running the hook before a command twice with the same index writes to the
/// same directory both times, whatever the two command texts.
pub proof fn lemma_preexec_idempotent(
    names: Seq<Seq<char>>,
    index: nat,
    first: Seq<char>,
    second: Seq<char>,
)
    requires
        index <= usize::MAX,
    ensures
        preexec_dir(names.push(preexec_dir(names, index, first)), index, second) == preexec_dir(
            names,
            index,
            first,
        ),
{
    let d = preexec_dir(names, index, first);
    lemma_record_name_parses(index, sanitize(first));
    lemma_existing_dir_push(names, d, index);
}

/// The directory that the hook after a command writes to holds a record of
/// that command's index, so the session's listing shows it, with or without
/// an earlier hook before the command.
pub proof fn lemma_precmd_retrievable(names: Seq<Seq<char>>, index: nat)
    requires
        index <= usize::MAX,
    ensures
        names_index(precmd_dir(names, index), index),
        parsed_entries(names.push(precmd_dir(names, index))).last().0 == index,
        parsed_entries(names.push(precmd_dir(names, index))).last().2 == precmd_dir(names, index),
{
    let d = precmd_dir(names, index);
    lemma_record_name_parses(index, FALLBACK_LABEL@);
    lemma_existing_dir_names_index(names, index);
    assert(names.push(d).drop_last() =~= names);
}

/// When every record of a session is older than `index`, the record that the
/// hook after command `index` writes, with or without an earlier hook before
/// it, is the newest one that the session's listing (in ascending order of
/// index) ends with, and so the one that `prev` returns.
pub proof fn lemma_precmd_is_newest(
    names: Seq<Seq<char>>,
    index: nat,
    listing: Seq<(nat, Seq<char>, Seq<char>)>,
)
    requires
        index <= usize::MAX,
        forall|k: int| 0 <= k < parsed_entries(names).len() ==> (#[trigger] parsed_entries(names)[k]).0
            < index,
        sorted_by_index(listing),
        listing.to_multiset() =~= parsed_entries(names.push(precmd_dir(names, index))).to_multiset(),
    ensures
        prev_of(listing) matches Some(e) && e.0 == index && e.2 == precmd_dir(names, index),
{
    broadcast use vstd::seq_lib::group_to_multiset_ensures;

    let d = precmd_dir(names, index);
    lemma_precmd_retrievable(names, index);
    let before = parsed_entries(names);
    let after = parsed_entries(names.push(d));
    assert(names.push(d).drop_last() =~= names);
    assert(names.push(d).last() == d);
    let e = after.last();
    assert(after == before.push(e));
    assert(listing.to_multiset().contains(e));
    assert(listing.contains(e));
    let k = choose|k: int| 0 <= k < listing.len() && listing[k] == e;
    let last = listing.last();
    assert(listing.to_multiset().contains(last));
    if last != e {
        assert(before.to_multiset().contains(last));
        assert(before.contains(last));
        let j = choose|j: int| 0 <= j < before.len() && before[j] == last;
        assert(before[j].0 < index);
        if k < listing.len() - 1 {
            assert(listing[k].0 <= listing[listing.len() - 1].0);
        }
    }
}

} // verus!
