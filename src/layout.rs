//! The on-disk layout of a session: one directory per command, named
//! `<index>__<label>`.

use vstd::prelude::*;
use vstd::string::*;

use crate::decimal::{all_digits, decimal, format_decimal, is_digit, lemma_decimal_value, lemma_plain_decimal, parse_count, value_of};

verus! {

/// The label given to a record whose command text is not known.
pub const FALLBACK_LABEL: &'static str = "last_command";

/// The separator between a record's index and its label.
pub open spec fn separator() -> Seq<char> {
    seq!['_', '_']
}

/// The name of the record directory for `index` and `label`.
pub open spec fn record_name(index: nat, label: Seq<char>) -> Seq<char> {
    decimal(index) + separator() + label
}

/// The number of digits that `s` starts with.
pub open spec fn leading_digits(s: Seq<char>) -> nat
    decreases s.len(),
{
    if s.len() > 0 && is_digit(s[0]) {
        1 + leading_digits(s.drop_first())
    } else {
        0
    }
}

/// What a directory name says of its record: its index and its label, where
/// the name is the decimal representation of an index that fits in `usize`
/// (no leading zero), then `__`, then any label.
pub open spec fn parse_record_name(s: Seq<char>) -> Option<(nat, Seq<char>)> {
    let p = leading_digits(s);
    if p > 0 && p + 2 <= s.len() && s[p as int] == '_' && s[p + 1int] == '_' && value_of(s.take(p as int))
        <= usize::MAX && s.take(p as int) == decimal(value_of(s.take(p as int))) {
        Some((value_of(s.take(p as int)), s.skip(p + 2int)))
    } else {
        None
    }
}

/// Whether the directory named `s` holds the record of `index`.
pub open spec fn names_index(s: Seq<char>, index: nat) -> bool {
    parse_record_name(s) matches Some(p) && p.0 == index
}

proof fn lemma_leading_digits(s: Seq<char>, i: int)
    requires
        0 <= i <= s.len(),
        forall|j: int| 0 <= j < i ==> is_digit(#[trigger] s[j]),
        i == s.len() || !is_digit(s[i]),
    ensures
        leading_digits(s) == i,
    decreases i,
{
    if i > 0 {
        let t = s.drop_first();
        assert forall|j: int| 0 <= j < i - 1 implies is_digit(#[trigger] t[j]) by {
            assert(t[j] == s[j + 1]);
        }
        lemma_leading_digits(t, i - 1);
    }
}

/// A record's directory name reads back as the index and label it was made from.
pub proof fn lemma_record_name_parses(index: nat, label: Seq<char>)
    requires
        index <= usize::MAX,
    ensures
        parse_record_name(record_name(index, label)) == Some((index, label)),
{
    let d = decimal(index);
    let s = record_name(index, label);
    lemma_decimal_value(index);
    assert forall|j: int| 0 <= j < d.len() implies is_digit(#[trigger] s[j]) by {
        assert(s[j] == d[j]);
    }
    lemma_leading_digits(s, d.len() as int);
    assert(s.take(d.len() as int) =~= d);
    assert(s.skip(d.len() + 2int) =~= label);
}

/// A directory holds the record of `index` exactly when its name starts with
/// the decimal representation of `index` followed by `__`.
pub proof fn lemma_names_index_prefix(s: Seq<char>, index: nat)
    requires
        index <= usize::MAX,
    ensures
        names_index(s, index) <==> (s.len() >= decimal(index).len() + 2 && s.take(
            decimal(index).len() + 2int,
        ) == decimal(index) + separator()),
{
    let d = decimal(index);
    if names_index(s, index) {
        let p = leading_digits(s);
        assert(s.take(p as int) == d);
        assert(s.take(d.len() + 2int) =~= d + separator());
    }
    if s.len() >= d.len() + 2 && s.take(d.len() + 2int) == d + separator() {
        let label = s.skip(d.len() + 2int);
        assert(s =~= record_name(index, label));
        lemma_record_name_parses(index, label);
    }
}

/// The name of the record directory for `index` and `label`.
pub fn record_dir_name(index: usize, label: &str) -> (r: String)
    ensures
        r@ == record_name(index as nat, label@),
{
    let mut r = format_decimal(index as u64);
    r.append("__");
    r.append(label);
    proof {
        reveal_strlit("__");
    }
    assert(r@ =~= record_name(index as nat, label@));
    r
}

/// A record directory found in a session: its index, its label and its name.
#[derive(Debug)]
pub struct RecordEntry {
    pub index: usize,
    pub label: String,
    pub dir: String,
}

impl RecordEntry {
    /// The entry's index, label and directory name.
    pub open spec fn view(&self) -> (nat, Seq<char>, Seq<char>) {
        (self.index as nat, self.label@, self.dir@)
    }

    /// A copy of the entry.
    pub fn copied(&self) -> (r: RecordEntry)
        ensures
            r@ == self@,
    {
        RecordEntry { index: self.index, label: self.label.clone(), dir: self.dir.clone() }
    }

    /// The name and the index and label agree.
    pub open spec fn wf(&self) -> bool {
        parse_record_name(self.dir@) == Some((self.index as nat, self.label@))
    }
}

/// Reads a directory name as a record entry; `None` where it is not of the
/// form `<index>__<label>`.
pub fn parse_record_dir_name(name: &str) -> (r: Option<RecordEntry>)
    ensures
        r matches Some(e) ==> e.wf() && e.dir@ == name@,
        r is None <==> parse_record_name(name@) is None,
{
    let len = name.unicode_len();
    let mut p: usize = 0;
    let mut in_digits = true;
    while in_digits && p < len
        invariant
            len == name@.len(),
            p <= len,
            forall|j: int| 0 <= j < p ==> is_digit(#[trigger] name@[j]),
            !in_digits ==> p < len && !is_digit(name@[p as int]),
        decreases len - p + if in_digits { 1int } else { 0int },
    {
        let c = name.get_char(p);
        if '0' <= c && c <= '9' {
            p = p + 1;
        } else {
            in_digits = false;
        }
    }
    proof {
        lemma_leading_digits(name@, p as int);
    }
    if p == 0 || len - p < 2 || name.get_char(p) != '_' || name.get_char(p + 1) != '_' {
        return None;
    }
    let digits = name.substring_char(0, p);
    assert(digits@ =~= name@.take(p as int));
    assert(all_digits(digits@));
    proof {
        lemma_plain_decimal(digits@);
    }
    if p > 1 && name.get_char(0) == '0' {
        assert(digits@[0] == name@[0]);
        return None;
    }
    match parse_count(digits) {
        None => None,
        Some(index) => {
            let label = name.substring_char(p + 2, len).to_owned();
            assert(label@ =~= name@.skip(p + 2int));
            Some(RecordEntry { index, label, dir: name.to_owned() })
        },
    }
}

/// The strings that a sequence of names holds.
pub open spec fn name_views(names: Seq<String>) -> Seq<Seq<char>> {
    names.map_values(|s: String| s@)
}

/// The views of a sequence of entries.
pub open spec fn entry_views(entries: Seq<RecordEntry>) -> Seq<(nat, Seq<char>, Seq<char>)> {
    entries.map_values(|e: RecordEntry| e@)
}

/// The records that a list of directory names holds, in the order of the list;
/// names that are not record names are passed over.
pub open spec fn parsed_entries(names: Seq<Seq<char>>) -> Seq<(nat, Seq<char>, Seq<char>)>
    decreases names.len(),
{
    if names.len() == 0 {
        Seq::empty()
    } else {
        let rest = parsed_entries(names.drop_last());
        match parse_record_name(names.last()) {
            Some(p) => rest.push((p.0, p.1, names.last())),
            None => rest,
        }
    }
}

/// Entries ordered by index, oldest first.
pub open spec fn sorted_by_index(s: Seq<(nat, Seq<char>, Seq<char>)>) -> bool {
    forall|a: int, b: int| 0 <= a < b < s.len() ==> s[a].0 <= s[b].0
}

/// The records among a session's directory names, in ascending order of index.
pub fn list_records(names: &Vec<String>) -> (r: Vec<RecordEntry>)
    ensures
        forall|k: int| 0 <= k < r@.len() ==> (#[trigger] r@[k]).wf(),
        sorted_by_index(entry_views(r@)),
        entry_views(r@).to_multiset() =~= parsed_entries(name_views(names@)).to_multiset(),
{
    broadcast use vstd::seq_lib::group_to_multiset_ensures;

    let mut r: Vec<RecordEntry> = Vec::new();
    let mut i: usize = 0;
    assert(entry_views(r@) =~= Seq::empty());
    assert(name_views(names@.take(0)) =~= Seq::empty());
    while i < names.len()
        invariant
            i <= names@.len(),
            forall|k: int| 0 <= k < r@.len() ==> (#[trigger] r@[k]).wf(),
            sorted_by_index(entry_views(r@)),
            entry_views(r@).to_multiset() =~= parsed_entries(
                name_views(names@.take(i as int)),
            ).to_multiset(),
        decreases names.len() - i,
    {
        let ghost before = r@;
        let ghost nv = name_views(names@.take(i + 1int));
        assert(nv.drop_last() =~= name_views(names@.take(i as int)));
        assert(nv.last() == names@[i as int]@);
        assert(parsed_entries(nv) == match parse_record_name(nv.last()) {
            Some(p) => parsed_entries(nv.drop_last()).push((p.0, p.1, nv.last())),
            None => parsed_entries(nv.drop_last()),
        });
        match parse_record_dir_name(names[i].as_str()) {
            None => {},
            Some(e) => {
                let mut pos: usize = 0;
                while pos < r.len() && r[pos].index <= e.index
                    invariant
                        r@ == before,
                        pos <= r@.len(),
                        forall|k: int| 0 <= k < pos ==> (#[trigger] r@[k]).index <= e.index,
                    decreases r.len() - pos,
                {
                    pos = pos + 1;
                }
                r.insert(pos, e);
                proof {
                    assert(entry_views(r@) =~= entry_views(before).insert(pos as int, e@));
                    vstd::seq_lib::to_multiset_insert(entry_views(before), pos as int, e@);
                    assert(e@ == (e.index as nat, e.label@, nv.last()));
                    vstd::seq_lib::to_multiset_build(parsed_entries(nv.drop_last()), e@);
                    let ev = entry_views(before);
                    assert forall|a: int, b: int|
                        0 <= a < b < entry_views(r@).len() implies entry_views(r@)[a].0
                        <= entry_views(r@)[b].0 by {
                        if b < pos {
                        } else if b == pos {
                        } else if a < pos {
                            assert(ev[b - 1].0 >= ev[pos as int].0);
                        } else if a == pos {
                            assert(ev[b - 1].0 >= ev[pos as int].0);
                        } else {
                            assert(ev[a - 1].0 <= ev[b - 1].0);
                        }
                    }
                }
            },
        }
        i = i + 1;
    }
    assert(names@.take(names.len() as int) =~= names@);
    r
}

} // verus!
