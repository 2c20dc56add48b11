//! Reading a session's history back: the last commands, newest first.

use vstd::prelude::*;

use crate::error::LabsError;
use crate::layout::{entry_views, sorted_by_index, RecordEntry};

verus! {

/// How many records `hist` shows when no count is given.
pub const DEFAULT_HIST_COUNT: usize = 10;

/// The records that `hist` selects from `s` (oldest first): up to `n` of them,
/// newest first, starting `offset` records back from the newest.
pub open spec fn hist_of<T>(s: Seq<T>, n: nat, offset: nat) -> Seq<T> {
    let avail: nat = if s.len() > offset {
        (s.len() - offset) as nat
    } else {
        0
    };
    let m: nat = if n < avail {
        n
    } else {
        avail
    };
    Seq::new(m, |j: int| s[avail - 1 - j])
}

/// The record that `prev` selects from `s` (oldest first): the newest one.
pub open spec fn prev_of<T>(s: Seq<T>) -> Option<T> {
    if s.len() == 0 {
        None
    } else {
        Some(s.last())
    }
}

/// Up to `n` records of `records` (oldest first), newest first, starting
/// `prev_offset` records back from the newest.
pub fn hist(records: &Vec<RecordEntry>, n: usize, prev_offset: usize) -> (r: Vec<RecordEntry>)
    ensures
        entry_views(r@) =~= hist_of(entry_views(records@), n as nat, prev_offset as nat),
{
    let avail: usize = if records.len() > prev_offset {
        records.len() - prev_offset
    } else {
        0
    };
    let m: usize = if n < avail {
        n
    } else {
        avail
    };
    let mut r: Vec<RecordEntry> = Vec::new();
    let mut j: usize = 0;
    while j < m
        invariant
            m <= avail <= records@.len(),
            avail == (if records@.len() > prev_offset {
                records@.len() - prev_offset
            } else {
                0
            }),
            m == (if n < avail {
                n
            } else {
                avail
            }),
            j <= m,
            r@.len() == j,
            forall|k: int| 0 <= k < j ==> (#[trigger] r@[k])@ == records@[avail - 1 - k]@,
        decreases m - j,
    {
        r.push(records[avail - 1 - j].copied());
        j = j + 1;
    }
    r
}

/// The newest record of `records` (oldest first); `NotFound` when there is none.
pub fn prev(records: &Vec<RecordEntry>) -> (r: Result<RecordEntry, LabsError>)
    ensures
        r is Err <==> records@.len() == 0,
        r matches Err(e) ==> e == LabsError::NotFound,
        r matches Ok(e) ==> prev_of(entry_views(records@)) == Some(e@),
{
    if records.len() == 0 {
        Err(LabsError::NotFound)
    } else {
        Ok(records[records.len() - 1].copied())
    }
}

/// Of the records of a session, `hist` with count `n` returns as many as `n`
/// and the session allow, whichever is fewer, each no older than the next,
/// and strictly newer where the session's indices are distinct.
pub proof fn lemma_hist_count_and_order(s: Seq<(nat, Seq<char>, Seq<char>)>, n: nat)
    requires
        sorted_by_index(s),
    ensures
        hist_of(s, n, 0).len() == if n < s.len() {
            n
        } else {
            s.len()
        },
        forall|a: int, b: int|
            0 <= a < b < hist_of(s, n, 0).len() ==> hist_of(s, n, 0)[a].0 >= hist_of(s, n, 0)[b].0,
        forall|j: int| 0 <= j < hist_of(s, n, 0).len() ==> hist_of(s, n, 0)[j] == s[s.len() - 1 - j],
        (forall|a: int, b: int| 0 <= a < b < s.len() ==> s[a].0 != s[b].0) ==> forall|a: int, b: int|
            0 <= a < b < hist_of(s, n, 0).len() ==> hist_of(s, n, 0)[a].0 > hist_of(s, n, 0)[b].0,
{
}

/// `prev` returns the first record that `hist` returns with count one, and
/// fails exactly where that is empty.
pub proof fn lemma_prev_is_first_of_hist<T>(s: Seq<T>)
    ensures
        prev_of(s) == if hist_of(s, 1, 0).len() > 0 {
            Some(hist_of(s, 1, 0)[0])
        } else {
            None
        },
{
}

} // verus!
