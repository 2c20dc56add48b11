//! What the command line and the environment settle: the session root and
//! the options of `hist`.

use vstd::prelude::*;

use crate::decimal::{count_of, parse_count};
use crate::error::LabsError;
use crate::query::DEFAULT_HIST_COUNT;

verus! {

/// The session root that a run uses: the one given as an argument, else the
/// one from the environment; an empty value counts as none.
pub open spec fn root_of(arg: Option<Seq<char>>, env: Option<Seq<char>>) -> Option<Seq<char>> {
    if arg matches Some(a) && a.len() > 0 {
        arg
    } else if env matches Some(e) && e.len() > 0 {
        env
    } else {
        None
    }
}

pub open spec fn opt_view(s: Option<String>) -> Option<Seq<char>> {
    match s {
        Some(x) => Some(x@),
        None => None,
    }
}

/// The session root, from the argument or else the environment; `Config`
/// when neither gives a non-empty one.
pub fn session_root(arg: Option<String>, env: Option<String>) -> (r: Result<String, LabsError>)
    ensures
        r matches Ok(s) ==> root_of(opt_view(arg), opt_view(env)) == Some(s@),
        r matches Err(e) ==> e == LabsError::Config && root_of(opt_view(arg), opt_view(env))
            is None,
{
    match arg {
        Some(a) if a.as_str().unicode_len() > 0 => Ok(a),
        _ => match env {
            Some(e) if e.as_str().unicode_len() > 0 => Ok(e),
            _ => Err(LabsError::Config),
        },
    }
}

pub open spec fn str_opt_view(s: Option<&str>) -> Option<Seq<char>> {
    match s {
        Some(x) => Some(x@),
        None => None,
    }
}

/// The value of an option that takes a count: its default when absent.
pub open spec fn count_option(s: Option<Seq<char>>, default: nat) -> Option<nat> {
    match s {
        None => Some(default),
        Some(t) => count_of(t),
    }
}

fn read_count_option(s: Option<&str>, default: usize) -> (r: Option<usize>)
    ensures
        r matches Some(v) ==> count_option(str_opt_view(s), default as nat) == Some(v as nat),
        r is None ==> count_option(str_opt_view(s), default as nat) is None,
{
    match s {
        None => Some(default),
        Some(t) => parse_count(t),
    }
}

/// The count and the offset that `hist` runs with: `-n` gives the count
/// (`DEFAULT_HIST_COUNT` when absent), `--prev` the offset (0 when absent).
/// `None` where a given value is not a count.
pub fn hist_options(n: Option<&str>, prev: Option<&str>) -> (r: Option<(usize, usize)>)
    ensures
        r matches Some(p) ==> count_option(str_opt_view(n), DEFAULT_HIST_COUNT as nat) == Some(
            p.0 as nat,
        ) && count_option(str_opt_view(prev), 0) == Some(p.1 as nat),
        r is None ==> count_option(str_opt_view(n), DEFAULT_HIST_COUNT as nat) is None
            || count_option(str_opt_view(prev), 0) is None,
{
    match read_count_option(n, DEFAULT_HIST_COUNT) {
        None => None,
        Some(count) => match read_count_option(prev, 0) {
            None => None,
            Some(offset) => Some((count, offset)),
        },
    }
}

} // verus!
