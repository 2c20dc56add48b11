//! Shell command history: per-command record directories inside a session,
//! and the queries that read them back.

use vstd::prelude::*;

pub mod config;
pub mod decimal;
pub mod error;
pub mod layout;
pub mod query;
pub mod recorder;
mod text;

pub use config::{hist_options, session_root};
pub use error::LabsError;
pub use layout::{list_records, parse_record_dir_name, record_dir_name, RecordEntry};
pub use query::{hist, prev, DEFAULT_HIST_COUNT};
pub use recorder::{exit_status_text, precmd, preexec};

verus! {

} // verus!
