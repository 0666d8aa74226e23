//! The command-line surface: the actions a caller can request, and the
//! verified dispatch from document content and action to an outcome.
//!
//! Argument parsing, file access and printing stay with the caller; it
//! hands this module the current document content, the parsed action and
//! the current time, and gets back either the new document content to
//! write or the lines to print.

use crate::codec::encode_spec;
use crate::journal::{
    add_task, complete_task, empty_notice, line_spec, list_tasks, load_spec, JournalError,
};
use crate::task::{Task, TaskView};
use vstd::prelude::*;

verus! {

/// A request against the journal.
pub enum Action {
    /// Append a task with the given text to the journal.
    Add { text: String },
    /// Remove the entry at the given 1-based position from the journal.
    Done { position: usize },
    /// List all tasks in the journal.
    List,
}

/// A parsed command line: the action to perform and an optional override
/// for the journal file path.
pub struct CommandLineArgs {
    pub action: Action,
    pub journal_file: Option<String>,
}

/// What one action produces: new document content to write back, or lines
/// to print.
#[derive(Debug)]
pub enum Outcome {
    Updated(String),
    Lines(Vec<String>),
}

/// Runs one action against the current document content; `now` is the
/// creation time given to a task added by `Add`.
pub fn run_action(content: &str, action: Action, now: u64) -> (r: Result<Outcome, JournalError>)
    ensures
        match action {
            Action::Add { text } => match r {
                Ok(o) => o matches Outcome::Updated(out) && load_spec(content@) matches Some(ts)
                    && out@ == encode_spec(ts.push(TaskView { text: text@, created_at: now })),
                Err(e) => e == JournalError::Corrupt && load_spec(content@) is None,
            },
            Action::Done { position } => match r {
                Ok(o) => o matches Outcome::Updated(out) && load_spec(content@) matches Some(ts)
                    && 1 <= position <= ts.len() && out@ == encode_spec(ts.remove(position - 1)),
                Err(e) => match e {
                    JournalError::Corrupt => load_spec(content@) is None,
                    JournalError::InvalidPosition => load_spec(content@) matches Some(ts) && !(1
                        <= position <= ts.len()),
                },
            },
            Action::List => match r {
                Ok(o) => o matches Outcome::Lines(lines) && load_spec(content@) matches Some(ts)
                    && ({
                    &&& ts.len() == 0 ==> lines@.len() == 1 && lines@[0]@ == empty_notice()
                    &&& ts.len() > 0 ==> lines@.len() == ts.len() && (forall|k: int|
                        0 <= k < ts.len() ==> #[trigger] lines@[k]@ == line_spec(
                            (k + 1) as nat,
                            ts[k],
                        ))
                }),
                Err(e) => e == JournalError::Corrupt && load_spec(content@) is None,
            },
        },
{
    match action {
        Action::Add { text } => {
            let task = Task { text, created_at: now };
            match add_task(content, task) {
                Ok(out) => Ok(Outcome::Updated(out)),
                Err(e) => Err(e),
            }
        },
        Action::Done { position } => match complete_task(content, position) {
            Ok(out) => Ok(Outcome::Updated(out)),
            Err(e) => Err(e),
        },
        Action::List => match list_tasks(content) {
            Ok(lines) => Ok(Outcome::Lines(lines)),
            Err(e) => Err(e),
        },
    }
}

} // verus!
