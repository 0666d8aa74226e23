//! The three journal operations — add, complete, list — as pure functions
//! from document content to new content or rendered lines.
//!
//! Every operation reads the whole document, works on the in-memory task
//! sequence, and (for the mutating ones) returns the whole new document.
//! File handling stays with the caller: it passes the current content in
//! and writes the returned content back.

use crate::codec;
use crate::codec::{dec_digits, encode_spec, parse_doc};
use crate::task::{tasks_view, Task, TaskView};
use vstd::prelude::*;
use vstd::string::{StrSliceExecFns, StringExecFns};

verus! {

/// Why a journal operation failed.
#[derive(Clone, Copy, Debug, PartialEq, Eq, Structural)]
pub enum JournalError {
    /// The document held non-empty content that is not a journal encoding.
    Corrupt,
    /// A 1-based position outside the current journal was given.
    InvalidPosition,
}

/// What document content denotes: empty content (an absent or zero-length
/// file) is the empty journal; anything else must be a canonical encoding,
/// or the journal is corrupt.
pub open spec fn load_spec(s: Seq<char>) -> Option<Seq<TaskView>> {
    if s.len() == 0 {
        Some(Seq::empty())
    } else {
        parse_doc(s)
    }
}

/// Reads the journal out of document content. Empty content is the empty
/// journal, not an error; non-empty content that is not a canonical
/// encoding is reported as corrupt, never as empty.
pub fn load(content: &str) -> (r: Result<Vec<Task>, JournalError>)
    ensures
        match r {
            Ok(ts) => load_spec(content@) == Some(tasks_view(ts@)),
            Err(e) => e == JournalError::Corrupt && load_spec(content@) is None,
        },
{
    if content.unicode_len() == 0 {
        let ts: Vec<Task> = Vec::new();
        proof {
            assert(tasks_view(ts@) =~= Seq::<TaskView>::empty());
        }
        Ok(ts)
    } else {
        match codec::decode(content) {
            Some(ts) => Ok(ts),
            None => Err(JournalError::Corrupt),
        }
    }
}

/// Appends `task` to the journal held in `content` and returns the new
/// document, which encodes exactly the old tasks followed by `task`.
pub fn add_task(content: &str, task: Task) -> (r: Result<String, JournalError>)
    ensures
        match r {
            Ok(out) => load_spec(content@) matches Some(ts) && out@ == encode_spec(
                ts.push(task@),
            ),
            Err(e) => e == JournalError::Corrupt && load_spec(content@) is None,
        },
{
    let ghost tv = task@;
    match load(content) {
        Err(e) => Err(e),
        Ok(mut tasks) => {
            let ghost ts0 = tasks_view(tasks@);
            tasks.push(task);
            proof {
                assert(tasks_view(tasks@) =~= ts0.push(tv));
            }
            Ok(codec::encode(&tasks))
        },
    }
}

/// Removes the task at the 1-based `position` from the journal held in
/// `content` and returns the new document. A position of zero or beyond
/// the journal's length is rejected and nothing is written.
pub fn complete_task(content: &str, position: usize) -> (r: Result<String, JournalError>)
    ensures
        match r {
            Ok(out) => load_spec(content@) matches Some(ts) && 1 <= position <= ts.len() && out@
                == encode_spec(ts.remove(position - 1)),
            Err(e) => match e {
                JournalError::Corrupt => load_spec(content@) is None,
                JournalError::InvalidPosition => load_spec(content@) matches Some(ts) && !(1
                    <= position <= ts.len()),
            },
        },
{
    match load(content) {
        Err(e) => Err(e),
        Ok(mut tasks) => {
            if position == 0 || position > tasks.len() {
                Err(JournalError::InvalidPosition)
            } else {
                let ghost ts0 = tasks_view(tasks@);
                tasks.remove(position - 1);
                proof {
                    assert(tasks_view(tasks@) =~= ts0.remove(position - 1));
                }
                Ok(codec::encode(&tasks))
            }
        },
    }
}

/// The rendering of one listed task: its 1-based position, its text, and
/// its creation time in brackets.
pub open spec fn line_spec(pos: nat, t: TaskView) -> Seq<char> {
    dec_digits(pos) + seq![':', ' '] + t.text + seq![' ', '['] + dec_digits(t.created_at as nat)
        + seq![']']
}

/// The notice printed in place of lines when the journal is empty.
pub open spec fn empty_notice() -> Seq<char> {
    seq!['T', 'a', 's', 'k', ' ', 'l', 'i', 's', 't', ' ', 'i', 's', ' ', 'e', 'm', 'p', 't', 'y', '!']
}

fn render_line(pos: u64, t: &Task) -> (r: String)
    ensures
        r@ == line_spec(pos as nat, t@),
{
    let mut out = codec::u64_to_dec(pos);
    out.push(':');
    out.push(' ');
    out.append(t.text.as_str());
    out.push(' ');
    out.push('[');
    let num = codec::u64_to_dec(t.created_at);
    out.append(num.as_str());
    out.push(']');
    proof {
        assert(out@ =~= line_spec(pos as nat, t@));
    }
    out
}

/// Renders the journal held in `content` for display: one numbered line
/// per task in order, or a single "empty" notice when there are none.
/// A pure read: nothing is written back.
pub fn list_tasks(content: &str) -> (r: Result<Vec<String>, JournalError>)
    ensures
        match r {
            Ok(lines) => load_spec(content@) matches Some(ts) && ({
                &&& ts.len() == 0 ==> lines@.len() == 1 && lines@[0]@ == empty_notice()
                &&& ts.len() > 0 ==> lines@.len() == ts.len() && (forall|k: int|
                    0 <= k < ts.len() ==> #[trigger] lines@[k]@ == line_spec(
                        (k + 1) as nat,
                        ts[k],
                    ))
            }),
            Err(e) => e == JournalError::Corrupt && load_spec(content@) is None,
        },
{
    match load(content) {
        Err(e) => Err(e),
        Ok(tasks) => {
            let ghost ts = tasks_view(tasks@);
            let n = tasks.len();
            let mut lines: Vec<String> = Vec::new();
            if n == 0 {
                proof {
                    reveal_strlit("Task list is empty!");
                    assert("Task list is empty!"@ =~= empty_notice());
                }
                lines.push("Task list is empty!".to_owned());
                Ok(lines)
            } else {
                let mut k: usize = 0;
                while k < n
                    invariant
                        n == tasks@.len(),
                        ts == tasks_view(tasks@),
                        k <= n,
                        lines@.len() == k,
                        forall|m: int|
                            0 <= m < k ==> #[trigger] lines@[m]@ == line_spec((m + 1) as nat, ts[m]),
                    decreases n - k,
                {
                    let line = render_line((k as u64) + 1, &tasks[k]);
                    lines.push(line);
                    k += 1;
                }
                Ok(lines)
            }
        },
    }
}

/// Law: a journal round-trips through its document unchanged — the
/// document written after any sequence of additions (or any other
/// operation) loads back to exactly the task sequence it encodes, in
/// order, so a later listing shows one line per task, numbered from 1.
pub proof fn lemma_round_trip(ts: Seq<TaskView>)
    ensures
        load_spec(encode_spec(ts)) == Some(ts),
{
    codec::lemma_encode_parses(ts);
}

} // verus!
