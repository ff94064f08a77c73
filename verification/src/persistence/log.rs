//! The events of the execution journal (one JSON object per line), the
//! notes the executor emits for it, and where the journal is kept.

use vstd::prelude::*;
use crate::discovery::file_info::Timestamp;

verus! {

/// One event of the execution journal: when it happened, the operation it
/// belongs to, its phase (`copy_start`, `copy_done`, `verify_start`,
/// `verify_ok`, `delete_original`, `symlink_update`, `complete`, `error`)
/// and the details of that phase.
#[derive(Debug, Clone, PartialEq, Eq)]
pub struct LogEvent {
    pub ts: Timestamp,
    pub op_id: String,
    pub phase: String,
    pub src: Option<String>,
    pub dst: Option<String>,
    pub bytes: Option<u64>,
    pub elapsed_ms: Option<u64>,
    pub hash: Option<String>,
    pub path: Option<String>,
    pub new_target: Option<String>,
    pub error: Option<String>,
}

/// Where the execution journal is written.
#[derive(Debug)]
pub struct ExecutionLogger {
    file_path: String,
}

impl ExecutionLogger {
    /// The journal kept at `path` (its directory is created by the caller).
    pub fn new(path: &str) -> (r: ExecutionLogger)
        ensures
            r.path()@ == path@,
    {
        ExecutionLogger { file_path: path.to_owned() }
    }

    /// The journal's path.
    pub closed spec fn path(&self) -> String {
        self.file_path
    }

    /// The journal's path.
    pub fn file_path(&self) -> (r: &str)
        ensures
            r@ == self.path()@,
    {
        self.file_path.as_str()
    }
}

/// What the executor asks to be written to the journal, without the time.
#[derive(Debug, Clone, PartialEq, Eq)]
pub enum LogNote {
    CopyStart { op_id: String, src: String, dst: String },
    CopyDone { op_id: String, bytes: u64, elapsed_ms: u64 },
    VerifyStart { op_id: String },
    VerifyOk { op_id: String, hash: String },
    DeleteOriginal { op_id: String },
    SymlinkUpdate { op_id: String, path: String, new_target: String },
    Complete { op_id: String, hash: Option<String> },
    Error { op_id: String, error: String },
}

/// The phase written for a note.
pub open spec fn note_phase(n: LogNote) -> Seq<char> {
    match n {
        LogNote::CopyStart { .. } => "copy_start"@,
        LogNote::CopyDone { .. } => "copy_done"@,
        LogNote::VerifyStart { .. } => "verify_start"@,
        LogNote::VerifyOk { .. } => "verify_ok"@,
        LogNote::DeleteOriginal { .. } => "delete_original"@,
        LogNote::SymlinkUpdate { .. } => "symlink_update"@,
        LogNote::Complete { .. } => "complete"@,
        LogNote::Error { .. } => "error"@,
    }
}

/// The operation a note belongs to.
pub open spec fn note_op(n: LogNote) -> Seq<char> {
    match n {
        LogNote::CopyStart { op_id, .. } => op_id@,
        LogNote::CopyDone { op_id, .. } => op_id@,
        LogNote::VerifyStart { op_id } => op_id@,
        LogNote::VerifyOk { op_id, .. } => op_id@,
        LogNote::DeleteOriginal { op_id } => op_id@,
        LogNote::SymlinkUpdate { op_id, .. } => op_id@,
        LogNote::Complete { op_id, .. } => op_id@,
        LogNote::Error { op_id, .. } => op_id@,
    }
}

/// The text of an optional string.
pub open spec fn opt_text(o: Option<String>) -> Option<Seq<char>> {
    match o {
        Some(s) => Some(s@),
        None => None,
    }
}

/// Whether `e` is the journal event of note `n` written at `ts`: the phase
/// and operation of the note, the details it carries, and nothing else.
pub open spec fn event_of_note(e: LogEvent, n: LogNote, ts: Timestamp) -> bool {
    &&& e.ts == ts
    &&& e.op_id@ == note_op(n)
    &&& e.phase@ == note_phase(n)
    &&& opt_text(e.src) == match n { LogNote::CopyStart { src, .. } => Some(src@), _ => None }
    &&& opt_text(e.dst) == match n { LogNote::CopyStart { dst, .. } => Some(dst@), _ => None }
    &&& e.bytes == match n { LogNote::CopyDone { bytes, .. } => Some(bytes), _ => None }
    &&& e.elapsed_ms == match n { LogNote::CopyDone { elapsed_ms, .. } => Some(elapsed_ms), _ => None }
    &&& opt_text(e.hash) == match n {
        LogNote::VerifyOk { hash, .. } => Some(hash@),
        LogNote::Complete { hash, .. } => opt_text(hash),
        _ => None,
    }
    &&& opt_text(e.path) == match n { LogNote::SymlinkUpdate { path, .. } => Some(path@), _ => None }
    &&& opt_text(e.new_target) == match n { LogNote::SymlinkUpdate { new_target, .. } => Some(new_target@), _ => None }
    &&& opt_text(e.error) == match n { LogNote::Error { error, .. } => Some(error@), _ => None }
}

/// An event with only the time, operation and phase filled in.
fn bare_event(ts: Timestamp, op_id: &str, phase: &str) -> (r: LogEvent)
    ensures
        r.ts == ts,
        r.op_id@ == op_id@,
        r.phase@ == phase@,
        r.src is None && r.dst is None && r.bytes is None && r.elapsed_ms is None,
        r.hash is None && r.path is None && r.new_target is None && r.error is None,
{
    LogEvent {
        ts,
        op_id: op_id.to_owned(),
        phase: phase.to_owned(),
        src: None,
        dst: None,
        bytes: None,
        elapsed_ms: None,
        hash: None,
        path: None,
        new_target: None,
        error: None,
    }
}

impl LogEvent {
    /// The journal event of `note`, written at `ts`.
    pub fn from_note(note: &LogNote, ts: Timestamp) -> (r: LogEvent)
        ensures
            event_of_note(r, *note, ts),
    {
        match note {
            LogNote::CopyStart { op_id, src, dst } => {
                let mut e = bare_event(ts, op_id.as_str(), "copy_start");
                e.src = Some(src.clone());
                e.dst = Some(dst.clone());
                e
            },
            LogNote::CopyDone { op_id, bytes, elapsed_ms } => {
                let mut e = bare_event(ts, op_id.as_str(), "copy_done");
                e.bytes = Some(*bytes);
                e.elapsed_ms = Some(*elapsed_ms);
                e
            },
            LogNote::VerifyStart { op_id } => bare_event(ts, op_id.as_str(), "verify_start"),
            LogNote::VerifyOk { op_id, hash } => {
                let mut e = bare_event(ts, op_id.as_str(), "verify_ok");
                e.hash = Some(hash.clone());
                e
            },
            LogNote::DeleteOriginal { op_id } => bare_event(ts, op_id.as_str(), "delete_original"),
            LogNote::SymlinkUpdate { op_id, path, new_target } => {
                let mut e = bare_event(ts, op_id.as_str(), "symlink_update");
                e.path = Some(path.clone());
                e.new_target = Some(new_target.clone());
                e
            },
            LogNote::Complete { op_id, hash } => {
                let mut e = bare_event(ts, op_id.as_str(), "complete");
                e.hash = match hash {
                    Some(h) => Some(h.clone()),
                    None => None,
                };
                e
            },
            LogNote::Error { op_id, error } => {
                let mut e = bare_event(ts, op_id.as_str(), "error");
                e.error = Some(error.clone());
                e
            },
        }
    }
}

} // verus!
