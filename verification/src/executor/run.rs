//! The decisions of running a sort plan, one operation at a time: which
//! operations are skipped, what a dry run reports, and the order copy,
//! verify, delete, re-link, each step taken only when the one before it
//! succeeded. The caller performs each requested action and reports back.

use vstd::prelude::*;
use crate::persistence::log::{ExecutionLogger, LogNote};
use crate::planner::sort_plan::{OpStatus, PlanAction, SortOperation, SortPlan};
use crate::planner::validator::checked;
use crate::executor::verify::{verification_message, verify_copy, VerificationError};
use crate::text::{chars_of, extend_chars, extend_str, string_of};
use crate::utils::hash::eq_ignore_ascii_case;
use crate::utils::human_size::{decimal, decimal_chars};

verus! {

/// How a plan is run: only simulated when `dry_run`, and journaled to
/// `logger` where there is one. Progress reports and cancellation belong to
/// the caller that performs the actions.
pub struct ExecutionOptions {
    pub dry_run: bool,
    pub logger: Option<ExecutionLogger>,
}

/// Where the run of the current operation stands.
#[derive(Debug, Clone, Copy, PartialEq, Eq, Structural)]
pub enum RunStage {
    Idle,
    Copying,
    Verifying,
    Deleting,
    Relinking,
    Finished,
}

/// What the caller reports after performing the last requested action
/// (`Start` to begin).
#[derive(Debug)]
pub enum RunEvent {
    Start,
    Copied { elapsed_ms: u64 },
    CopyFailed { error: String },
    Hashed { source_hash: String, dest_hash: String },
    HashFailed { error: String },
    Deleted,
    DeleteFailed { error: String },
    Relinked,
}

/// What the caller is asked to do next.
#[derive(Debug)]
pub enum RunAction {
    Copy { src: String, dst: String },
    Verify { src: String, dst: String },
    DeleteSource { src: String },
    UpdateSymlinks { src: String, dst: String, links: Vec<String> },
    Finished,
}

/// The next action, with the journal notes to write before it.
#[derive(Debug)]
pub struct RunStep {
    pub action: RunAction,
    pub notes: Vec<LogNote>,
}

/// The state of a run: the operation under way (or the next one to look
/// at), its stage, whether this is a dry run, the dry-run report so far,
/// and the checksum of the current operation once verified.
#[derive(Debug)]
pub struct PlanRun {
    pub next: usize,
    pub stage: RunStage,
    pub dry_run: bool,
    pub messages: Vec<String>,
    pub hash: String,
}

/// Whether the run passes over `op` without acting on disk: it is not
/// selected or a skip, the run was cancelled, or this is a dry run.
pub open spec fn passes(op: SortOperation, cancelled: bool, dry_run: bool) -> bool {
    !checked(op) || cancelled || dry_run
}

/// The index of the first operation from `from` that the run acts on, or
/// the number of operations.
pub open spec fn stop_index(ops: Seq<SortOperation>, from: int, cancelled: bool, dry_run: bool) -> int
    decreases ops.len() - from,
{
    if from < 0 || from >= ops.len() {
        ops.len() as int
    } else if !passes(ops[from], cancelled, dry_run) {
        from
    } else {
        stop_index(ops, from + 1, cancelled, dry_run)
    }
}

/// The text of an optional string.
pub open spec fn opt_view(o: Option<String>) -> Option<Seq<char>> {
    match o {
        Some(s) => Some(s@),
        None => None,
    }
}

/// Whether `new` is `old` with the given status and error text.
pub open spec fn with_status(new: SortOperation, old: SortOperation, status: OpStatus, error: Option<Seq<char>>) -> bool {
    &&& new.op_id == old.op_id
    &&& new.action == old.action
    &&& new.source == old.source
    &&& new.destination == old.destination
    &&& new.file_id == old.file_id
    &&& new.size_bytes == old.size_bytes
    &&& new.size_human == old.size_human
    &&& new.selected == old.selected
    &&& new.symlinks_to_update == old.symlinks_to_update
    &&& new.status == status
    &&& opt_view(new.error_message) == error
}

/// Whether `new` is `old` once the run passed over it: skipped when not
/// selected or a skip, skipped with a note when cancelled, completed in a
/// dry run.
pub open spec fn passed_over(new: SortOperation, old: SortOperation, cancelled: bool) -> bool {
    if !checked(old) {
        with_status(new, old, OpStatus::Skipped, opt_view(old.error_message))
    } else if cancelled {
        with_status(new, old, OpStatus::Skipped, Some("Execution cancelled by user"@))
    } else {
        with_status(new, old, OpStatus::Completed, opt_view(old.error_message))
    }
}

/// The dry-run report line of an operation.
pub open spec fn dry_run_msg(op: SortOperation) -> Seq<char> {
    "[DRY-RUN] Would move '"@ + op.source@ + "' -> '"@ + op.destination@ + "' ("@ + op.size_human@
        + "). Would update "@ + decimal(op.symlinks_to_update@.len()) + " symlinks."@
}

/// The dry-run report lines of the operations `from..to`.
pub open spec fn dry_msgs(ops: Seq<SortOperation>, from: int, to: int, cancelled: bool, dry_run: bool) -> Seq<Seq<char>>
    decreases to - from,
{
    if to <= from {
        Seq::empty()
    } else {
        let rest = dry_msgs(ops, from, to - 1, cancelled, dry_run);
        if dry_run && checked(ops[to - 1]) && !cancelled {
            rest.push(dry_run_msg(ops[to - 1]))
        } else {
            rest
        }
    }
}

/// Whether `n` is the note that copying operation `op` starts.
pub open spec fn copy_start_note(n: LogNote, op: SortOperation) -> bool {
    n matches LogNote::CopyStart { op_id, src, dst } && op_id@ == op.op_id@ && src@ == op.source@ && dst@ == op.destination@
}

/// Whether the run, from `old` and operations `ops`, passed over the
/// operations up to the next it acts on and asked to copy that one (or
/// finished): `new`/`new_ops` the state after, `action` and the notes added
/// after `prefix` what it asked for.
pub open spec fn scanned(
    new: PlanRun, new_ops: Seq<SortOperation>, new_log: Option<Seq<Seq<char>>>,
    old_next: int, old_msgs: Seq<Seq<char>>, ops: Seq<SortOperation>, old_log: Option<Seq<Seq<char>>>,
    cancelled: bool, dry_run: bool, action: RunAction, notes: Seq<LogNote>, prefix: Seq<LogNote>,
) -> bool {
    let j = stop_index(ops, old_next, cancelled, dry_run);
    let msgs = old_msgs + dry_msgs(ops, old_next, j, cancelled, dry_run);
    &&& new.dry_run == dry_run
    &&& new.next == j
    &&& new.messages@.map_values(|x: String| x@) == msgs
    &&& new_ops.len() == ops.len()
    &&& forall|k: int| 0 <= k < ops.len() && (k < old_next || k > j) ==> new_ops[k] == ops[k]
    &&& forall|k: int| old_next <= k < j ==> passed_over(#[trigger] new_ops[k], ops[k], cancelled)
    &&& if j < ops.len() {
        &&& with_status(new_ops[j], ops[j], OpStatus::InProgress, opt_view(ops[j].error_message))
        &&& new.stage == RunStage::Copying
        &&& action matches RunAction::Copy { src, dst } && src@ == ops[j].source@ && dst@ == ops[j].destination@
        &&& notes.len() == prefix.len() + 1 && notes.drop_last() == prefix && copy_start_note(notes.last(), ops[j])
        &&& new_log == old_log
    } else {
        &&& new.stage == RunStage::Finished
        &&& action is Finished
        &&& notes == prefix
        &&& new_log == if dry_run { Some(msgs) } else { old_log }
    }
}

/// The dry-run log of a plan, as text.
pub open spec fn log_view(l: Option<Vec<String>>) -> Option<Seq<Seq<char>>> {
    match l {
        Some(v) => Some(v@.map_values(|x: String| x@)),
        None => None,
    }
}

/// Whether `event` is one the run can take in `stage`.
pub open spec fn fits_stage(stage: RunStage, event: RunEvent) -> bool {
    match stage {
        RunStage::Idle => event is Start,
        RunStage::Copying => event is Copied || event is CopyFailed,
        RunStage::Verifying => event is Hashed || event is HashFailed,
        RunStage::Deleting => event is Deleted || event is DeleteFailed,
        RunStage::Relinking => event is Relinked,
        RunStage::Finished => false,
    }
}

/// Whether the run's state fits its operations: between operations the
/// next index is at most their number; while one is under way it is a real
/// run and the index is that of an operation; once finished all were seen.
pub open spec fn run_wf(run: PlanRun, ops: Seq<SortOperation>) -> bool {
    match run.stage {
        RunStage::Idle => run.next <= ops.len(),
        RunStage::Finished => run.next == ops.len(),
        _ => run.next < ops.len() && !run.dry_run,
    }
}

/// Whether `n` is the note that copying `op` ended after `elapsed_ms`.
pub open spec fn copy_done_note(n: LogNote, op: SortOperation, elapsed_ms: u64) -> bool {
    n matches LogNote::CopyDone { op_id, bytes, elapsed_ms: e } && op_id@ == op.op_id@ && bytes == op.size_bytes && e == elapsed_ms
}

/// Whether `n` is the note that verifying `op` starts.
pub open spec fn verify_start_note(n: LogNote, op: SortOperation) -> bool {
    n matches LogNote::VerifyStart { op_id } && op_id@ == op.op_id@
}

/// Whether `n` is the note that `op` was verified with checksum `hash`.
pub open spec fn verify_ok_note(n: LogNote, op: SortOperation, hash: Seq<char>) -> bool {
    n matches LogNote::VerifyOk { op_id, hash: h } && op_id@ == op.op_id@ && h@ == hash
}

/// Whether `n` is the note that the source of `op` is being deleted.
pub open spec fn delete_note(n: LogNote, op: SortOperation) -> bool {
    n matches LogNote::DeleteOriginal { op_id } && op_id@ == op.op_id@
}

/// Whether `n` is the note that `link` is re-pointed to the destination of `op`.
pub open spec fn relink_note(n: LogNote, op: SortOperation, link: Seq<char>) -> bool {
    n matches LogNote::SymlinkUpdate { op_id, path, new_target } && op_id@ == op.op_id@ && path@ == link
        && new_target@ == op.destination@
}

/// Whether `n` is the note that `op` completed with checksum `hash`.
pub open spec fn complete_note(n: LogNote, op: SortOperation, hash: Seq<char>) -> bool {
    n matches LogNote::Complete { op_id, hash: Some(h) } && op_id@ == op.op_id@ && h@ == hash
}

/// Whether the run ended operation `k` with `status` and `error`, then
/// scanned on from the next operation, the notes `prefix` first.
pub open spec fn ended_then_scanned(
    new: PlanRun, new_ops: Seq<SortOperation>, new_log: Option<Seq<Seq<char>>>,
    old: PlanRun, ops: Seq<SortOperation>, old_log: Option<Seq<Seq<char>>>,
    cancelled: bool, status: OpStatus, error: Option<Seq<char>>, r: RunStep, prefix: Seq<LogNote>,
) -> bool {
    let k = old.next as int;
    exists|mid: Seq<SortOperation>| {
        &&& mid.len() == ops.len()
        &&& with_status(#[trigger] mid[k], ops[k], status, error)
        &&& (forall|m: int| 0 <= m < ops.len() && m != k ==> mid[m] == ops[m])
        &&& scanned(new, new_ops, new_log, k + 1, old.messages@.map_values(|x: String| x@), mid, old_log,
            cancelled, old.dry_run, r.action, r.notes@, prefix)
    }
}

/// Whether `r`, `new`, `new_ops` and `new_log` are what the run does on
/// `event` from `old` with operations `ops`.
pub open spec fn stepped(
    new: PlanRun, new_ops: Seq<SortOperation>, new_log: Option<Seq<Seq<char>>>,
    old: PlanRun, ops: Seq<SortOperation>, old_log: Option<Seq<Seq<char>>>,
    event: RunEvent, cancelled: bool, r: RunStep,
) -> bool {
    let k = old.next as int;
    let op = ops[k];
    let same = new_ops == ops && new_log == old_log && new.next == old.next && new.dry_run == old.dry_run
        && new.messages@ == old.messages@;
    match event {
        RunEvent::Start => scanned(new, new_ops, new_log, k, old.messages@.map_values(|x: String| x@), ops, old_log,
            cancelled, old.dry_run, r.action, r.notes@, Seq::empty()),
        RunEvent::Copied { elapsed_ms } => {
            &&& same
            &&& new.stage == RunStage::Verifying
            &&& r.action matches RunAction::Verify { src, dst } && src@ == op.source@ && dst@ == op.destination@
            &&& r.notes@.len() == 2 && copy_done_note(r.notes@[0], op, elapsed_ms) && verify_start_note(r.notes@[1], op)
        },
        RunEvent::CopyFailed { error } => ended_then_scanned(new, new_ops, new_log, old, ops, old_log, cancelled,
            OpStatus::Failed, Some("Copy error: "@ + error@), r, Seq::empty()),
        RunEvent::Hashed { source_hash, dest_hash } => if eq_ignore_ascii_case(source_hash@, dest_hash@) {
            &&& same
            &&& new.stage == RunStage::Deleting
            &&& new.hash@ == source_hash@
            &&& r.action matches RunAction::DeleteSource { src } && src@ == op.source@
            &&& r.notes@.len() == 2 && verify_ok_note(r.notes@[0], op, source_hash@) && delete_note(r.notes@[1], op)
        } else {
            ended_then_scanned(new, new_ops, new_log, old, ops, old_log, cancelled, OpStatus::Failed,
                Some("Verification error: "@ + verification_message(VerificationError::HashMismatch { source_hash, dest_hash })),
                r, Seq::empty())
        },
        RunEvent::HashFailed { error } => ended_then_scanned(new, new_ops, new_log, old, ops, old_log, cancelled,
            OpStatus::Failed, Some("Verification error: "@ + verification_message(VerificationError::Io(error))), r, Seq::empty()),
        RunEvent::Deleted => {
            &&& same
            &&& new.stage == RunStage::Relinking
            &&& r.action matches RunAction::UpdateSymlinks { src, dst, links } && src@ == op.source@
                && dst@ == op.destination@ && links@ == op.symlinks_to_update@
            &&& r.notes@.len() == op.symlinks_to_update@.len()
            &&& forall|i: int| 0 <= i < r.notes@.len() ==> relink_note(#[trigger] r.notes@[i], op, op.symlinks_to_update@[i]@)
        },
        RunEvent::DeleteFailed { error } => ended_then_scanned(new, new_ops, new_log, old, ops, old_log, cancelled,
            OpStatus::Failed, Some("Delete original error: "@ + error@), r, Seq::empty()),
        RunEvent::Relinked => exists|n0: LogNote| complete_note(n0, op, old.hash@) && ended_then_scanned(new, new_ops, new_log,
            old, ops, old_log, cancelled, OpStatus::Completed, opt_view(op.error_message), r, seq![n0]),
    }
}

/// Replaces the status and error text of operation `k`.
fn set_status(ops: &mut Vec<SortOperation>, k: usize, status: OpStatus, error: Option<String>)
    requires
        k < old(ops)@.len(),
    ensures
        final(ops)@.len() == old(ops)@.len(),
        with_status(final(ops)@[k as int], old(ops)@[k as int], status, opt_view(error)),
        forall|m: int| 0 <= m < old(ops)@.len() && m != k ==> final(ops)@[m] == old(ops)@[m],
{
    let mut op = ops.remove(k);
    op.status = status;
    op.error_message = error;
    ops.insert(k, op);
}

/// The dry-run report line of `op`.
fn dry_run_line(op: &SortOperation) -> (r: String)
    ensures
        r@ == dry_run_msg(*op),
{
    let mut m: Vec<char> = Vec::new();
    extend_str(&mut m, "[DRY-RUN] Would move '");
    extend_str(&mut m, op.source.as_str());
    extend_str(&mut m, "' -> '");
    extend_str(&mut m, op.destination.as_str());
    extend_str(&mut m, "' (");
    extend_str(&mut m, op.size_human.as_str());
    extend_str(&mut m, "). Would update ");
    extend_chars(&mut m, decimal_chars(op.symlinks_to_update.len() as u128).as_slice());
    extend_str(&mut m, " symlinks.");
    string_of(m.as_slice())
}

/// A copy of an optional string.
fn clone_opt(o: &Option<String>) -> (r: Option<String>)
    ensures
        r == *o,
{
    match o {
        Some(s) => Some(s.clone()),
        None => None,
    }
}

/// A copy of a list of strings.
fn copy_list(v: &Vec<String>) -> (r: Vec<String>)
    ensures
        r@ == v@,
{
    let mut out: Vec<String> = Vec::new();
    let mut i: usize = 0;
    while i < v.len()
        invariant
            i <= v@.len(),
            out@ == v@.take(i as int),
        decreases v@.len() - i,
    {
        out.push(v[i].clone());
        proof {
            assert(v@.take(i + 1) =~= v@.take(i as int).push(v@[i as int]));
        }
        i = i + 1;
    }
    proof {
        assert(v@.take(v@.len() as int) =~= v@);
    }
    out
}

impl PlanRun {
    /// A run about to start, a dry run when `dry_run`.
    pub fn new(dry_run: bool) -> (r: PlanRun)
        ensures
            r.next == 0,
            r.stage == RunStage::Idle,
            r.dry_run == dry_run,
            r.messages@.len() == 0,
    {
        PlanRun { next: 0, stage: RunStage::Idle, dry_run, messages: Vec::new(), hash: String::new() }
    }

    /// Passes over the operations from `self.next` up to the next one the
    /// run acts on, and asks to copy it; finishes when there is none.
    fn scan(&mut self, plan: &mut SortPlan, cancelled: bool, notes: Vec<LogNote>) -> (r: RunStep)
        requires
            old(self).next <= old(plan).operations@.len(),
        ensures
            scanned(*final(self), final(plan).operations@, log_view(final(plan).dry_run_log), old(self).next as int,
                old(self).messages@.map_values(|x: String| x@), old(plan).operations@, log_view(old(plan).dry_run_log),
                cancelled, old(self).dry_run, r.action, r.notes@, notes@),
            final(self).next <= old(plan).operations@.len(),
            final(self).hash == old(self).hash,
            final(plan).version == old(plan).version,
            final(plan).plan_timestamp == old(plan).plan_timestamp,
            final(plan).target_drive == old(plan).target_drive,
            final(plan).target_structure == old(plan).target_structure,
            final(plan).space_analysis == old(plan).space_analysis,
    {
        let ghost ops0 = plan.operations@;
        let ghost start = self.next as int;
        let ghost msgs0 = self.messages@.map_values(|x: String| x@);
        let dry_run = self.dry_run;
        let mut notes = notes;
        let ghost notes0 = notes@;
        let n = plan.operations.len();
        while self.next < plan.operations.len()
            invariant
                0 <= start <= self.next <= ops0.len(),
                n == ops0.len(),
                self.dry_run == dry_run,
                plan.operations@.len() == ops0.len(),
                stop_index(ops0, start, cancelled, dry_run) == stop_index(ops0, self.next as int, cancelled, dry_run),
                forall|k: int| 0 <= k < ops0.len() && (k < start || k >= self.next) ==> plan.operations@[k] == ops0[k],
                forall|k: int| start <= k < self.next ==> passed_over(#[trigger] plan.operations@[k], ops0[k], cancelled),
                self.messages@.map_values(|x: String| x@) == msgs0 + dry_msgs(ops0, start, self.next as int, cancelled, dry_run),
                plan.dry_run_log == old(plan).dry_run_log,
                notes@ == notes0,
                self.hash == old(self).hash,
                plan.version == old(plan).version,
                plan.plan_timestamp == old(plan).plan_timestamp,
                plan.target_drive == old(plan).target_drive,
                plan.target_structure == old(plan).target_structure,
                plan.space_analysis == old(plan).space_analysis,
            ensures
                self.next < ops0.len() ==> !passes(ops0[self.next as int], cancelled, dry_run),
            decreases ops0.len() - self.next,
        {
            let k = self.next;
            let ghost before = plan.operations@;
            let sel = plan.operations[k].selected;
            let is_skip = plan.operations[k].action == PlanAction::Skip;
            proof {
                assert(plan.operations@[k as int] == ops0[k as int]);
            }
            if !sel || is_skip {
                let e = clone_opt(&plan.operations[k].error_message);
                set_status(&mut plan.operations, k, OpStatus::Skipped, e);
            } else if cancelled {
                let e = string_of(chars_of("Execution cancelled by user").as_slice());
                set_status(&mut plan.operations, k, OpStatus::Skipped, Some(e));
            } else if dry_run {
                let line = dry_run_line(&plan.operations[k]);
                let ghost om = self.messages@;
                self.messages.push(line);
                proof {
                    assert(self.messages@.map_values(|x: String| x@) =~= om.map_values(|x: String| x@).push(dry_run_msg(ops0[k as int])));
                }
                let e = clone_opt(&plan.operations[k].error_message);
                set_status(&mut plan.operations, k, OpStatus::Completed, e);
            } else {
                proof {
                    assert(!passes(ops0[k as int], cancelled, dry_run));
                }
                break;
            }
            proof {
                assert(passed_over(plan.operations@[k as int], ops0[k as int], cancelled));
                assert forall|m: int| start <= m < k implies passed_over(#[trigger] plan.operations@[m], ops0[m], cancelled) by {
                    assert(passed_over(before[m], ops0[m], cancelled));
                    assert(plan.operations@[m] == before[m]);
                }
                assert(passes(ops0[k as int], cancelled, dry_run));
                assert(stop_index(ops0, k as int, cancelled, dry_run) == stop_index(ops0, k + 1, cancelled, dry_run));
                assert(dry_msgs(ops0, start, k + 1, cancelled, dry_run) == if dry_run && checked(ops0[k as int]) && !cancelled {
                    dry_msgs(ops0, start, k as int, cancelled, dry_run).push(dry_run_msg(ops0[k as int]))
                } else {
                    dry_msgs(ops0, start, k as int, cancelled, dry_run)
                });
                if !(dry_run && checked(ops0[k as int]) && !cancelled) {
                    assert(self.messages@.map_values(|x: String| x@) =~= msgs0 + dry_msgs(ops0, start, k + 1, cancelled, dry_run));
                } else {
                    assert(self.messages@.map_values(|x: String| x@) =~= msgs0 + dry_msgs(ops0, start, k + 1, cancelled, dry_run));
                }
            }
            self.next = k + 1;
        }
        proof {
            if self.next < ops0.len() {
                assert(stop_index(ops0, self.next as int, cancelled, dry_run) == self.next);
            } else {
                assert(stop_index(ops0, self.next as int, cancelled, dry_run) == ops0.len());
            }
        }
        if self.next < plan.operations.len() {
            let k = self.next;
            let e = clone_opt(&plan.operations[k].error_message);
            set_status(&mut plan.operations, k, OpStatus::InProgress, e);
            let src = plan.operations[k].source.clone();
            let dst = plan.operations[k].destination.clone();
            let ghost pn = notes@;
            notes.push(LogNote::CopyStart { op_id: plan.operations[k].op_id.clone(), src: src.clone(), dst: dst.clone() });
            self.stage = RunStage::Copying;
            proof {
                assert(notes@.drop_last() =~= pn);
                assert(plan.operations@[k as int].op_id == ops0[k as int].op_id);
            }
            RunStep { action: RunAction::Copy { src, dst }, notes }
        } else {
            self.stage = RunStage::Finished;
            if dry_run {
                plan.dry_run_log = Some(copy_list(&self.messages));
            }
            RunStep { action: RunAction::Finished, notes }
        }
    }
}

/// Whether `event` reports a source and a copy with the same checksum.
pub open spec fn hashes_match(event: RunEvent) -> bool {
    &&& event matches RunEvent::Hashed { source_hash, dest_hash }
    &&& eq_ignore_ascii_case(source_hash@, dest_hash@)
}

/// In a dry run the run passes over every operation.
proof fn lemma_dry_run_passes_all(ops: Seq<SortOperation>, from: int, cancelled: bool)
    requires
        0 <= from,
    ensures
        stop_index(ops, from, cancelled, true) == ops.len(),
    decreases ops.len() - from,
{
    if from < ops.len() {
        lemma_dry_run_passes_all(ops, from + 1, cancelled);
    }
}

/// The text `prefix` followed by `rest`.
fn joined(prefix: &str, rest: &str) -> (r: String)
    ensures
        r@ == prefix@ + rest@,
{
    let mut s = String::from_str(prefix);
    s.append(rest);
    s
}

impl PlanRun {
    /// Ends the operation under way with `status` and `error`, and moves on.
    fn end_current(&mut self, plan: &mut SortPlan, status: OpStatus, error: Option<String>)
        requires
            old(self).next < old(plan).operations@.len(),
        ensures
            final(self).next == old(self).next + 1,
            final(self).dry_run == old(self).dry_run,
            final(self).messages == old(self).messages,
            final(self).hash == old(self).hash,
            final(plan).operations@.len() == old(plan).operations@.len(),
            with_status(final(plan).operations@[old(self).next as int], old(plan).operations@[old(self).next as int], status, opt_view(error)),
            forall|m: int| 0 <= m < old(plan).operations@.len() && m != old(self).next ==> final(plan).operations@[m] == old(plan).operations@[m],
            final(plan).dry_run_log == old(plan).dry_run_log,
            final(plan).version == old(plan).version,
            final(plan).plan_timestamp == old(plan).plan_timestamp,
            final(plan).target_drive == old(plan).target_drive,
            final(plan).target_structure == old(plan).target_structure,
            final(plan).space_analysis == old(plan).space_analysis,
    {
        set_status(&mut plan.operations, self.next, status, error);
        let n = plan.operations.len();
        assert(self.next < n);
        self.next = self.next + 1;
        self.stage = RunStage::Idle;
    }

    /// Takes the caller's report of the last action (or `Start`) and decides
    /// what comes next; see `stepped`. The source of an operation is only
    /// ever deleted right after its copy was found to have the same
    /// checksum, and a dry run never asks for anything to be done on disk.
    pub fn step(&mut self, plan: &mut SortPlan, event: RunEvent, cancelled: bool) -> (r: RunStep)
        requires
            run_wf(*old(self), old(plan).operations@),
            fits_stage(old(self).stage, event),
        ensures
            run_wf(*final(self), final(plan).operations@),
            stepped(*final(self), final(plan).operations@, log_view(final(plan).dry_run_log), *old(self),
                old(plan).operations@, log_view(old(plan).dry_run_log), event, cancelled, r),
            r.action is DeleteSource <==> (old(self).stage == RunStage::Verifying && hashes_match(event)),
            old(self).dry_run ==> r.action is Finished,
            final(plan).version == old(plan).version,
            final(plan).plan_timestamp == old(plan).plan_timestamp,
            final(plan).target_drive == old(plan).target_drive,
            final(plan).target_structure == old(plan).target_structure,
            final(plan).space_analysis == old(plan).space_analysis,
    {
        let ghost o = *self;
        let ghost ops0 = plan.operations@;
        let ghost k = self.next as int;
        match event {
            RunEvent::Start => {
                let r = self.scan(plan, cancelled, Vec::new());
                proof {
                    if o.dry_run {
                        lemma_dry_run_passes_all(ops0, k, cancelled);
                    }
                }
                r
            },
            RunEvent::Copied { elapsed_ms } => {
                let i = self.next;
                let op = &plan.operations[i];
                let notes = vec![
                    LogNote::CopyDone { op_id: op.op_id.clone(), bytes: op.size_bytes, elapsed_ms },
                    LogNote::VerifyStart { op_id: op.op_id.clone() },
                ];
                let action = RunAction::Verify { src: op.source.clone(), dst: op.destination.clone() };
                self.stage = RunStage::Verifying;
                RunStep { action, notes }
            },
            RunEvent::CopyFailed { error } => {
                let msg = joined("Copy error: ", error.as_str());
                self.end_current(plan, OpStatus::Failed, Some(msg));
                let ghost mid = plan.operations@;
                let r = self.scan(plan, cancelled, Vec::new());
                proof {
                    assert(with_status(mid[k], ops0[k], OpStatus::Failed, Some("Copy error: "@ + error@)));
                }
                r
            },
            RunEvent::Hashed { source_hash, dest_hash } => {
                match verify_copy(source_hash.as_str(), dest_hash.as_str()) {
                    Ok(h) => {
                        let i = self.next;
                        let op = &plan.operations[i];
                        let notes = vec![
                            LogNote::VerifyOk { op_id: op.op_id.clone(), hash: h.clone() },
                            LogNote::DeleteOriginal { op_id: op.op_id.clone() },
                        ];
                        let action = RunAction::DeleteSource { src: op.source.clone() };
                        self.hash = h;
                        self.stage = RunStage::Deleting;
                        RunStep { action, notes }
                    },
                    Err(e) => {
                        let msg = joined("Verification error: ", e.message().as_str());
                        self.end_current(plan, OpStatus::Failed, Some(msg));
                        let ghost mid = plan.operations@;
                        let r = self.scan(plan, cancelled, Vec::new());
                        proof {
                            assert(with_status(mid[k], ops0[k], OpStatus::Failed, opt_view(Some(msg))));
                        }
                        r
                    },
                }
            },
            RunEvent::HashFailed { error } => {
                let e = VerificationError::Io(error);
                let msg = joined("Verification error: ", e.message().as_str());
                self.end_current(plan, OpStatus::Failed, Some(msg));
                let ghost mid = plan.operations@;
                let r = self.scan(plan, cancelled, Vec::new());
                proof {
                    assert(with_status(mid[k], ops0[k], OpStatus::Failed, opt_view(Some(msg))));
                }
                r
            },
            RunEvent::Deleted => {
                let i = self.next;
                let op = &plan.operations[i];
                let mut notes: Vec<LogNote> = Vec::new();
                let mut j: usize = 0;
                while j < op.symlinks_to_update.len()
                    invariant
                        j <= op.symlinks_to_update@.len(),
                        notes@.len() == j,
                        forall|m: int| 0 <= m < j ==> relink_note(#[trigger] notes@[m], *op, op.symlinks_to_update@[m]@),
                    decreases op.symlinks_to_update@.len() - j,
                {
                    notes.push(LogNote::SymlinkUpdate {
                        op_id: op.op_id.clone(),
                        path: op.symlinks_to_update[j].clone(),
                        new_target: op.destination.clone(),
                    });
                    j = j + 1;
                }
                let action = RunAction::UpdateSymlinks {
                    src: op.source.clone(),
                    dst: op.destination.clone(),
                    links: copy_list(&op.symlinks_to_update),
                };
                self.stage = RunStage::Relinking;
                RunStep { action, notes }
            },
            RunEvent::DeleteFailed { error } => {
                let msg = joined("Delete original error: ", error.as_str());
                self.end_current(plan, OpStatus::Failed, Some(msg));
                let ghost mid = plan.operations@;
                let r = self.scan(plan, cancelled, Vec::new());
                proof {
                    assert(with_status(mid[k], ops0[k], OpStatus::Failed, Some("Delete original error: "@ + error@)));
                }
                r
            },
            RunEvent::Relinked => {
                let i = self.next;
                let n0 = LogNote::Complete { op_id: plan.operations[i].op_id.clone(), hash: Some(self.hash.clone()) };
                let notes = vec![n0];
                let e = clone_opt(&plan.operations[i].error_message);
                self.end_current(plan, OpStatus::Completed, e);
                let ghost mid = plan.operations@;
                let r = self.scan(plan, cancelled, notes);
                proof {
                    assert(complete_note(notes@[0], ops0[k], o.hash@));
                    assert(with_status(mid[k], ops0[k], OpStatus::Completed, opt_view(ops0[k].error_message)));
                    assert(notes@ =~= seq![notes@[0]]);
                }
                r
            },
        }
    }
}

/// How a run ended: operations completed, failed and otherwise (skipped or
/// not run), and the bytes of the completed ones.
#[derive(Debug, Clone, Copy, PartialEq, Eq, Structural)]
pub struct RunSummary {
    pub completed: usize,
    pub failed: usize,
    pub skipped: usize,
    pub moved_bytes: u64,
}

/// The number of operations with status `s`.
pub open spec fn status_count(ops: Seq<SortOperation>, s: OpStatus) -> nat
    decreases ops.len(),
{
    if ops.len() == 0 {
        0
    } else {
        status_count(ops.drop_last(), s) + if ops.last().status == s { 1nat } else { 0 }
    }
}

/// The bytes of the completed operations.
pub open spec fn completed_bytes(ops: Seq<SortOperation>) -> nat
    decreases ops.len(),
{
    if ops.len() == 0 {
        0
    } else {
        completed_bytes(ops.drop_last()) + if ops.last().status == OpStatus::Completed { ops.last().size_bytes as nat } else { 0 }
    }
}

proof fn lemma_status_counts(ops: Seq<SortOperation>)
    ensures
        status_count(ops, OpStatus::Completed) + status_count(ops, OpStatus::Failed) <= ops.len(),
    decreases ops.len(),
{
    if ops.len() > 0 {
        lemma_status_counts(ops.drop_last());
    }
}

proof fn lemma_completed_bytes_prefix(ops: Seq<SortOperation>, n: int)
    requires
        0 <= n <= ops.len(),
    ensures
        completed_bytes(ops.take(n)) <= completed_bytes(ops),
    decreases ops.len() - n,
{
    if n < ops.len() {
        lemma_completed_bytes_prefix(ops, n + 1);
        assert(ops.take(n + 1).drop_last() =~= ops.take(n));
    } else {
        assert(ops.take(n) =~= ops);
    }
}

/// The summary of the operations of a run.
pub fn summarize_run(ops: &[SortOperation]) -> (r: RunSummary)
    requires
        completed_bytes(ops@) <= u64::MAX,
    ensures
        r.completed == status_count(ops@, OpStatus::Completed),
        r.failed == status_count(ops@, OpStatus::Failed),
        r.skipped == ops@.len() - status_count(ops@, OpStatus::Completed) - status_count(ops@, OpStatus::Failed),
        r.moved_bytes == completed_bytes(ops@),
{
    let mut completed: usize = 0;
    let mut failed: usize = 0;
    let mut skipped: usize = 0;
    let mut moved: u64 = 0;
    let mut i: usize = 0;
    while i < ops.len()
        invariant
            i <= ops@.len(),
            completed_bytes(ops@) <= u64::MAX,
            completed == status_count(ops@.take(i as int), OpStatus::Completed),
            failed == status_count(ops@.take(i as int), OpStatus::Failed),
            skipped == i - completed - failed,
            completed + failed <= i,
            moved == completed_bytes(ops@.take(i as int)),
        decreases ops@.len() - i,
    {
        proof {
            let t = ops@.take(i + 1);
            assert(t.drop_last() =~= ops@.take(i as int));
            assert(t.last() == ops@[i as int]);
            lemma_completed_bytes_prefix(ops@, i + 1);
        }
        match ops[i].status {
            OpStatus::Completed => {
                completed = completed + 1;
                moved = moved + ops[i].size_bytes;
            },
            OpStatus::Failed => {
                failed = failed + 1;
            },
            _ => {
                skipped = skipped + 1;
            },
        }
        i = i + 1;
    }
    proof {
        assert(ops@.take(ops@.len() as int) =~= ops@);
    }
    RunSummary { completed, failed, skipped, moved_bytes: moved }
}

/// Whether the bytes of the completed operations add up within 64 bits.
pub fn summary_fits(ops: &[SortOperation]) -> (r: bool)
    ensures
        r == (completed_bytes(ops@) <= u64::MAX),
{
    let mut total: u64 = 0;
    let mut i: usize = 0;
    while i < ops.len()
        invariant
            i <= ops@.len(),
            total == completed_bytes(ops@.take(i as int)),
        decreases ops@.len() - i,
    {
        proof {
            let t = ops@.take(i + 1);
            assert(t.drop_last() =~= ops@.take(i as int));
            assert(t.last() == ops@[i as int]);
        }
        if ops[i].status == OpStatus::Completed {
            match total.checked_add(ops[i].size_bytes) {
                Some(t) => { total = t; },
                None => {
                    proof {
                        lemma_completed_bytes_prefix(ops@, i + 1);
                    }
                    return false;
                },
            }
        }
        i = i + 1;
    }
    proof {
        assert(ops@.take(ops@.len() as int) =~= ops@);
    }
    true
}

} // verus!
