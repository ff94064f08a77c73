//! Checks of a sort plan against what is on disk before it is run: the
//! target drive, the capacity margin, and each selected operation's source
//! and destination.

use vstd::prelude::*;
use super::sort_plan::{PlanAction, SortOperation, SortPlan};
use crate::text::{chars_eq, chars_of, extend_chars, extend_str, string_of};
use crate::utils::human_size::{decimal, decimal_chars, format_bytes, format_bytes_spec};

verus! {

/// The outcome of checking a plan: valid exactly when there is no error.
#[derive(Debug, Clone, PartialEq, Eq)]
pub struct ValidationResult {
    pub is_valid: bool,
    pub errors: Vec<String>,
    pub warnings: Vec<String>,
}

impl ValidationResult {
    /// A valid result with no errors and no warnings.
    pub fn ok() -> (r: ValidationResult)
        ensures
            r.is_valid,
            r.errors@.len() == 0,
            r.warnings@.len() == 0,
    {
        ValidationResult { is_valid: true, errors: Vec::new(), warnings: Vec::new() }
    }
}

/// What is on disk for one operation: whether its source exists, the
/// source's length when its metadata could be read, and whether its
/// destination exists.
#[derive(Debug, Clone, Copy, PartialEq, Eq, Structural)]
pub struct SourceFacts {
    pub source_exists: bool,
    pub source_len: Option<u64>,
    pub destination_exists: bool,
}

/// Whether an operation is checked: it is selected and not a skip.
pub open spec fn checked(op: SortOperation) -> bool {
    op.selected && op.action != PlanAction::Skip
}

pub open spec fn target_missing_msg(t: Seq<char>) -> Seq<char> {
    "Target drive '"@ + t + "' does not exist or is not mounted"@
}

pub open spec fn no_space_msg(t: Seq<char>, need: nat, free: nat) -> Seq<char> {
    "Insufficient disk space on target drive '"@ + t + "': requires "@ + format_bytes_spec(need)
        + ", available "@ + format_bytes_spec(free)
}

pub open spec fn missing_source_msg(src: Seq<char>) -> Seq<char> {
    "Source file does not exist: "@ + src
}

pub open spec fn metadata_msg(src: Seq<char>) -> Seq<char> {
    "Failed to read metadata for source file: "@ + src
}

pub open spec fn size_changed_msg(src: Seq<char>, expected: nat, found: nat) -> Seq<char> {
    "Source file '"@ + src + "' size changed on disk (expected "@ + decimal(expected) + ", found "@
        + decimal(found) + ")"@
}

pub open spec fn destination_exists_msg(dst: Seq<char>) -> Seq<char> {
    "Destination file already exists and will be verified/handled: "@ + dst
}

/// The errors found for one operation.
pub open spec fn op_errors(op: SortOperation, f: SourceFacts) -> Seq<Seq<char>> {
    if !checked(op) {
        Seq::empty()
    } else if !f.source_exists {
        seq![missing_source_msg(op.source@)]
    } else if f.source_len is None {
        seq![metadata_msg(op.source@)]
    } else {
        Seq::empty()
    }
}

/// The warnings found for one operation: its source's size changed since
/// the scan, then its destination already exists (and differs from it).
pub open spec fn op_warnings(op: SortOperation, f: SourceFacts) -> Seq<Seq<char>> {
    if !checked(op) || !f.source_exists {
        Seq::empty()
    } else {
        let size = match f.source_len {
            Some(len) => if len != op.size_bytes {
                seq![size_changed_msg(op.source@, op.size_bytes as nat, len as nat)]
            } else {
                Seq::empty()
            },
            None => Seq::empty(),
        };
        let dest = if f.destination_exists && op.source@ != op.destination@ {
            seq![destination_exists_msg(op.destination@)]
        } else {
            Seq::empty()
        };
        size + dest
    }
}

/// The errors of the operations, in order.
pub open spec fn ops_errors(ops: Seq<SortOperation>, facts: Seq<SourceFacts>) -> Seq<Seq<char>>
    decreases ops.len(),
{
    if ops.len() == 0 {
        Seq::empty()
    } else {
        ops_errors(ops.drop_last(), facts) + op_errors(ops.last(), facts[ops.len() - 1])
    }
}

/// The warnings of the operations, in order.
pub open spec fn ops_warnings(ops: Seq<SortOperation>, facts: Seq<SourceFacts>) -> Seq<Seq<char>>
    decreases ops.len(),
{
    if ops.len() == 0 {
        Seq::empty()
    } else {
        ops_warnings(ops.drop_last(), facts) + op_warnings(ops.last(), facts[ops.len() - 1])
    }
}

/// The errors of a plan: a missing target drive, a plan that does not fit,
/// then those of its operations.
pub open spec fn plan_errors(plan: SortPlan, target_exists: bool, facts: Seq<SourceFacts>) -> Seq<Seq<char>> {
    let t = if target_exists { Seq::empty() } else { seq![target_missing_msg(plan.target_drive@)] };
    let s = if plan.space_analysis.fits {
        Seq::empty()
    } else {
        seq![no_space_msg(plan.target_drive@, plan.space_analysis.total_move_size as nat,
            plan.space_analysis.target_drive_free_before as nat)]
    };
    t + s + ops_errors(plan.operations@, facts)
}

/// An operation that is not selected, or is a skip, contributes nothing:
/// whatever the disk facts say of it, it has no error and no warning.
pub proof fn lemma_unchecked_op_silent(op: SortOperation, f: SourceFacts)
    requires
        !op.selected || op.action == PlanAction::Skip,
    ensures
        op_errors(op, f).len() == 0,
        op_warnings(op, f).len() == 0,
{
}

/// Changing the disk facts of an operation that is not selected, or is a
/// skip, changes neither the errors nor the warnings of the operations.
pub proof fn lemma_unchecked_facts_irrelevant(ops: Seq<SortOperation>, facts: Seq<SourceFacts>, facts2: Seq<SourceFacts>, i: int)
    requires
        ops.len() <= facts.len(),
        facts.len() == facts2.len(),
        0 <= i < facts.len(),
        i < ops.len() ==> (!ops[i].selected || ops[i].action == PlanAction::Skip),
        forall|j: int| 0 <= j < facts.len() && j != i ==> facts[j] == facts2[j],
    ensures
        ops_errors(ops, facts) == ops_errors(ops, facts2),
        ops_warnings(ops, facts) == ops_warnings(ops, facts2),
    decreases ops.len(),
{
    if ops.len() > 0 {
        let d = ops.drop_last();
        assert(i < d.len() ==> d[i] == ops[i]);
        lemma_unchecked_facts_irrelevant(d, facts, facts2, i);
        let k = ops.len() - 1;
        if k == i {
            lemma_unchecked_op_silent(ops[k], facts[k]);
            lemma_unchecked_op_silent(ops[k], facts2[k]);
            assert(op_errors(ops[k], facts[k]) =~= op_errors(ops[k], facts2[k]));
            assert(op_warnings(ops[k], facts[k]) =~= op_warnings(ops[k], facts2[k]));
        }
    }
}

/// The validation of a plan does not depend on the disk facts of its
/// operations that are not selected or are skips.
pub proof fn lemma_unchecked_ops_ignored(plan: SortPlan, target_exists: bool, facts: Seq<SourceFacts>, facts2: Seq<SourceFacts>, i: int)
    requires
        facts.len() == plan.operations@.len(),
        facts2.len() == facts.len(),
        0 <= i < facts.len(),
        !plan.operations@[i].selected || plan.operations@[i].action == PlanAction::Skip,
        forall|j: int| 0 <= j < facts.len() && j != i ==> facts[j] == facts2[j],
    ensures
        plan_errors(plan, target_exists, facts) == plan_errors(plan, target_exists, facts2),
        ops_warnings(plan.operations@, facts) == ops_warnings(plan.operations@, facts2),
{
    lemma_unchecked_facts_irrelevant(plan.operations@, facts, facts2, i);
}

/// Appends the text of `cs` to `out` as a new string.
fn push_text(out: &mut Vec<String>, cs: &Vec<char>)
    ensures
        final(out)@.map_values(|x: String| x@) == old(out)@.map_values(|x: String| x@).push(cs@),
{
    let ghost o = out@;
    out.push(string_of(cs.as_slice()));
    proof {
        assert(out@.map_values(|x: String| x@) =~= o.map_values(|x: String| x@).push(cs@));
    }
}

/// Checks `plan` against what is on disk: `target_exists` tells whether the
/// target drive exists and `facts[i]` what is on disk for operation `i`.
pub fn validate_plan_with(plan: &SortPlan, target_exists: bool, facts: &[SourceFacts]) -> (r: ValidationResult)
    requires
        facts@.len() == plan.operations@.len(),
    ensures
        r.errors@.map_values(|x: String| x@) == plan_errors(*plan, target_exists, facts@),
        r.warnings@.map_values(|x: String| x@) == ops_warnings(plan.operations@, facts@),
        r.is_valid == (plan_errors(*plan, target_exists, facts@).len() == 0),
{
    let mut errors: Vec<String> = Vec::new();
    let mut warnings: Vec<String> = Vec::new();
    let t = chars_of(plan.target_drive.as_str());
    if !target_exists {
        let mut m: Vec<char> = Vec::new();
        extend_str(&mut m, "Target drive '");
        extend_chars(&mut m, t.as_slice());
        extend_str(&mut m, "' does not exist or is not mounted");
        push_text(&mut errors, &m);
    }
    if !plan.space_analysis.fits {
        let mut m: Vec<char> = Vec::new();
        extend_str(&mut m, "Insufficient disk space on target drive '");
        extend_chars(&mut m, t.as_slice());
        extend_str(&mut m, "': requires ");
        extend_str(&mut m, format_bytes(plan.space_analysis.total_move_size).as_str());
        extend_str(&mut m, ", available ");
        extend_str(&mut m, format_bytes(plan.space_analysis.target_drive_free_before).as_str());
        push_text(&mut errors, &m);
    }
    let ghost head = errors@.map_values(|x: String| x@);
    proof {
        let tt = if target_exists { Seq::<Seq<char>>::empty() } else { seq![target_missing_msg(plan.target_drive@)] };
        let ss = if plan.space_analysis.fits {
            Seq::<Seq<char>>::empty()
        } else {
            seq![no_space_msg(plan.target_drive@, plan.space_analysis.total_move_size as nat,
                plan.space_analysis.target_drive_free_before as nat)]
        };
        assert(head =~= tt + ss);
        assert(plan.operations@.take(0) =~= Seq::<SortOperation>::empty());
        assert(head =~= head + ops_errors(plan.operations@.take(0), facts@));
        assert(warnings@.map_values(|x: String| x@) =~= ops_warnings(plan.operations@.take(0), facts@));
    }
    let ops = &plan.operations;
    let mut i: usize = 0;
    while i < ops.len()
        invariant
            i <= ops@.len(),
            facts@.len() == ops@.len(),
            errors@.map_values(|x: String| x@) == head + ops_errors(ops@.take(i as int), facts@),
            warnings@.map_values(|x: String| x@) == ops_warnings(ops@.take(i as int), facts@),
        decreases ops@.len() - i,
    {
        let op = &ops[i];
        let f = facts[i];
        let ghost pre = ops@.take(i as int);
        let ghost nxt = ops@.take(i + 1);
        let ghost e0 = errors@.map_values(|x: String| x@);
        let ghost w0 = warnings@.map_values(|x: String| x@);
        proof {
            assert(nxt.drop_last() =~= pre);
            assert(nxt.last() == *op);
            assert(ops_errors(nxt, facts@) == ops_errors(pre, facts@) + op_errors(*op, f));
            assert(ops_warnings(nxt, facts@) == ops_warnings(pre, facts@) + op_warnings(*op, f));
        }
        if op.selected && op.action != PlanAction::Skip {
            let s = chars_of(op.source.as_str());
            if !f.source_exists {
                let mut m: Vec<char> = Vec::new();
                extend_str(&mut m, "Source file does not exist: ");
                extend_chars(&mut m, s.as_slice());
                push_text(&mut errors, &m);
                proof {
                    assert(errors@.map_values(|x: String| x@) =~= head + ops_errors(nxt, facts@));
                    assert(warnings@.map_values(|x: String| x@) =~= ops_warnings(nxt, facts@));
                }
            } else {
                match f.source_len {
                    Some(len) => {
                        if len != op.size_bytes {
                            let mut m: Vec<char> = Vec::new();
                            extend_str(&mut m, "Source file '");
                            extend_chars(&mut m, s.as_slice());
                            extend_str(&mut m, "' size changed on disk (expected ");
                            extend_chars(&mut m, decimal_chars(op.size_bytes as u128).as_slice());
                            extend_str(&mut m, ", found ");
                            extend_chars(&mut m, decimal_chars(len as u128).as_slice());
                            extend_str(&mut m, ")");
                            push_text(&mut warnings, &m);
                        }
                    },
                    None => {
                        let mut m: Vec<char> = Vec::new();
                        extend_str(&mut m, "Failed to read metadata for source file: ");
                        extend_chars(&mut m, s.as_slice());
                        push_text(&mut errors, &m);
                    },
                }
                let d = chars_of(op.destination.as_str());
                if f.destination_exists && !chars_eq(s.as_slice(), d.as_slice()) {
                    let mut m: Vec<char> = Vec::new();
                    extend_str(&mut m, "Destination file already exists and will be verified/handled: ");
                    extend_chars(&mut m, d.as_slice());
                    push_text(&mut warnings, &m);
                }
                proof {
                    assert(errors@.map_values(|x: String| x@) =~= head + ops_errors(nxt, facts@));
                    assert(warnings@.map_values(|x: String| x@) =~= ops_warnings(nxt, facts@));
                }
            }
        } else {
            proof {
                assert(errors@.map_values(|x: String| x@) =~= head + ops_errors(nxt, facts@));
                assert(warnings@.map_values(|x: String| x@) =~= ops_warnings(nxt, facts@));
            }
        }
        i = i + 1;
    }
    proof {
        assert(ops@.take(ops@.len() as int) =~= ops@);
    }
    let is_valid = errors.len() == 0;
    ValidationResult { is_valid, errors, warnings }
}

} // verus!
