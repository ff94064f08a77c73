//! The plan view's list of operations, one checkbox line per operation.
use vstd::prelude::*;

use crate::planner::sort_plan::{OpStatus, SortOperation};
use crate::text::{chars_of, string_of};
use crate::utils::path_utils::{file_name, file_name_of};

verus! {

/// The box shown before an operation: ticked when it is selected.
pub open spec fn check_mark(selected: bool) -> Seq<char> {
    if selected {
        "[x] "@
    } else {
        "[ ] "@
    }
}

/// The icon shown for an operation's status.
pub open spec fn status_icon(status: OpStatus) -> Seq<char> {
    match status {
        OpStatus::Pending => "⏳ "@,
        OpStatus::InProgress => "🔄 "@,
        OpStatus::Completed => "✓ "@,
        OpStatus::Failed => "✗ "@,
        OpStatus::Skipped => "⊘ "@,
    }
}

/// The name an operation is listed under: the file name of its source, or
/// the whole source where the path has none.
pub open spec fn listed_name(source: Seq<char>) -> Seq<char> {
    match file_name_of(source) {
        Some(n) => n,
        None => source,
    }
}

/// What one line of the list shows, before styling.
pub struct CheckboxRow {
    pub check: &'static str,
    pub status_icon: &'static str,
    pub name: String,
    pub size_human: String,
    pub destination: String,
    pub selected: bool,
    pub status: OpStatus,
    pub is_cursor: bool,
}

/// Whether `row` is the line for `op`, at position `i` of a list whose cursor
/// stands at `cursor`.
pub open spec fn row_of(row: CheckboxRow, op: SortOperation, i: int, cursor: usize) -> bool {
    &&& row.check@ == check_mark(op.selected)
    &&& row.status_icon@ == status_icon(op.status)
    &&& row.name@ == listed_name(op.source@)
    &&& row.size_human@ == op.size_human@
    &&& row.destination@ == op.destination@
    &&& row.selected == op.selected
    &&& row.status == op.status
    &&& row.is_cursor == (i == cursor)
}

/// The checkbox list of the plan view.
pub struct CheckboxList;

impl CheckboxList {
    /// The lines of the list for `operations`, the cursor on `selected_idx`.
    pub fn rows(operations: &[SortOperation], selected_idx: usize) -> (r: Vec<CheckboxRow>)
        ensures
            r@.len() == operations@.len(),
            forall|i: int| 0 <= i < r@.len() ==> row_of(#[trigger] r@[i], operations@[i], i, selected_idx),
    {
        let mut out: Vec<CheckboxRow> = Vec::new();
        let mut i: usize = 0;
        while i < operations.len()
            invariant
                i <= operations@.len(),
                out@.len() == i,
                forall|j: int| 0 <= j < i ==> row_of(#[trigger] out@[j], operations@[j], j, selected_idx),
            decreases operations@.len() - i,
        {
            let op = &operations[i];
            out.push(row(op, i == selected_idx));
            i = i + 1;
        }
        out
    }
}

/// The line for `op`, under the cursor when `is_cursor`.
fn row(op: &SortOperation, is_cursor: bool) -> (r: CheckboxRow)
    ensures
        r.check@ == check_mark(op.selected),
        r.status_icon@ == status_icon(op.status),
        r.name@ == listed_name(op.source@),
        r.size_human@ == op.size_human@,
        r.destination@ == op.destination@,
        r.selected == op.selected,
        r.status == op.status,
        r.is_cursor == is_cursor,
{
    let check: &'static str = if op.selected {
        "[x] "
    } else {
        "[ ] "
    };
    let icon: &'static str = match op.status {
        OpStatus::Pending => "⏳ ",
        OpStatus::InProgress => "🔄 ",
        OpStatus::Completed => "✓ ",
        OpStatus::Failed => "✗ ",
        OpStatus::Skipped => "⊘ ",
    };
    let source = chars_of(op.source.as_str());
    let name = match file_name(source.as_slice()) {
        Some(n) => string_of(n.as_slice()),
        None => op.source.clone(),
    };
    CheckboxRow {
        check,
        status_icon: icon,
        name,
        size_human: op.size_human.clone(),
        destination: op.destination.clone(),
        selected: op.selected,
        status: op.status,
        is_cursor,
    }
}

} // verus!
