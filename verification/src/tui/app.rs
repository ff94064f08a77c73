//! The state of the terminal interface and its decisions: which tab is
//! shown, what each action changes, what the background work reports, and
//! what must be done outside (start a scan or a run, save the settings or
//! the plan).

use vstd::prelude::*;
use crate::config::{ConfigMountpoint, DiskSortConfig};
use crate::discovery::file_info::FileInfo;
use crate::persistence::inventory::Inventory;
use crate::planner::sort_plan::{calculate_space_analysis, analysis_of, file_mountpoints, files_total, mountpoints_of, move_total,
    PlanAction, PlanTemplate, SortOperation, SortPlan, generated_plan};
use crate::text::{chars_eq, chars_of};
use crate::utils::human_size::{decimal, decimal_chars};
use super::keybinds::{Action, Key};
use super::tree::{expanded_set, expanded_wf, flatten_folder_tree, forest_rows, toggled, TreeItemState};

verus! {

/// The tabs of the interface, in display order.
#[derive(Debug, Clone, Copy, PartialEq, Eq, Structural)]
pub enum AppTab {
    Scan,
    Inventory,
    Plan,
    Execute,
    Summary,
}

/// The tab after `t`, the last wrapping round to the first.
pub open spec fn tab_after(t: AppTab) -> AppTab {
    match t {
        AppTab::Scan => AppTab::Inventory,
        AppTab::Inventory => AppTab::Plan,
        AppTab::Plan => AppTab::Execute,
        AppTab::Execute => AppTab::Summary,
        AppTab::Summary => AppTab::Scan,
    }
}

/// The tab before `t`, the first wrapping round to the last.
pub open spec fn tab_before(t: AppTab) -> AppTab {
    match t {
        AppTab::Scan => AppTab::Summary,
        AppTab::Inventory => AppTab::Scan,
        AppTab::Plan => AppTab::Inventory,
        AppTab::Execute => AppTab::Plan,
        AppTab::Summary => AppTab::Execute,
    }
}

impl AppTab {
    /// The next tab (after the last comes the first).
    pub fn next(self) -> (r: AppTab)
        ensures
            r == tab_after(self),
    {
        match self {
            AppTab::Scan => AppTab::Inventory,
            AppTab::Inventory => AppTab::Plan,
            AppTab::Plan => AppTab::Execute,
            AppTab::Execute => AppTab::Summary,
            AppTab::Summary => AppTab::Scan,
        }
    }

    /// The previous tab (before the first comes the last).
    pub fn prev(self) -> (r: AppTab)
        ensures
            r == tab_before(self),
    {
        match self {
            AppTab::Scan => AppTab::Summary,
            AppTab::Inventory => AppTab::Scan,
            AppTab::Plan => AppTab::Inventory,
            AppTab::Execute => AppTab::Plan,
            AppTab::Summary => AppTab::Execute,
        }
    }
}

/// Going to the next tab and back (or back and then on) returns to the same
/// tab, and going on five times goes all the way round.
pub proof fn lemma_tab_cycle(t: AppTab)
    ensures
        tab_before(tab_after(t)) == t,
        tab_after(tab_before(t)) == t,
        tab_after(tab_after(tab_after(tab_after(tab_after(t))))) == t,
{
}

/// Whether keys go to the interface or to the mountpoint being typed.
#[derive(Debug, Clone, Copy, PartialEq, Eq, Structural)]
pub enum InputMode {
    Normal,
    AddingMountpoint,
}

/// What must be done outside the interface after an action or a report.
#[derive(Debug, Clone, Copy, PartialEq, Eq, Structural)]
pub enum AppEffect {
    Nothing,
    Quit,
    StartScan,
    StartExecution { dry_run: bool },
    SaveConfig,
    SavePlan,
}

/// What the background work reports.
#[derive(Debug)]
pub enum BackgroundMsg {
    ScanFinished(Inventory),
    PlanFinished(SortPlan),
    ExecProgress { op_id: String, copied: u64, total: u64, percent: u16 },
    ExecLog(String),
    ExecFinished,
}

/// The state of the interface.
#[derive(Debug)]
pub struct App {
    pub config: DiskSortConfig,
    pub current_tab: AppTab,
    pub inventory: Option<Inventory>,
    pub plan: Option<SortPlan>,
    pub is_scanning: bool,
    pub is_executing: bool,
    pub tree_state: TreeItemState,
    pub selected_op_idx: usize,
    pub current_op_id: String,
    pub current_copied: u64,
    pub current_total: u64,
    pub current_percent: u16,
    pub log_messages: Vec<String>,
    pub input_mode: InputMode,
    pub new_mountpoint_input: String,
    pub selected_mountpoint_idx: usize,
}

/// The bytes of all `Move` operations, selected or not.
pub open spec fn move_sizes(ops: Seq<SortOperation>) -> nat
    decreases ops.len(),
{
    if ops.len() == 0 {
        0
    } else {
        move_sizes(ops.drop_last()) + if ops.last().action == PlanAction::Move { ops.last().size_bytes as nat } else { 0 }
    }
}

/// Whether the interface's state is consistent: no folder is recorded as
/// expanded twice, the moves of the plan fit in 64 bits whatever is
/// selected, and so do the sizes of the inventory's files.
pub open spec fn app_wf(a: App) -> bool {
    &&& expanded_wf(a.tree_state)
    &&& a.plan matches Some(p) ==> move_sizes(p.operations@) <= u64::MAX
    &&& a.inventory matches Some(inv) ==> files_total(inv.files@) <= u64::MAX
}

/// The visible rows of the inventory's folder tree.
pub open spec fn visible_rows(a: App) -> Seq<(Seq<char>, Seq<char>, usize, bool, bool, Seq<char>, usize)> {
    match a.inventory {
        Some(inv) => forest_rows(inv.folder_tree@, expanded_set(a.tree_state), inv.folder_tree@.len() as int),
        None => Seq::empty(),
    }
}

/// Whether `new` is `old` with operation `i` selected as `sel` and nothing
/// else changed.
pub open spec fn reselected(new: SortOperation, old: SortOperation, sel: bool) -> bool {
    &&& new.op_id == old.op_id
    &&& new.action == old.action
    &&& new.source == old.source
    &&& new.destination == old.destination
    &&& new.file_id == old.file_id
    &&& new.size_bytes == old.size_bytes
    &&& new.size_human == old.size_human
    &&& new.selected == sel
    &&& new.status == old.status
    &&& new.symlinks_to_update == old.symlinks_to_update
    &&& new.error_message == old.error_message
}

/// Whether plan `new` is `old` with the selection of its operations as
/// `sel` gives it, and its space analysis recomputed (the free space kept).
pub open spec fn reselected_plan(new: SortPlan, old: SortPlan, sel: spec_fn(int) -> bool, mps: Seq<Seq<char>>) -> bool {
    &&& new.version == old.version
    &&& new.plan_timestamp == old.plan_timestamp
    &&& new.target_drive == old.target_drive
    &&& new.target_structure == old.target_structure
    &&& new.dry_run_log == old.dry_run_log
    &&& new.operations@.len() == old.operations@.len()
    &&& forall|i: int| 0 <= i < old.operations@.len() ==> reselected(#[trigger] new.operations@[i], old.operations@[i], sel(i))
    &&& analysis_of(new.space_analysis, new.operations@, old.space_analysis.target_drive_free_before, mps)
}

/// The mountpoints under which a plan's freed space is reported when the
/// selection changes: those of the inventory's files, none without one.
pub open spec fn app_mountpoints(a: App) -> Seq<Seq<char>> {
    match a.inventory {
        Some(inv) => file_mountpoints(inv.files@),
        None => Seq::empty(),
    }
}

/// Whether some operation of the plan is not selected.
pub open spec fn any_unselected(ops: Seq<SortOperation>) -> bool {
    exists|i: int| 0 <= i < ops.len() && !(#[trigger] ops[i]).selected
}

/// Whether `new` is what `action` makes of `old`, with `r` the effect to
/// perform outside.
pub open spec fn acted(new: App, old: App, action: Action, r: AppEffect) -> bool {
    let rows = visible_rows(old);
    let tsel = old.tree_state.selected_index;
    match action {
        Action::Quit => r == AppEffect::Quit && new == old,
        Action::NextTab => r == AppEffect::Nothing && new == App { current_tab: tab_after(old.current_tab), ..old },
        Action::PrevTab => r == AppEffect::Nothing && new == App { current_tab: tab_before(old.current_tab), ..old },
        Action::Up => r == AppEffect::Nothing && new == if old.current_tab == AppTab::Inventory {
            if tsel > 0 {
                App { tree_state: TreeItemState { selected_index: (tsel - 1) as usize, ..old.tree_state }, ..old }
            } else {
                old
            }
        } else if old.current_tab == AppTab::Plan && old.selected_op_idx > 0 {
            App { selected_op_idx: (old.selected_op_idx - 1) as usize, ..old }
        } else if old.current_tab == AppTab::Scan && old.selected_mountpoint_idx > 0 {
            App { selected_mountpoint_idx: (old.selected_mountpoint_idx - 1) as usize, ..old }
        } else {
            old
        },
        Action::Down => r == AppEffect::Nothing && new == if old.current_tab == AppTab::Inventory {
            if old.inventory is Some && tsel + 1 < rows.len() {
                App { tree_state: TreeItemState { selected_index: (tsel + 1) as usize, ..old.tree_state }, ..old }
            } else {
                old
            }
        } else if old.current_tab == AppTab::Plan {
            if old.plan is Some && old.selected_op_idx + 1 < old.plan.unwrap().operations@.len() {
                App { selected_op_idx: (old.selected_op_idx + 1) as usize, ..old }
            } else {
                old
            }
        } else if old.current_tab == AppTab::Scan && old.selected_mountpoint_idx + 1 < old.config.mountpoints@.len() {
            App { selected_mountpoint_idx: (old.selected_mountpoint_idx + 1) as usize, ..old }
        } else {
            old
        },
        Action::Select | Action::Right | Action::Left => {
            let open = action is Left;
            &&& r == AppEffect::Nothing
            &&& if old.current_tab == AppTab::Inventory && tsel < rows.len() && rows[tsel as int].3 && (!open || rows[tsel as int].4) {
                &&& toggled(new.tree_state, old.tree_state, rows[tsel as int].0)
                &&& new == App { tree_state: new.tree_state, ..old }
            } else {
                new == old
            }
        },
        Action::ToggleCheckbox => {
            &&& r == AppEffect::Nothing
            &&& match old.plan {
                Some(p) => if old.current_tab == AppTab::Plan && old.selected_op_idx < p.operations@.len() {
                    &&& new.plan is Some
                    &&& reselected_plan(new.plan.unwrap(), p, |i: int| if i == old.selected_op_idx {
                        !p.operations@[i].selected
                    } else {
                        p.operations@[i].selected
                    }, app_mountpoints(old))
                    &&& new == App { plan: new.plan, ..old }
                } else {
                    new == old
                },
                None => new == old,
            }
        },
        Action::SelectAll => {
            &&& r == AppEffect::Nothing
            &&& match old.plan {
                Some(p) => if old.current_tab == AppTab::Plan {
                    &&& new.plan is Some
                    &&& reselected_plan(new.plan.unwrap(), p, |i: int| any_unselected(p.operations@), app_mountpoints(old))
                    &&& new == App { plan: new.plan, ..old }
                } else {
                    new == old
                },
                None => new == old,
            }
        },
        Action::Refresh => if old.is_scanning {
            r == AppEffect::Nothing && new == old
        } else {
            &&& r == AppEffect::StartScan
            &&& new.log_messages@.map_values(|x: String| x@) == old.log_messages@.map_values(|x: String| x@).push("Starting scan across all mountpoints..."@)
            &&& new == App { is_scanning: true, log_messages: new.log_messages, ..old }
        },
        Action::DryRun | Action::Execute => if old.is_executing || old.plan is None {
            r == AppEffect::Nothing && new == old
        } else {
            &&& r == AppEffect::StartExecution { dry_run: action is DryRun }
            &&& new == App { is_executing: true, current_tab: AppTab::Execute, ..old }
        },
        Action::AddMountpoint => r == AppEffect::Nothing && if old.current_tab == AppTab::Scan {
            &&& new.new_mountpoint_input@.len() == 0
            &&& new == App { input_mode: InputMode::AddingMountpoint, new_mountpoint_input: new.new_mountpoint_input, ..old }
        } else {
            new == old
        },
        Action::DeleteMountpoint => if old.current_tab == AppTab::Scan && old.selected_mountpoint_idx < old.config.mountpoints@.len() {
            let i = old.selected_mountpoint_idx;
            let remaining = old.config.mountpoints@.remove(i as int);
            &&& r == AppEffect::SaveConfig
            &&& new.config.mountpoints@ == remaining
            &&& new.config == DiskSortConfig { mountpoints: new.config.mountpoints, ..old.config }
            &&& new == App {
                config: new.config,
                selected_mountpoint_idx: if i > 0 && i >= remaining.len() { (i - 1) as usize } else { i },
                ..old
            }
        } else {
            r == AppEffect::Nothing && new == old
        },
        _ => r == AppEffect::Nothing && new == old,
    }
}

proof fn lemma_move_total_le_sizes(ops: Seq<SortOperation>)
    ensures
        move_total(ops) <= move_sizes(ops),
    decreases ops.len(),
{
    if ops.len() > 0 {
        lemma_move_total_le_sizes(ops.drop_last());
    }
}

proof fn lemma_sizes_same(a: Seq<SortOperation>, b: Seq<SortOperation>)
    requires
        a.len() == b.len(),
        forall|i: int| 0 <= i < a.len() ==> (#[trigger] a[i]).action == b[i].action && a[i].size_bytes == b[i].size_bytes,
    ensures
        move_sizes(a) == move_sizes(b),
    decreases a.len(),
{
    if a.len() > 0 {
        assert forall|i: int| 0 <= i < a.drop_last().len() implies (#[trigger] a.drop_last()[i]).action == b.drop_last()[i].action
            && a.drop_last()[i].size_bytes == b.drop_last()[i].size_bytes by {
            assert(a.drop_last()[i] == a[i] && b.drop_last()[i] == b[i]);
        }
        lemma_sizes_same(a.drop_last(), b.drop_last());
        assert(a.last() == a[a.len() - 1]);
    }
}

/// Sets whether operation `i` is selected.
fn select_op(ops: &mut Vec<SortOperation>, i: usize, sel: bool)
    requires
        i < old(ops)@.len(),
    ensures
        final(ops)@.len() == old(ops)@.len(),
        reselected(final(ops)@[i as int], old(ops)@[i as int], sel),
        forall|m: int| 0 <= m < old(ops)@.len() && m != i ==> final(ops)@[m] == old(ops)@[m],
{
    let mut op = ops.remove(i);
    op.selected = sel;
    ops.insert(i, op);
}

impl App {
    /// The visible rows of the inventory's folder tree (none without an
    /// inventory).
    fn rows_now(&self) -> (r: Vec<super::tree::TreeRow>)
        ensures
            super::tree::rows_view(r@) == visible_rows(*self),
    {
        match &self.inventory {
            Some(inv) => flatten_folder_tree(inv.folder_tree.as_slice(), &self.tree_state),
            None => {
                let r: Vec<super::tree::TreeRow> = Vec::new();
                proof {
                    assert(super::tree::rows_view(r@) =~= Seq::empty());
                }
                r
            },
        }
    }

    /// Expands or collapses the selected folder row (only collapses when
    /// `collapse_only`), on the inventory tab.
    fn toggle_row(&mut self, collapse_only: bool)
        requires
            app_wf(*old(self)),
        ensures
            app_wf(*final(self)),
            ({
                let rows = visible_rows(*old(self));
                let tsel = old(self).tree_state.selected_index;
                if old(self).current_tab == AppTab::Inventory && tsel < rows.len() && rows[tsel as int].3
                    && (!collapse_only || rows[tsel as int].4) {
                    &&& toggled(final(self).tree_state, old(self).tree_state, rows[tsel as int].0)
                    &&& *final(self) == App { tree_state: final(self).tree_state, ..*old(self) }
                } else {
                    *final(self) == *old(self)
                }
            }),
    {
        if self.current_tab == AppTab::Inventory {
            let rows = self.rows_now();
            let i = self.tree_state.selected_index;
            if i < rows.len() {
                let row = &rows[i];
                proof {
                    assert(super::tree::rows_view(rows@)[i as int] == super::tree::row_view(rows@[i as int]));
                }
                if row.is_dir && (!collapse_only || row.is_expanded) {
                    self.tree_state.toggle_expand(row.id.as_str());
                }
            }
        }
    }

    /// Recomputes the space analysis of `p` after a change of selection.
    fn reanalyze(p: &mut SortPlan, mountpoints: &[String])
        requires
            move_sizes(old(p).operations@) <= u64::MAX,
        ensures
            *final(p) == (SortPlan { space_analysis: final(p).space_analysis, ..*old(p) }),
            analysis_of(final(p).space_analysis, old(p).operations@, old(p).space_analysis.target_drive_free_before,
                mountpoints@.map_values(|m: String| m@)),
    {
        proof {
            lemma_move_total_le_sizes(p.operations@);
        }
        let free = p.space_analysis.target_drive_free_before;
        p.space_analysis = calculate_space_analysis(p.operations.as_slice(), free, mountpoints);
    }

    /// The mountpoints of the inventory's files (see `app_mountpoints`).
    fn inventory_mountpoints(&self) -> (r: Vec<String>)
        ensures
            r@.map_values(|m: String| m@) == app_mountpoints(*self),
    {
        match &self.inventory {
            Some(inv) => {
                let r = mountpoints_of(inv.files.as_slice());
                proof {
                    assert(r@.map_values(|m: String| m@) =~= file_mountpoints(inv.files@));
                }
                r
            },
            None => {
                let r: Vec<String> = Vec::new();
                proof {
                    assert(r@.map_values(|m: String| m@) =~= Seq::<Seq<char>>::empty());
                }
                r
            },
        }
    }

    /// Applies `action` to the interface; see `acted`.
    pub fn handle_action(&mut self, action: Action) -> (r: AppEffect)
        requires
            app_wf(*old(self)),
        ensures
            app_wf(*final(self)),
            acted(*final(self), *old(self), action, r),
    {
        match action {
            Action::Quit => AppEffect::Quit,
            Action::NextTab => {
                self.current_tab = self.current_tab.next();
                AppEffect::Nothing
            },
            Action::PrevTab => {
                self.current_tab = self.current_tab.prev();
                AppEffect::Nothing
            },
            Action::Up => {
                if self.current_tab == AppTab::Inventory {
                    if self.tree_state.selected_index > 0 {
                        self.tree_state.selected_index = self.tree_state.selected_index - 1;
                    }
                } else if self.current_tab == AppTab::Plan && self.selected_op_idx > 0 {
                    self.selected_op_idx = self.selected_op_idx - 1;
                } else if self.current_tab == AppTab::Scan && self.selected_mountpoint_idx > 0 {
                    self.selected_mountpoint_idx = self.selected_mountpoint_idx - 1;
                }
                AppEffect::Nothing
            },
            Action::Down => {
                if self.current_tab == AppTab::Inventory {
                    if self.inventory.is_some() {
                        let rows = self.rows_now();
                        let n = rows.len();
                        proof {
                            assert(super::tree::rows_view(rows@).len() == rows@.len());
                        }
                        if n > 0 && self.tree_state.selected_index < n - 1 {
                            self.tree_state.selected_index = self.tree_state.selected_index + 1;
                        }
                    }
                } else if self.current_tab == AppTab::Plan {
                    match &self.plan {
                        Some(p) => {
                            let n = p.operations.len();
                            if n > 0 && self.selected_op_idx < n - 1 {
                                self.selected_op_idx = self.selected_op_idx + 1;
                            }
                        },
                        None => {},
                    }
                } else if self.current_tab == AppTab::Scan {
                    let n = self.config.mountpoints.len();
                    if n > 0 && self.selected_mountpoint_idx < n - 1 {
                        self.selected_mountpoint_idx = self.selected_mountpoint_idx + 1;
                    }
                }
                AppEffect::Nothing
            },
            Action::Select | Action::Right => {
                self.toggle_row(false);
                AppEffect::Nothing
            },
            Action::Left => {
                self.toggle_row(true);
                AppEffect::Nothing
            },
            Action::ToggleCheckbox => {
                if self.current_tab == AppTab::Plan {
                    let mps = self.inventory_mountpoints();
                    let taken = self.plan.take();
                    match taken {
                        Some(mut p) => {
                            if self.selected_op_idx < p.operations.len() {
                                let i = self.selected_op_idx;
                                let ghost p0 = p;
                                let cur = p.operations[i].selected;
                                select_op(&mut p.operations, i, !cur);
                                proof {
                                    lemma_sizes_same(p.operations@, p0.operations@);
                                }
                                App::reanalyze(&mut p, mps.as_slice());
                            }
                            self.plan = Some(p);
                        },
                        None => {
                            self.plan = None;
                        },
                    }
                }
                AppEffect::Nothing
            },
            Action::SelectAll => {
                if self.current_tab == AppTab::Plan {
                    let mps = self.inventory_mountpoints();
                    let taken = self.plan.take();
                    match taken {
                        Some(mut p) => {
                            let ghost p0 = p;
                            let mut any = false;
                            let mut i: usize = 0;
                            while i < p.operations.len()
                                invariant
                                    i <= p.operations@.len(),
                                    any == exists|j: int| 0 <= j < i && !(#[trigger] p.operations@[j]).selected,
                                decreases p.operations@.len() - i,
                            {
                                if !p.operations[i].selected {
                                    any = true;
                                }
                                i = i + 1;
                            }
                            let mut k: usize = 0;
                            while k < p.operations.len()
                                invariant
                                    k <= p.operations@.len(),
                                    p.operations@.len() == p0.operations@.len(),
                                    any == any_unselected(p0.operations@),
                                    forall|j: int| 0 <= j < k ==> reselected(#[trigger] p.operations@[j], p0.operations@[j], any),
                                    forall|j: int| k <= j < p.operations@.len() ==> #[trigger] p.operations@[j] == p0.operations@[j],
                                    p == (SortPlan { operations: p.operations, ..p0 }),
                                decreases p.operations@.len() - k,
                            {
                                let ghost before = p.operations@;
                                select_op(&mut p.operations, k, any);
                                proof {
                                    assert forall|j: int| 0 <= j < k implies reselected(#[trigger] p.operations@[j], p0.operations@[j], any) by {
                                        assert(p.operations@[j] == before[j]);
                                    }
                                    assert forall|j: int| k + 1 <= j < p.operations@.len() implies #[trigger] p.operations@[j] == p0.operations@[j] by {
                                        assert(p.operations@[j] == before[j]);
                                    }
                                }
                                k = k + 1;
                            }
                            proof {
                                lemma_sizes_same(p.operations@, p0.operations@);
                            }
                            App::reanalyze(&mut p, mps.as_slice());
                            self.plan = Some(p);
                        },
                        None => {
                            self.plan = None;
                        },
                    }
                }
                AppEffect::Nothing
            },
            Action::Refresh => {
                if self.is_scanning {
                    AppEffect::Nothing
                } else {
                    self.is_scanning = true;
                    let ghost o = self.log_messages@;
                    self.log_messages.push("Starting scan across all mountpoints...".to_owned());
                    proof {
                        assert(self.log_messages@.map_values(|x: String| x@) =~= o.map_values(|x: String| x@).push("Starting scan across all mountpoints..."@));
                    }
                    AppEffect::StartScan
                }
            },
            Action::DryRun | Action::Execute => {
                if self.is_executing || self.plan.is_none() {
                    AppEffect::Nothing
                } else {
                    self.is_executing = true;
                    self.current_tab = AppTab::Execute;
                    AppEffect::StartExecution { dry_run: action == Action::DryRun }
                }
            },
            Action::AddMountpoint => {
                if self.current_tab == AppTab::Scan {
                    self.input_mode = InputMode::AddingMountpoint;
                    self.new_mountpoint_input = String::new();
                }
                AppEffect::Nothing
            },
            Action::DeleteMountpoint => {
                if self.current_tab == AppTab::Scan && self.selected_mountpoint_idx < self.config.mountpoints.len() {
                    self.config.mountpoints.remove(self.selected_mountpoint_idx);
                    if self.selected_mountpoint_idx > 0 && self.selected_mountpoint_idx >= self.config.mountpoints.len() {
                        self.selected_mountpoint_idx = self.selected_mountpoint_idx - 1;
                    }
                    AppEffect::SaveConfig
                } else {
                    AppEffect::Nothing
                }
            },
            _ => AppEffect::Nothing,
        }
    }
}

proof fn lemma_sizes_le_files(ops: Seq<SortOperation>, files: Seq<FileInfo>)
    requires
        ops.len() == files.len(),
        forall|i: int| 0 <= i < ops.len() ==> #[trigger] ops[i].size_bytes == files[i].size_bytes,
    ensures
        move_sizes(ops) <= files_total(files),
    decreases ops.len(),
{
    if ops.len() > 0 {
        assert forall|i: int| 0 <= i < ops.drop_last().len() implies #[trigger] ops.drop_last()[i].size_bytes == files.drop_last()[i].size_bytes by {
            assert(ops.drop_last()[i] == ops[i] && files.drop_last()[i] == files[i]);
        }
        lemma_sizes_le_files(ops.drop_last(), files.drop_last());
        assert(ops.last() == ops[ops.len() - 1] && files.last() == files[files.len() - 1]);
    }
}

/// Whether the sizes of `files` add up within 64 bits.
pub fn files_fit(files: &[FileInfo]) -> (r: bool)
    ensures
        r == (files_total(files@) <= u64::MAX),
{
    let mut total: u64 = 0;
    let mut i: usize = 0;
    while i < files.len()
        invariant
            i <= files@.len(),
            total == files_total(files@.take(i as int)),
        decreases files@.len() - i,
    {
        proof {
            assert(files@.take(i + 1).drop_last() =~= files@.take(i as int));
        }
        match total.checked_add(files[i].size_bytes) {
            Some(t) => { total = t; },
            None => {
                proof {
                    lemma_files_total_prefix(files@, i + 1);
                }
                return false;
            },
        }
        i = i + 1;
    }
    proof {
        assert(files@.take(files@.len() as int) =~= files@);
    }
    true
}

proof fn lemma_files_total_prefix(files: Seq<FileInfo>, n: int)
    requires
        0 <= n <= files.len(),
    ensures
        files_total(files.take(n)) <= files_total(files),
    decreases files.len() - n,
{
    if n < files.len() {
        lemma_files_total_prefix(files, n + 1);
        assert(files.take(n + 1).drop_last() =~= files.take(n));
    } else {
        assert(files.take(n) =~= files);
    }
}

proof fn lemma_move_sizes_prefix(ops: Seq<SortOperation>, n: int)
    requires
        0 <= n <= ops.len(),
    ensures
        move_sizes(ops.take(n)) <= move_sizes(ops),
    decreases ops.len() - n,
{
    if n < ops.len() {
        lemma_move_sizes_prefix(ops, n + 1);
        assert(ops.take(n + 1).drop_last() =~= ops.take(n));
    } else {
        assert(ops.take(n) =~= ops);
    }
}

/// Whether the moves of `plan` add up within 64 bits, whatever is selected.
pub fn plan_fits(plan: &SortPlan) -> (r: bool)
    ensures
        r == (move_sizes(plan.operations@) <= u64::MAX),
{
    let ops = &plan.operations;
    let mut total: u64 = 0;
    let mut i: usize = 0;
    while i < ops.len()
        invariant
            i <= ops@.len(),
            ops@ == plan.operations@,
            total == move_sizes(ops@.take(i as int)),
        decreases ops@.len() - i,
    {
        proof {
            assert(ops@.take(i + 1).drop_last() =~= ops@.take(i as int));
            assert(ops@.take(i + 1).last() == ops@[i as int]);
        }
        if ops[i].action == PlanAction::Move {
            match total.checked_add(ops[i].size_bytes) {
                Some(t) => { total = t; },
                None => {
                    proof {
                        lemma_move_sizes_prefix(ops@, i + 1);
                    }
                    return false;
                },
            }
        }
        i = i + 1;
    }
    proof {
        assert(ops@.take(ops@.len() as int) =~= ops@);
    }
    true
}

/// Whether a report can be taken: the files of a finished scan and the
/// moves of a returned plan add up within 64 bits.
pub open spec fn msg_wf(msg: BackgroundMsg) -> bool {
    match msg {
        BackgroundMsg::ScanFinished(inv) => files_total(inv.files@) <= u64::MAX,
        BackgroundMsg::PlanFinished(p) => move_sizes(p.operations@) <= u64::MAX,
        _ => true,
    }
}

/// The target of the default plan: the first configured mountpoint, else
/// `./models_target`.
pub open spec fn default_target(c: DiskSortConfig) -> Seq<char> {
    if c.mountpoints@.len() > 0 { c.mountpoints@[0].path@ } else { "./models_target"@ }
}

/// The free space the default plan assumes on its target.
pub const DEFAULT_TARGET_FREE_BYTES: u64 = 1_000_000_000_000;

/// The line logged when no plan can be made because the clock is unreadable.
pub open spec fn clock_failure_msg() -> Seq<char> {
    "Cannot generate a sort plan: the system clock cannot be read"@
}

/// Whether `new` is `old` with a default plan made from its inventory (by
/// type, to the default target, assuming the default free space) and `r` asks
/// for it to be saved; or, where the clock could not be read for the plan's
/// timestamp, `old` with that reported and nothing to do.
pub open spec fn with_default_plan(new: App, old: App, r: AppEffect) -> bool {
    match old.inventory {
        Some(inv) => {
            ||| {
                &&& r == AppEffect::SavePlan
                &&& new.plan is Some
                &&& generated_plan(new.plan.unwrap(), inv.files@, default_target(old.config), DEFAULT_TARGET_FREE_BYTES, PlanTemplate::ByType)
                &&& new.log_messages@.map_values(|x: String| x@) == old.log_messages@.map_values(|x: String| x@).push("Generated default sort plan"@)
                &&& new == App { plan: new.plan, log_messages: new.log_messages, ..old }
            }
            ||| {
                &&& r == AppEffect::Nothing
                &&& new.log_messages@.map_values(|x: String| x@) == old.log_messages@.map_values(|x: String| x@).push(clock_failure_msg())
                &&& new == App { log_messages: new.log_messages, ..old }
            }
        },
        None => r == AppEffect::Nothing && new == old,
    }
}

/// The line reporting the end of a scan.
pub open spec fn scan_done_msg(n: nat) -> Seq<char> {
    "Scan complete: "@ + decimal(n) + " files discovered."@
}

/// Whether `new` is what report `msg` makes of `old`, with `r` the effect
/// to perform outside.
pub open spec fn reported(new: App, old: App, msg: BackgroundMsg, r: AppEffect) -> bool {
    match msg {
        BackgroundMsg::ScanFinished(inv) => {
            exists|mid: App| {
                &&& mid.log_messages@.map_values(|x: String| x@) == old.log_messages@.map_values(|x: String| x@)
                    .push(scan_done_msg(inv.summary.total_files as nat))
                &&& mid == App { is_scanning: false, inventory: Some(inv), log_messages: mid.log_messages, ..old }
                &&& with_default_plan(new, mid, r)
            }
        },
        BackgroundMsg::PlanFinished(p) => r == AppEffect::Nothing && new == App { plan: Some(p), ..old },
        BackgroundMsg::ExecProgress { op_id, copied, total, percent } => r == AppEffect::Nothing
            && new == App { current_op_id: op_id, current_copied: copied, current_total: total, current_percent: percent, ..old },
        BackgroundMsg::ExecLog(m) => {
            &&& r == AppEffect::Nothing
            &&& new.log_messages@ == old.log_messages@.push(m)
            &&& new == App { log_messages: new.log_messages, ..old }
        },
        BackgroundMsg::ExecFinished => r == AppEffect::Nothing
            && new == App { is_executing: false, current_tab: AppTab::Summary, ..old },
    }
}

impl App {
    /// The interface at start, with the settings and the inventory and plan
    /// found on disk, if any: on the scan tab, nothing running, nothing
    /// selected.
    pub fn new(config: DiskSortConfig, inventory: Option<Inventory>, plan: Option<SortPlan>) -> (r: App)
        requires
            inventory matches Some(inv) ==> files_total(inv.files@) <= u64::MAX,
            plan matches Some(p) ==> move_sizes(p.operations@) <= u64::MAX,
        ensures
            app_wf(r),
            r.config == config,
            r.inventory == inventory,
            r.plan == plan,
            r.current_tab == AppTab::Scan,
            !r.is_scanning && !r.is_executing,
            expanded_set(r.tree_state) == Set::<Seq<char>>::empty(),
            r.tree_state.selected_index == 0,
            r.selected_op_idx == 0 && r.selected_mountpoint_idx == 0,
            r.current_op_id@.len() == 0 && r.current_copied == 0 && r.current_total == 0 && r.current_percent == 0,
            r.log_messages@.len() == 0,
            r.input_mode == InputMode::Normal,
            r.new_mountpoint_input@.len() == 0,
    {
        App {
            config,
            current_tab: AppTab::Scan,
            inventory,
            plan,
            is_scanning: false,
            is_executing: false,
            tree_state: TreeItemState::new(),
            selected_op_idx: 0,
            current_op_id: String::new(),
            current_copied: 0,
            current_total: 0,
            current_percent: 0,
            log_messages: Vec::new(),
            input_mode: InputMode::Normal,
            new_mountpoint_input: String::new(),
            selected_mountpoint_idx: 0,
        }
    }

    /// Makes the default plan from the inventory (see `with_default_plan`);
    /// asks for the plan to be saved when there was an inventory.
    pub fn generate_default_plan(&mut self) -> (r: AppEffect)
        requires
            app_wf(*old(self)),
        ensures
            app_wf(*final(self)),
            with_default_plan(*final(self), *old(self), r),
    {
        match &self.inventory {
            Some(inv) => {
                let target: String = if self.config.mountpoints.len() > 0 {
                    self.config.mountpoints[0].path.clone()
                } else {
                    "./models_target".to_owned()
                };
                let plan = match SortPlan::generate(inv.files.as_slice(), target.as_str(), DEFAULT_TARGET_FREE_BYTES, PlanTemplate::ByType) {
                    Some(p) => p,
                    None => {
                        let ghost o = self.log_messages@;
                        self.log_messages.push("Cannot generate a sort plan: the system clock cannot be read".to_owned());
                        proof {
                            assert(self.log_messages@.map_values(|x: String| x@) =~= o.map_values(|x: String| x@).push(clock_failure_msg()));
                        }
                        return AppEffect::Nothing;
                    },
                };
                proof {
                    assert forall|i: int| 0 <= i < plan.operations@.len() implies #[trigger] plan.operations@[i].size_bytes == inv.files@[i].size_bytes by {
                        assert(crate::planner::sort_plan::planned_operation(plan.operations@[i], inv.files@, PlanTemplate::ByType, target@, i));
                    }
                    lemma_sizes_le_files(plan.operations@, inv.files@);
                }
                self.plan = Some(plan);
                let ghost o = self.log_messages@;
                self.log_messages.push("Generated default sort plan".to_owned());
                proof {
                    assert(self.log_messages@.map_values(|x: String| x@) =~= o.map_values(|x: String| x@).push("Generated default sort plan"@));
                }
                AppEffect::SavePlan
            },
            None => AppEffect::Nothing,
        }
    }

    /// Takes a report of the background work; see `reported`.
    pub fn apply_message(&mut self, msg: BackgroundMsg) -> (r: AppEffect)
        requires
            app_wf(*old(self)),
            msg_wf(msg),
        ensures
            app_wf(*final(self)),
            reported(*final(self), *old(self), msg, r),
    {
        match msg {
            BackgroundMsg::ScanFinished(inv) => {
                self.is_scanning = false;
                let mut line: Vec<char> = Vec::new();
                crate::text::extend_str(&mut line, "Scan complete: ");
                crate::text::extend_chars(&mut line, decimal_chars(inv.summary.total_files as u128).as_slice());
                crate::text::extend_str(&mut line, " files discovered.");
                let ghost o = self.log_messages@;
                self.log_messages.push(crate::text::string_of(line.as_slice()));
                proof {
                    assert(self.log_messages@.map_values(|x: String| x@) =~= o.map_values(|x: String| x@)
                        .push(scan_done_msg(inv.summary.total_files as nat)));
                }
                self.inventory = Some(inv);
                let ghost mid = *self;
                self.generate_default_plan()
            },
            BackgroundMsg::PlanFinished(p) => {
                self.plan = Some(p);
                AppEffect::Nothing
            },
            BackgroundMsg::ExecProgress { op_id, copied, total, percent } => {
                self.current_op_id = op_id;
                self.current_copied = copied;
                self.current_total = total;
                self.current_percent = percent;
                AppEffect::Nothing
            },
            BackgroundMsg::ExecLog(m) => {
                self.log_messages.push(m);
                AppEffect::Nothing
            },
            BackgroundMsg::ExecFinished => {
                self.is_executing = false;
                self.current_tab = AppTab::Summary;
                AppEffect::Nothing
            },
        }
    }
}

/// Whether `new` is what `key` makes of `old` while a mountpoint is being
/// typed: Enter adds the typed path as a mountpoint (and asks for the
/// settings to be saved) unless nothing was typed, and ends typing; Esc ends
/// typing; Backspace removes the last character; a character is appended;
/// other keys do nothing.
pub open spec fn typed(new: App, old: App, key: Key, r: AppEffect) -> bool {
    match key {
        Key::Enter => if old.new_mountpoint_input@.len() > 0 {
            let ms = new.config.mountpoints@;
            &&& r == AppEffect::SaveConfig
            &&& ms.len() == old.config.mountpoints@.len() + 1
            &&& ms.drop_last() == old.config.mountpoints@
            &&& ms.last().path@ == old.new_mountpoint_input@
            &&& ms.last().label is None
            &&& new.config == DiskSortConfig { mountpoints: new.config.mountpoints, ..old.config }
            &&& new == App { config: new.config, input_mode: InputMode::Normal, ..old }
        } else {
            r == AppEffect::Nothing && new == App { input_mode: InputMode::Normal, ..old }
        },
        Key::Esc => r == AppEffect::Nothing && new == App { input_mode: InputMode::Normal, ..old },
        Key::Backspace => {
            &&& r == AppEffect::Nothing
            &&& new.new_mountpoint_input@ == if old.new_mountpoint_input@.len() > 0 {
                old.new_mountpoint_input@.drop_last()
            } else {
                old.new_mountpoint_input@
            }
            &&& new == App { new_mountpoint_input: new.new_mountpoint_input, ..old }
        },
        Key::Char(c) => {
            &&& r == AppEffect::Nothing
            &&& new.new_mountpoint_input@ == old.new_mountpoint_input@.push(c)
            &&& new == App { new_mountpoint_input: new.new_mountpoint_input, ..old }
        },
        _ => r == AppEffect::Nothing && new == old,
    }
}

impl App {
    /// Takes a key while a mountpoint is being typed; see `typed`.
    pub fn handle_input_key(&mut self, key: Key) -> (r: AppEffect)
        requires
            app_wf(*old(self)),
        ensures
            app_wf(*final(self)),
            typed(*final(self), *old(self), key, r),
    {
            match key {
            Key::Enter => {
                let r = if chars_of(self.new_mountpoint_input.as_str()).len() > 0 {
                    let m = ConfigMountpoint { path: self.new_mountpoint_input.clone(), label: None };
                    let ghost o = self.config.mountpoints@;
                    self.config.mountpoints.push(m);
                    proof {
                        assert(self.config.mountpoints@.drop_last() =~= o);
                    }
                    AppEffect::SaveConfig
                } else {
                    AppEffect::Nothing
                };
                self.input_mode = InputMode::Normal;
                r
            },
            Key::Esc => {
                self.input_mode = InputMode::Normal;
                AppEffect::Nothing
            },
            Key::Backspace => {
                let cs = chars_of(self.new_mountpoint_input.as_str());
                if cs.len() > 0 {
                    let kept = crate::text::sub_chars(cs.as_slice(), 0, cs.len() - 1);
                    self.new_mountpoint_input = crate::text::string_of(kept.as_slice());
                    proof {
                        assert(kept@ =~= cs@.drop_last());
                    }
                }
                AppEffect::Nothing
            },
            Key::Char(c) => {
                crate::text::push_char(&mut self.new_mountpoint_input, c);
                AppEffect::Nothing
            },
            _ => AppEffect::Nothing,
        }
    }

    /// The index of the inventory file shown by the selected row: the first
    /// file whose real path is the row's path, if any.
    pub fn selected_file(&self) -> (r: Option<usize>)
        ensures
            ({
                let rows = visible_rows(*self);
                let tsel = self.tree_state.selected_index;
                match r {
                    Some(i) => {
                        &&& self.inventory is Some && tsel < rows.len()
                        &&& i < self.inventory.unwrap().files@.len()
                        &&& self.inventory.unwrap().files@[i as int].real_path@ == rows[tsel as int].0
                        &&& forall|m: int| 0 <= m < i ==> (#[trigger] self.inventory.unwrap().files@[m]).real_path@ != rows[tsel as int].0
                    },
                    None => !(self.inventory is Some && tsel < rows.len()) || forall|m: int|
                        0 <= m < self.inventory.unwrap().files@.len() ==> (#[trigger] self.inventory.unwrap().files@[m]).real_path@ != rows[tsel as int].0,
                }
            }),
    {
        match &self.inventory {
            Some(inv) => {
                let rows = self.rows_now();
                let sel = self.tree_state.selected_index;
                if sel >= rows.len() {
                    return None;
                }
                proof {
                    assert(super::tree::rows_view(rows@)[sel as int] == super::tree::row_view(rows@[sel as int]));
                }
                let id = chars_of(rows[sel].id.as_str());
                let mut i: usize = 0;
                while i < inv.files.len()
                    invariant
                        i <= inv.files@.len(),
                        self.inventory == Some(*inv),
                        sel == self.tree_state.selected_index,
                        sel < visible_rows(*self).len(),
                        id@ == visible_rows(*self)[sel as int].0,
                        forall|m: int| 0 <= m < i ==> (#[trigger] inv.files@[m]).real_path@ != id@,
                    decreases inv.files@.len() - i,
                {
                    let p = chars_of(inv.files[i].real_path.as_str());
                    if chars_eq(p.as_slice(), id.as_slice()) {
                        return Some(i);
                    }
                    i = i + 1;
                }
                None
            },
            None => None,
        }
    }
}

} // verus!
