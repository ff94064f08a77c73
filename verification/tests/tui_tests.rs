use savetensor_disksort::accounting::size_tree::FolderNode;
use savetensor_disksort::config::{ConfigMountpoint, DiskSortConfig};
use savetensor_disksort::discovery::file_info::{Category, FileInfo, Timestamp};
use savetensor_disksort::persistence::inventory::Inventory;
use savetensor_disksort::planner::sort_plan::{calculate_space_analysis, OpStatus, PlanAction, SortOperation, SortPlan};
use savetensor_disksort::tui::app::{files_fit, plan_fits, App, AppEffect, AppTab, BackgroundMsg, InputMode};
use savetensor_disksort::tui::checkbox_list::CheckboxList;
use savetensor_disksort::tui::keybinds::{map_key, Action, Key};
use savetensor_disksort::tui::tree::{flatten_folder_tree, TreeItemState};

fn tree() -> Vec<(String, FolderNode)> {
    let mut root = FolderNode::new();
    root.insert_file(&["models", "sd"], 10);
    root.insert_file(&["models", "lora"], 5);
    root.aggregate();
    vec![("/m".to_string(), root)]
}

fn file(real: &str, mp: &str, rel: &str) -> FileInfo {
    FileInfo {
        id: "f-0001".into(),
        real_path: real.into(),
        filename: "x.pt".into(),
        extension: "pt".into(),
        category: Category::Other,
        size_bytes: 10,
        size_human: "10 B".into(),
        blake3_hash: None,
        modified_at: None,
        mountpoint: mp.into(),
        relative_path: rel.into(),
        symlinked_from: vec![],
    }
}

fn op(selected: bool, size: u64) -> SortOperation {
    SortOperation {
        op_id: "op-0001".into(),
        action: PlanAction::Move,
        source: "/a/x".into(),
        destination: "/t/x".into(),
        file_id: "f-0001".into(),
        size_bytes: size,
        size_human: "".into(),
        selected,
        status: OpStatus::Pending,
        symlinks_to_update: vec![],
        error_message: None,
    }
}

fn plan(ops: Vec<SortOperation>) -> SortPlan {
    let space_analysis = calculate_space_analysis(&ops, 100, &[]);
    SortPlan {
        version: 1,
        plan_timestamp: Timestamp { secs: 0, nanos: 0 },
        target_drive: "/t".into(),
        target_structure: "{}".into(),
        operations: ops,
        space_analysis,
        dry_run_log: None,
    }
}

#[test]
fn test_tab_cycle() {
    let mut t = AppTab::Scan;
    for _ in 0..5 {
        t = t.next();
    }
    assert_eq!(t, AppTab::Scan);
    assert_eq!(AppTab::Plan.next(), AppTab::Execute);
    assert_eq!(AppTab::Scan.prev(), AppTab::Summary);
    assert_eq!(AppTab::Execute.next().prev(), AppTab::Execute);
}

#[test]
fn test_key_map() {
    assert_eq!(map_key(Key::Char('q')), Action::Quit);
    assert_eq!(map_key(Key::Char('Q')), Action::Quit);
    assert_eq!(map_key(Key::Tab), Action::NextTab);
    assert_eq!(map_key(Key::BackTab), Action::PrevTab);
    assert_eq!(map_key(Key::Char('j')), Action::Down);
    assert_eq!(map_key(Key::Char(' ')), Action::ToggleCheckbox);
    assert_eq!(map_key(Key::Char('e')), Action::Execute);
    assert_eq!(map_key(Key::Char('d')), Action::DryRun);
    assert_eq!(map_key(Key::Enter), Action::Select);
    assert_eq!(map_key(Key::Char('z')), Action::Nothing);
    assert_eq!(map_key(Key::Esc), Action::Nothing);
}

#[test]
fn test_toggle_twice_restores() {
    let mut s = TreeItemState::new();
    assert!(!s.is_expanded("/m"));
    s.toggle_expand("/m");
    assert!(s.is_expanded("/m"));
    s.toggle_expand("/m");
    assert!(!s.is_expanded("/m"));
    assert!(s.expanded_paths.is_empty());
}

#[test]
fn test_flatten_follows_expansion() {
    let t = tree();
    let mut s = TreeItemState::new();
    let rows = flatten_folder_tree(&t, &s);
    assert_eq!(rows.len(), 1);
    assert_eq!(rows[0].id, "/m");
    assert!(rows[0].is_dir && !rows[0].is_expanded);
    assert_eq!(rows[0].size_human, "15 B");
    s.toggle_expand("/m");
    s.toggle_expand("/m/models");
    let rows = flatten_folder_tree(&t, &s);
    let ids: Vec<&str> = rows.iter().map(|r| r.id.as_str()).collect();
    assert_eq!(ids, vec!["/m", "/m/models", "/m/models/lora", "/m/models/sd"]);
    assert_eq!(rows[2].depth, 2);
    assert_eq!(rows[2].display_name, "lora");
    assert!(!rows[2].is_dir);
    assert_eq!(rows[3].file_count, 1);
}

#[test]
fn test_handle_actions_on_plan() {
    let p = plan(vec![op(true, 10), op(false, 20)]);
    let mut app = App::new(DiskSortConfig::default(), None, Some(p));
    assert_eq!(app.handle_action(Action::NextTab), AppEffect::Nothing);
    assert_eq!(app.handle_action(Action::NextTab), AppEffect::Nothing);
    assert_eq!(app.current_tab, AppTab::Plan);
    assert_eq!(app.handle_action(Action::Down), AppEffect::Nothing);
    assert_eq!(app.selected_op_idx, 1);
    app.handle_action(Action::Down);
    assert_eq!(app.selected_op_idx, 1);
    app.handle_action(Action::ToggleCheckbox);
    let pl = app.plan.as_ref().unwrap();
    assert!(pl.operations[1].selected);
    assert_eq!(pl.space_analysis.total_move_size, 30);
    app.handle_action(Action::SelectAll);
    let pl = app.plan.as_ref().unwrap();
    assert!(!pl.operations[0].selected && !pl.operations[1].selected);
    assert_eq!(pl.space_analysis.total_move_size, 0);
    app.handle_action(Action::SelectAll);
    assert!(app.plan.as_ref().unwrap().operations.iter().all(|o| o.selected));
    assert_eq!(app.handle_action(Action::DryRun), AppEffect::StartExecution { dry_run: true });
    assert!(app.is_executing);
    assert_eq!(app.current_tab, AppTab::Execute);
    assert_eq!(app.handle_action(Action::Execute), AppEffect::Nothing);
    assert_eq!(app.handle_action(Action::Quit), AppEffect::Quit);
}

#[test]
fn test_scan_tab_and_mountpoints() {
    let mut cfg = DiskSortConfig::default();
    cfg.mountpoints.push(ConfigMountpoint { path: "/a".into(), label: None });
    cfg.mountpoints.push(ConfigMountpoint { path: "/b".into(), label: None });
    let mut app = App::new(cfg, None, None);
    assert_eq!(app.handle_action(Action::Refresh), AppEffect::StartScan);
    assert!(app.is_scanning);
    assert_eq!(app.log_messages, vec!["Starting scan across all mountpoints...".to_string()]);
    assert_eq!(app.handle_action(Action::Refresh), AppEffect::Nothing);
    assert_eq!(app.handle_action(Action::DryRun), AppEffect::Nothing);
    app.handle_action(Action::Down);
    assert_eq!(app.selected_mountpoint_idx, 1);
    assert_eq!(app.handle_action(Action::DeleteMountpoint), AppEffect::SaveConfig);
    assert_eq!(app.config.mountpoints.len(), 1);
    assert_eq!(app.selected_mountpoint_idx, 0);
    app.handle_action(Action::AddMountpoint);
    assert_eq!(app.input_mode, InputMode::AddingMountpoint);
    app.handle_input_key(Key::Char('/'));
    app.handle_input_key(Key::Char('c'));
    app.handle_input_key(Key::Char('x'));
    app.handle_input_key(Key::Backspace);
    assert_eq!(app.new_mountpoint_input, "/c");
    assert_eq!(app.handle_input_key(Key::Enter), AppEffect::SaveConfig);
    assert_eq!(app.input_mode, InputMode::Normal);
    assert_eq!(app.config.mountpoints[1].path, "/c");
}

#[test]
fn test_inventory_navigation_and_reports() {
    let files = vec![file("/m/models/sd/x.pt", "/m", "models/sd/x.pt")];
    assert!(files_fit(&files));
    let inv = Inventory::build(vec![], files, vec![]).unwrap();
    let mut app = App::new(DiskSortConfig::default(), None, None);
    assert_eq!(app.apply_message(BackgroundMsg::ScanFinished(inv)), AppEffect::SavePlan);
    assert!(!app.is_scanning);
    assert_eq!(app.log_messages[0], "Scan complete: 1 files discovered.");
    assert_eq!(app.log_messages[1], "Generated default sort plan");
    let p = app.plan.as_ref().unwrap();
    assert_eq!(p.target_drive, "./models_target");
    assert_eq!(p.operations[0].destination, "./models_target/models/other/x.pt");
    app.handle_action(Action::NextTab);
    app.handle_action(Action::Select);
    assert!(app.tree_state.is_expanded("/m"));
    app.handle_action(Action::Down);
    assert_eq!(app.tree_state.selected_index, 1);
    app.handle_action(Action::Up);
    app.handle_action(Action::Left);
    assert!(!app.tree_state.is_expanded("/m"));
    assert_eq!(app.selected_file(), None);
    app.apply_message(BackgroundMsg::ExecLog("hello".into()));
    assert_eq!(app.log_messages[2], "hello");
    app.apply_message(BackgroundMsg::ExecFinished);
    assert_eq!(app.current_tab, AppTab::Summary);
    assert!(plan_fits(app.plan.as_ref().unwrap()));
}

#[test]
fn test_config_defaults() {
    let cfg = DiskSortConfig::default();
    assert_eq!(cfg.file_extensions, vec!["safetensors", "pt", "pth", "ckpt", "bin", "gguf", "onnx"]);
    assert_eq!(cfg.exclude_patterns, vec!["*.tmp", "*.partial", ".git/**"]);
    assert_eq!(cfg.output_dir, "./disksort_data");
    assert_eq!(cfg.hash_algorithm, "blake3");
    assert_eq!(cfg.copy_buffer_size_mb, 8);
    assert!(cfg.verify_after_copy && cfg.update_symlinks_after_move);
    let mut cfg = cfg;
    cfg.mountpoints.push(ConfigMountpoint { path: "/x".into(), label: Some("X".into()) });
    cfg.app_roots.push("/apps".into());
    assert_eq!(cfg.mountpoint_paths(), vec!["/x".to_string()]);
    assert_eq!(cfg.app_root_paths(), vec!["/apps".to_string()]);
}

fn listed_op(src: &str, selected: bool, status: OpStatus) -> SortOperation {
    SortOperation {
        op_id: "op-0001".into(),
        action: PlanAction::Move,
        source: src.into(),
        destination: "/t/models/a.pt".into(),
        file_id: "f-0001".into(),
        size_human: "1.0 KB".into(),
        size_bytes: 1024,
        selected,
        status,
        symlinks_to_update: vec![],
        error_message: None,
    }
}

#[test]
fn test_checkbox_rows() {
    let ops = vec![
        listed_op("/s/models/a.pt", true, OpStatus::Pending),
        listed_op("/s/..", false, OpStatus::Failed),
        listed_op("/s/b.pt", true, OpStatus::Completed),
    ];
    let rows = CheckboxList::rows(&ops, 1);
    assert_eq!(rows.len(), 3);
    assert_eq!(rows[0].check, "[x] ");
    assert_eq!(rows[0].status_icon, "⏳ ");
    assert_eq!(rows[0].name, "a.pt");
    assert!(!rows[0].is_cursor);
    assert_eq!(rows[1].check, "[ ] ");
    assert_eq!(rows[1].status_icon, "✗ ");
    assert_eq!(rows[1].name, "/s/..");
    assert!(rows[1].is_cursor);
    assert_eq!(rows[2].status_icon, "✓ ");
    assert_eq!(rows[2].size_human, "1.0 KB");
    assert_eq!(rows[2].destination, "/t/models/a.pt");
}
