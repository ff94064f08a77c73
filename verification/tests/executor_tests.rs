use savetensor_disksort::discovery::file_info::Timestamp;
use savetensor_disksort::executor::rollback::{
    analyze_operation_recovery, recovery_message, relink_check, reverify_precheck, reverify_report, RecoveryAction,
};
use savetensor_disksort::executor::run::{summarize_run, summary_fits, PlanRun, RunAction, RunEvent, RunStage};
use savetensor_disksort::executor::verify::{verify_copy, VerificationError};
use savetensor_disksort::persistence::log::{ExecutionLogger, LogEvent, LogNote};
use savetensor_disksort::planner::sort_plan::{calculate_space_analysis, OpStatus, PlanAction, SortOperation, SortPlan};
use savetensor_disksort::utils::hash::hash_bytes;

fn ts() -> Timestamp {
    Timestamp { secs: 1_700_000_000, nanos: 0 }
}

fn op(id: &str, src: &str, dst: &str, selected: bool, action: PlanAction, links: Vec<String>) -> SortOperation {
    SortOperation {
        op_id: id.into(),
        action,
        source: src.into(),
        destination: dst.into(),
        file_id: "f-0001".into(),
        size_bytes: 42,
        size_human: "42 B".into(),
        selected,
        status: OpStatus::Pending,
        symlinks_to_update: links,
        error_message: None,
    }
}

fn plan_of(ops: Vec<SortOperation>) -> SortPlan {
    let space_analysis = calculate_space_analysis(&ops, 1_000_000, &[]);
    SortPlan {
        version: 1,
        plan_timestamp: ts(),
        target_drive: "/t".into(),
        target_structure: "{}".into(),
        operations: ops,
        space_analysis,
        dry_run_log: None,
    }
}

fn event(op_id: &str, note: LogNote) -> LogEvent {
    let e = LogEvent::from_note(&note, ts());
    assert_eq!(e.op_id, op_id);
    e
}

#[test]
fn test_verify_copy_success() {
    let content = b"Identical model contents 9999";
    let res = verify_copy(&hash_bytes(content), &hash_bytes(content));
    assert!(res.is_ok());
    assert_eq!(res.unwrap(), hash_bytes(content));
}

#[test]
fn test_verify_copy_mismatch() {
    let res = verify_copy(&hash_bytes(b"Original file content"), &hash_bytes(b"Corrupted destination content"));
    match res {
        Err(VerificationError::HashMismatch { .. }) => {}
        _ => panic!("Expected HashMismatch error"),
    }
}

#[test]
fn test_verification_messages() {
    assert!(verify_copy("ABCD", "abcd").is_ok());
    let e = verify_copy("ab", "cd").unwrap_err();
    assert_eq!(e.message(), "Checksum mismatch: source hash 'ab' != destination hash 'cd'");
    assert_eq!(
        VerificationError::Io("denied".into()).message(),
        "I/O error during checksum calculation: denied"
    );
}

#[test]
fn test_logger_and_read() {
    let logger = ExecutionLogger::new("/tmp/out/execution.jsonl");
    assert_eq!(logger.file_path(), "/tmp/out/execution.jsonl");
    let events = vec![
        event("op-0001", LogNote::CopyStart { op_id: "op-0001".into(), src: "/src/a.pt".into(), dst: "/dst/a.pt".into() }),
        event("op-0001", LogNote::CopyDone { op_id: "op-0001".into(), bytes: 1024, elapsed_ms: 50 }),
        event("op-0001", LogNote::VerifyOk { op_id: "op-0001".into(), hash: "abc123hash".into() }),
        event("op-0001", LogNote::Complete { op_id: "op-0001".into(), hash: Some("abc123hash".into()) }),
    ];
    assert_eq!(events.len(), 4);
    assert_eq!(events[0].phase, "copy_start");
    assert_eq!(events[0].src.as_deref(), Some("/src/a.pt"));
    assert_eq!(events[1].bytes, Some(1024));
    assert_eq!(events[1].elapsed_ms, Some(50));
    assert_eq!(events[3].phase, "complete");
    assert_eq!(events[3].hash.as_deref(), Some("abc123hash"));
    assert!(events[3].src.is_none());
}

#[test]
fn test_crash_recovery_analysis() {
    let start = event("op-0042", LogNote::CopyStart { op_id: "op-0042".into(), src: "/r/source.safetensors".into(), dst: "/r/dest.safetensors".into() });
    match analyze_operation_recovery(&[start.clone()]) {
        RecoveryAction::CleanIncompleteDest { dst } => assert_eq!(dst, "/r/dest.safetensors"),
        _ => panic!("Expected CleanIncompleteDest action"),
    }
    let done = event("op-0042", LogNote::CopyDone { op_id: "op-0042".into(), bytes: 5, elapsed_ms: 1 });
    assert_eq!(
        analyze_operation_recovery(&[start.clone(), done.clone()]),
        RecoveryAction::Reverify { src: "/r/source.safetensors".into(), dst: "/r/dest.safetensors".into() }
    );
    let del = event("op-0042", LogNote::DeleteOriginal { op_id: "op-0042".into() });
    let link = event("op-0042", LogNote::SymlinkUpdate { op_id: "op-0042".into(), path: "/app/x".into(), new_target: "/r/dest.safetensors".into() });
    assert_eq!(
        analyze_operation_recovery(&[start.clone(), done.clone(), del.clone(), link.clone()]),
        RecoveryAction::ResumeSymlinkUpdate {
            src: "/r/source.safetensors".into(),
            dst: "/r/dest.safetensors".into(),
            symlinks: vec!["/app/x".into()],
        }
    );
    let complete = event("op-0042", LogNote::Complete { op_id: "op-0042".into(), hash: None });
    assert_eq!(analyze_operation_recovery(&[start, done, del, link, complete]), RecoveryAction::AlreadyCompleted);
    assert_eq!(analyze_operation_recovery(&[]), RecoveryAction::NoAction);
}

#[test]
fn test_dry_run_touches_nothing() {
    let mut plan = plan_of(vec![
        op("op-0001", "/s/a.pt", "/t/a.pt", true, PlanAction::Move, vec!["/l/1".into(), "/l/2".into()]),
        op("op-0002", "/s/b.pt", "/t/b.pt", false, PlanAction::Move, vec![]),
    ]);
    let mut run = PlanRun::new(true);
    let step = run.step(&mut plan, RunEvent::Start, false);
    assert!(matches!(step.action, RunAction::Finished));
    assert!(step.notes.is_empty());
    assert_eq!(run.stage, RunStage::Finished);
    assert_eq!(
        run.messages,
        vec!["[DRY-RUN] Would move '/s/a.pt' -> '/t/a.pt' (42 B). Would update 2 symlinks.".to_string()]
    );
    assert_eq!(plan.dry_run_log, Some(run.messages.clone()));
    assert_eq!(plan.operations[0].status, OpStatus::Completed);
    assert_eq!(plan.operations[1].status, OpStatus::Skipped);
}

#[test]
fn test_full_run_sequence() {
    let mut plan = plan_of(vec![
        op("op-0001", "/s/a.pt", "/t/a.pt", true, PlanAction::Move, vec!["/app/a.pt".into()]),
        op("op-0002", "/s/b.pt", "/t/b.pt", true, PlanAction::Skip, vec![]),
    ]);
    let mut run = PlanRun::new(false);
    let s = run.step(&mut plan, RunEvent::Start, false);
    match &s.action {
        RunAction::Copy { src, dst } => {
            assert_eq!(src, "/s/a.pt");
            assert_eq!(dst, "/t/a.pt");
        }
        _ => panic!("expected a copy"),
    }
    assert_eq!(LogEvent::from_note(&s.notes[0], ts()).phase, "copy_start");
    assert_eq!(plan.operations[0].status, OpStatus::InProgress);

    let s = run.step(&mut plan, RunEvent::Copied { elapsed_ms: 9 }, false);
    assert!(matches!(s.action, RunAction::Verify { .. }));
    assert_eq!(s.notes.len(), 2);

    let h = hash_bytes(b"weights");
    let s = run.step(&mut plan, RunEvent::Hashed { source_hash: h.clone(), dest_hash: h.to_uppercase() }, false);
    assert!(matches!(s.action, RunAction::DeleteSource { .. }));
    assert_eq!(LogEvent::from_note(&s.notes[0], ts()).phase, "verify_ok");
    assert_eq!(LogEvent::from_note(&s.notes[1], ts()).phase, "delete_original");

    let s = run.step(&mut plan, RunEvent::Deleted, false);
    match &s.action {
        RunAction::UpdateSymlinks { links, .. } => assert_eq!(links, &vec!["/app/a.pt".to_string()]),
        _ => panic!("expected a link update"),
    }
    assert_eq!(s.notes.len(), 1);

    let s = run.step(&mut plan, RunEvent::Relinked, false);
    assert!(matches!(s.action, RunAction::Finished));
    let last = LogEvent::from_note(&s.notes[0], ts());
    assert_eq!(last.phase, "complete");
    assert_eq!(last.hash, Some(h));
    assert_eq!(plan.operations[0].status, OpStatus::Completed);
    assert_eq!(plan.operations[1].status, OpStatus::Skipped);
    assert!(plan.dry_run_log.is_none());
}

#[test]
fn test_mismatch_keeps_source() {
    let mut plan = plan_of(vec![
        op("op-0001", "/s/a.pt", "/t/a.pt", true, PlanAction::Move, vec![]),
        op("op-0002", "/s/b.pt", "/t/b.pt", true, PlanAction::Move, vec![]),
    ]);
    let mut run = PlanRun::new(false);
    run.step(&mut plan, RunEvent::Start, false);
    run.step(&mut plan, RunEvent::Copied { elapsed_ms: 1 }, false);
    let s = run.step(&mut plan, RunEvent::Hashed { source_hash: "aa".into(), dest_hash: "bb".into() }, false);
    // The corrupted copy fails the operation and the run moves on to the next.
    match &s.action {
        RunAction::Copy { src, .. } => assert_eq!(src, "/s/b.pt"),
        _ => panic!("expected the next copy"),
    }
    assert_eq!(plan.operations[0].status, OpStatus::Failed);
    assert_eq!(
        plan.operations[0].error_message.as_deref(),
        Some("Verification error: Checksum mismatch: source hash 'aa' != destination hash 'bb'")
    );
    let s = run.step(&mut plan, RunEvent::CopyFailed { error: "disk full".into() }, false);
    assert!(matches!(s.action, RunAction::Finished));
    assert_eq!(plan.operations[1].error_message.as_deref(), Some("Copy error: disk full"));
}

#[test]
fn test_cancelled_run_skips() {
    let mut plan = plan_of(vec![op("op-0001", "/s/a.pt", "/t/a.pt", true, PlanAction::Move, vec![])]);
    let mut run = PlanRun::new(false);
    let s = run.step(&mut plan, RunEvent::Start, true);
    assert!(matches!(s.action, RunAction::Finished));
    assert_eq!(plan.operations[0].status, OpStatus::Skipped);
    assert_eq!(plan.operations[0].error_message.as_deref(), Some("Execution cancelled by user"));
}

#[test]
fn test_run_summary() {
    let mut ops = vec![
        op("op-0001", "/s/a.pt", "/t/a.pt", true, PlanAction::Move, vec![]),
        op("op-0002", "/s/b.pt", "/t/b.pt", true, PlanAction::Move, vec![]),
        op("op-0003", "/s/c.pt", "/t/c.pt", true, PlanAction::Move, vec![]),
    ];
    ops[0].status = OpStatus::Completed;
    ops[1].status = OpStatus::Failed;
    assert!(summary_fits(&ops));
    let s = summarize_run(&ops);
    assert_eq!((s.completed, s.failed, s.skipped, s.moved_bytes), (1, 1, 1, 42));
}

#[test]
fn test_recovery_reports() {
    assert_eq!(
        recovery_message(&RecoveryAction::CleanIncompleteDest { dst: "/d".into() }),
        "Cleaned incomplete destination '/d'"
    );
    assert_eq!(
        recovery_message(&RecoveryAction::ResumeSymlinkUpdate { src: "/s".into(), dst: "/d".into(), symlinks: vec!["/l".into(), "/m".into()] }),
        "Updated 2 symlinks to '/d'"
    );
    assert_eq!(recovery_message(&RecoveryAction::AlreadyCompleted), "No action needed");
    assert_eq!(reverify_precheck("/s", "/d", false, true).unwrap_err(), "Source file '/s' missing during reverify");
    assert_eq!(reverify_precheck("/s", "/d", true, false).unwrap_err(), "Destination file '/d' missing during reverify");
    assert!(reverify_precheck("/s", "/d", true, true).is_ok());
    assert_eq!(reverify_report("/s", &Ok("h1".to_string())).unwrap(), "Re-verified hash 'h1', deleted source '/s'");
    assert_eq!(
        reverify_report("/s", &Err(VerificationError::HashMismatch { source_hash: "a".into(), dest_hash: "b".into() })).unwrap_err(),
        "Re-verification failed: Checksum mismatch: source hash 'a' != destination hash 'b'"
    );
    assert_eq!(relink_check("/l", false, None, "/old").unwrap_err(), "Symlink '/l' no longer exists");
    assert_eq!(relink_check("/l", true, Some("/other"), "/old").unwrap_err(), "Symlink target mismatch for '/l'");
    assert!(relink_check("/l", true, Some("/old"), "/old").is_ok());
    assert!(relink_check("/l", true, None, "/old").is_ok());
}
