use savetensor_disksort::discovery::file_info::{Category, FileInfo, Timestamp};
use savetensor_disksort::planner::conflict::generate_unique_destination;
use savetensor_disksort::planner::sort_plan::{
    calculate_space_analysis, compute_destination_path, detect_base_model, OpStatus, PlanAction,
    PlanTemplate, SortOperation, SortPlan, SpaceAnalysis,
};
use savetensor_disksort::planner::validator::{validate_plan_with, SourceFacts, ValidationResult};

fn file(id: &str, real: &str, name: &str, cat: Category, size: u64, human: &str, rel: &str, links: Vec<String>) -> FileInfo {
    FileInfo {
        id: id.into(),
        real_path: real.into(),
        filename: name.into(),
        extension: "safetensors".into(),
        category: cat,
        size_bytes: size,
        size_human: human.into(),
        blake3_hash: None,
        modified_at: None,
        mountpoint: "/mnt/nvme0".into(),
        relative_path: rel.into(),
        symlinked_from: links,
    }
}

fn op(id: &str, src: &str, dst: &str, size: u64, selected: bool, action: PlanAction) -> SortOperation {
    SortOperation {
        op_id: id.into(),
        action,
        source: src.into(),
        destination: dst.into(),
        file_id: "f-0001".into(),
        size_bytes: size,
        size_human: "0 B".into(),
        selected,
        status: OpStatus::Pending,
        symlinks_to_update: vec![],
        error_message: None,
    }
}

fn plan_with(ops: Vec<SortOperation>, free: u64, target: &str) -> SortPlan {
    let space_analysis = calculate_space_analysis(&ops, free, &[]);
    SortPlan {
        version: 1,
        plan_timestamp: Timestamp { secs: 0, nanos: 0 },
        target_drive: target.into(),
        target_structure: "{}".into(),
        operations: ops,
        space_analysis,
        dry_run_log: None,
    }
}

#[test]
fn test_unique_destination() {
    let existing = vec![
        "/mnt/usbc1/models/checkpoints/v1-5.safetensors".to_string(),
        "/mnt/usbc1/models/checkpoints/v1-5_2.safetensors".to_string(),
    ];
    let target = "/mnt/usbc1/models/checkpoints/v1-5.safetensors";
    let unique = generate_unique_destination(target, &existing);
    assert_eq!(unique, "/mnt/usbc1/models/checkpoints/v1-5_3.safetensors");
}

#[test]
fn test_unique_destination_free_and_no_extension() {
    assert_eq!(generate_unique_destination(r"D:\m\a.pt", &[]), "D:/m/a.pt");
    let existing = vec!["/m/readme".to_string()];
    assert_eq!(generate_unique_destination("/m/readme", &existing), "/m/readme_2");
}

#[test]
fn test_generate_plan_basic() {
    let files = vec![
        file("f-0001", "/mnt/nvme0/models/v1-5.safetensors", "v1-5.safetensors", Category::Checkpoint, 4_000_000_000, "3.73 GB",
            "models/v1-5.safetensors", vec!["/home/user/ComfyUI/models/checkpoints/v1-5.safetensors".into()]),
        file("f-0002", "/mnt/nvme0/models/detail.safetensors", "detail.safetensors", Category::Lora, 100_000_000, "95.4 MB",
            "models/detail.safetensors", vec![]),
    ];

    let plan = SortPlan::generate(&files, "/mnt/usbc1", 500_000_000_000, PlanTemplate::ByType).unwrap();

    assert_eq!(plan.operations.len(), 2);
    assert_eq!(plan.operations[0].op_id, "op-0001");
    assert_eq!(plan.operations[0].action, PlanAction::Move);
    assert_eq!(plan.operations[0].destination, "/mnt/usbc1/models/checkpoints/v1-5.safetensors");
    assert_eq!(plan.operations[1].destination, "/mnt/usbc1/models/loras/detail.safetensors");
    assert!(plan.space_analysis.fits);
    assert_eq!(plan.space_analysis.source_drives_freed, vec![("/mnt/nvme0".to_string(), 4_100_000_000)]);
}

#[test]
fn test_generate_plan_collisions_and_in_place() {
    let files = vec![
        file("f-0001", "/t/models/other/a.pt", "a.pt", Category::Other, 10, "10 B", "a.pt", vec![]),
        file("f-0002", "/x/a.pt", "a.pt", Category::Other, 20, "20 B", "a.pt", vec![]),
        file("f-0003", "/y/a.pt", "a.pt", Category::Other, 30, "30 B", "a.pt", vec![]),
    ];
    let plan = SortPlan::generate_at(&files, "/t", 1000, PlanTemplate::ByType, Timestamp { secs: 1, nanos: 2 });
    assert_eq!(plan.plan_timestamp, Timestamp { secs: 1, nanos: 2 });
    assert_eq!(plan.operations[0].action, PlanAction::Skip);
    assert_eq!(plan.operations[0].status, OpStatus::Skipped);
    assert!(!plan.operations[0].selected);
    assert_eq!(plan.operations[1].destination, "/t/models/other/a_2.pt");
    assert_eq!(plan.operations[2].destination, "/t/models/other/a_3.pt");
    assert_eq!(plan.operations[2].op_id, "op-0003");
    assert_eq!(plan.space_analysis.total_move_size, 50);
    assert_eq!(plan.space_analysis.target_drive_free_after, 950);
    assert_eq!(plan.space_analysis.source_drives_freed, vec![("/".to_string(), 50)]);
}

#[test]
fn test_templates_and_base_models() {
    let f = file("f-0001", "/s/x.safetensors", "sdxl_style.safetensors", Category::Lora, 1, "1 B", "loras/sdxl_style.safetensors", vec![]);
    assert_eq!(compute_destination_path(&f, PlanTemplate::ByType), "models/loras/sdxl_style.safetensors");
    assert_eq!(compute_destination_path(&f, PlanTemplate::ByTypeAndBase), "models/loras/sdxl/sdxl_style.safetensors");
    assert_eq!(compute_destination_path(&f, PlanTemplate::Flat), "models/sdxl_style.safetensors");
    assert_eq!(compute_destination_path(&f, PlanTemplate::PreserveStructure), "loras/sdxl_style.safetensors");
    assert_eq!(detect_base_model("flux-dev.safetensors", ""), "flux");
    assert_eq!(detect_base_model("model.ckpt", "sd1.5/"), "sd15");
    assert_eq!(detect_base_model("model.ckpt", "misc/"), "general");
    assert_eq!(PlanTemplate::parse("By-Type"), Some(PlanTemplate::ByType));
    assert_eq!(PlanTemplate::parse("preserve"), Some(PlanTemplate::PreserveStructure));
    assert_eq!(PlanTemplate::parse("nested"), None);
}

#[test]
fn test_space_analysis_margin() {
    let ops = vec![op("op-0001", "/a/x", "/t/x", 95, true, PlanAction::Move)];
    let sa = calculate_space_analysis(&ops, 100, &[]);
    assert!(sa.fits);
    let ops = vec![op("op-0001", "/a/x", "/t/x", 96, true, PlanAction::Move)];
    let sa: SpaceAnalysis = calculate_space_analysis(&ops, 100, &[]);
    assert!(!sa.fits);
    assert_eq!(sa.target_drive_free_after, 4);
    let ops = vec![op("op-0001", "/a/x", "/t/x", 500, false, PlanAction::Move)];
    let sa = calculate_space_analysis(&ops, 100, &[]);
    assert!(sa.fits);
    assert_eq!(sa.total_move_size, 0);
}

#[test]
fn test_validate_plan_missing_source() {
    let plan = plan_with(
        vec![op("op-0001", "/tmp/src.safetensors", "./test_dst.safetensors", 0, true, PlanAction::Move)],
        1_000_000,
        ".",
    );
    let facts = vec![SourceFacts { source_exists: true, source_len: Some(0), destination_exists: false }];
    let result = validate_plan_with(&plan, true, &facts);
    assert!(result.is_valid);
}

#[test]
fn test_validation_messages() {
    let plan = plan_with(
        vec![
            op("op-0001", "/a/gone.pt", "/t/gone.pt", 1, true, PlanAction::Move),
            op("op-0002", "/a/changed.pt", "/t/changed.pt", 5, true, PlanAction::Move),
            op("op-0003", "/a/unread.pt", "/t/unread.pt", 1, true, PlanAction::Move),
            op("op-0004", "/a/skip.pt", "/a/skip.pt", 1, true, PlanAction::Skip),
        ],
        1_000_000,
        "/t",
    );
    let facts = vec![
        SourceFacts { source_exists: false, source_len: None, destination_exists: true },
        SourceFacts { source_exists: true, source_len: Some(7), destination_exists: true },
        SourceFacts { source_exists: true, source_len: None, destination_exists: false },
        SourceFacts { source_exists: false, source_len: None, destination_exists: false },
    ];
    let r = validate_plan_with(&plan, false, &facts);
    assert!(!r.is_valid);
    assert_eq!(
        r.errors,
        vec![
            "Target drive '/t' does not exist or is not mounted".to_string(),
            "Source file does not exist: /a/gone.pt".to_string(),
            "Failed to read metadata for source file: /a/unread.pt".to_string(),
        ]
    );
    assert_eq!(
        r.warnings,
        vec![
            "Source file '/a/changed.pt' size changed on disk (expected 5, found 7)".to_string(),
            "Destination file already exists and will be verified/handled: /t/changed.pt".to_string(),
        ]
    );
    let ok = ValidationResult::ok();
    assert!(ok.is_valid && ok.errors.is_empty() && ok.warnings.is_empty());
}

#[test]
fn test_insufficient_space_reported() {
    let files = vec![file("f-0001", "/r/model.safetensors", "model.safetensors", Category::Checkpoint, 18, "18 B", "model.safetensors", vec![])];
    let plan = SortPlan::generate(&files, "/mnt/target", 5, PlanTemplate::ByType).unwrap();
    assert!(!plan.space_analysis.fits);
    let facts = vec![SourceFacts { source_exists: true, source_len: Some(18), destination_exists: false }];
    let val = validate_plan_with(&plan, true, &facts);
    assert!(!val.is_valid);
    assert!(val.errors.iter().any(|e| e.contains("Insufficient disk space")));
    assert_eq!(val.errors[0], "Insufficient disk space on target drive '/mnt/target': requires 18 B, available 5 B");
}

#[test]
fn test_unique_destination_avoids_every_taken_path() {
    let existing = vec![
        "/t/a.pt".to_string(),
        "/t/a_2.pt".to_string(),
        "/t/a_3.pt".to_string(),
        "/t/a_5.pt".to_string(),
    ];
    let unique = generate_unique_destination(r"\t\a.pt", &existing);
    assert_eq!(unique, "/t/a_4.pt");
    assert!(!existing.contains(&unique));
}

#[test]
fn test_fitting_plan_keeps_margin() {
    let ops = vec![
        op("op-0001", "/a/x", "/t/x", 600, true, PlanAction::Move),
        op("op-0002", "/a/y", "/t/y", 350, true, PlanAction::Move),
    ];
    let sa = calculate_space_analysis(&ops, 1000, &[]);
    assert!(sa.fits);
    assert_eq!(sa.target_drive_free_after + sa.total_move_size, 1000);
    assert!(20 * sa.total_move_size <= 19 * 1000);
}

#[test]
fn test_space_freed_by_mountpoint() {
    let ops = vec![op(
        "op-0001",
        "/mnt/nvme0/ai/models/sd15/v1-5-pruned-emaonly.safetensors",
        "/mnt/usbc1/models/checkpoints/v1-5-pruned-emaonly.safetensors",
        2_132_803_584,
        true,
        PlanAction::Move,
    )];
    let mps = vec!["/mnt".to_string(), "/mnt/nvme0".to_string(), "/mnt/nvme".to_string()];
    let sa = calculate_space_analysis(&ops, 3_800_000_000_000, &mps);
    assert_eq!(sa.total_move_size, 2_132_803_584);
    assert_eq!(sa.target_drive_free_after, 3_797_867_196_416);
    assert!(sa.fits);
    assert_eq!(sa.source_drives_freed, vec![("/mnt/nvme0".to_string(), 2_132_803_584)]);
    let sa = calculate_space_analysis(&ops, 3_800_000_000_000, &[]);
    assert_eq!(sa.source_drives_freed, vec![("/".to_string(), 2_132_803_584)]);
}

#[test]
fn test_generate_plan_destinations_distinct() {
    let files = vec![
        file("f-0001", "/x/a.pt", "a.pt", Category::Other, 1, "1 B", "a.pt", vec![]),
        file("f-0002", "/y/a.pt", "a.pt", Category::Other, 1, "1 B", "a.pt", vec![]),
        file("f-0003", "/z/a_2.pt", "a_2.pt", Category::Other, 1, "1 B", "a_2.pt", vec![]),
    ];
    let plan = SortPlan::generate_at(&files, "/t", 1000, PlanTemplate::ByType, Timestamp { secs: 0, nanos: 0 });
    assert_eq!(plan.operations[0].destination, "/t/models/other/a.pt");
    assert_eq!(plan.operations[1].destination, "/t/models/other/a_2.pt");
    assert_eq!(plan.operations[2].destination, "/t/models/other/a_2_2.pt");
}

#[test]
fn test_generate_plan_avoids_other_sources() {
    // The second file sits where the first would go; the first is numbered
    // instead of overwriting it, and the second stays in place.
    let files = vec![
        file("f-0001", "/x/a.pt", "a.pt", Category::Other, 1, "1 B", "a.pt", vec![]),
        file("f-0002", "/t/models/other/a.pt", "a.pt", Category::Other, 1, "1 B", "a.pt", vec![]),
    ];
    let plan = SortPlan::generate_at(&files, "/t", 1000, PlanTemplate::ByType, Timestamp { secs: 0, nanos: 0 });
    assert_eq!(plan.operations[0].destination, "/t/models/other/a_2.pt");
    assert_eq!(plan.operations[1].action, PlanAction::Skip);
    assert_eq!(plan.operations[1].destination, "/t/models/other/a.pt");
}
