use savetensor_disksort::discovery::file_info::{timestamp_from_reading, Category, FileInfo, Timestamp};
use savetensor_disksort::discovery::filters::{detect_category, is_model_extension, should_exclude_path};
use savetensor_disksort::discovery::symlink_mapper::{
    finish_descent, is_skipped_entry, may_descend, EntryFacts, EntryStep, SymlinkMapper, SymlinkTreeNode,
    VisitedDirs,
};
use savetensor_disksort::discovery::walker::{describe_mountpoint, number_inventory, scanned_file, DiskFacts};

fn file(id: &str, real: &str, links: Vec<String>) -> FileInfo {
    FileInfo {
        id: id.to_string(),
        real_path: real.to_string(),
        filename: "v1-5.safetensors".to_string(),
        extension: "safetensors".to_string(),
        category: Category::Checkpoint,
        size_bytes: 18,
        size_human: "18 B".to_string(),
        blake3_hash: None,
        modified_at: None,
        mountpoint: "/data".to_string(),
        relative_path: "storage/models/v1-5.safetensors".to_string(),
        symlinked_from: links,
    }
}

#[test]
fn test_category_parsing() {
    assert_eq!(Category::parse("Lora"), Some(Category::Lora));
    assert_eq!(Category::parse("checkpoints"), Some(Category::Checkpoint));
    assert_eq!(Category::parse("textual_inversion"), Some(Category::Embedding));
    assert_eq!(Category::parse("unknown_xyz"), None);
}

#[test]
fn test_category_names_round_trip() {
    for c in [
        Category::Checkpoint,
        Category::Lora,
        Category::Embedding,
        Category::Vae,
        Category::Controlnet,
        Category::Upscaler,
        Category::Other,
    ] {
        assert_eq!(Category::parse(c.as_str()), Some(c));
    }
    assert_eq!(Category::Controlnet.as_str(), "controlnet");
    assert_eq!(Category::parse("ESRGAN"), Some(Category::Upscaler));
    assert_eq!(Category::parse("misc"), Some(Category::Other));
}

#[test]
fn test_filter_extensions() {
    assert!(is_model_extension("safetensors"));
    assert!(is_model_extension("SAFETENSORS"));
    assert!(is_model_extension("pt"));
    assert!(is_model_extension("pth"));
    assert!(is_model_extension("ckpt"));
    assert!(is_model_extension("gguf"));
    assert!(is_model_extension("onnx"));
    assert!(!is_model_extension("txt"));
    assert!(!is_model_extension("json"));
    assert!(!is_model_extension("py"));
}

#[test]
fn test_exclude_path() {
    assert!(should_exclude_path(".git/objects/123"));
    assert!(should_exclude_path("models/test.tmp"));
    assert!(should_exclude_path("models/file.safetensors.partial"));
    assert!(!should_exclude_path("models/sd/v1-5-pruned.safetensors"));
}

#[test]
fn test_exclude_more_paths() {
    assert!(should_exclude_path("models/.hidden.safetensors"));
    assert!(should_exclude_path("dl/model.ckpt.crdownload"));
    assert!(should_exclude_path("a/node_modules/x.pt"));
    assert!(should_exclude_path("a/__pycache__/x.pt"));
    assert!(!should_exclude_path("a/git/x.pt"));
}

#[test]
fn test_detect_category_heuristics() {
    assert_eq!(
        detect_category("models/vae/vae-ft-mse-840000-ema-pruned.safetensors", 335_000_000),
        Category::Vae
    );
    assert_eq!(detect_category("sd_xl_vae.safetensors", 335_000_000), Category::Vae);
    assert_eq!(
        detect_category("models/controlnet/control_v11p_sd15_canny.pth", 1_400_000_000),
        Category::Controlnet
    );
    assert_eq!(
        detect_category("models/ESRGAN/4x_NMKD-Superscale-SP_178000_G.pth", 67_000_000),
        Category::Upscaler
    );
    assert_eq!(detect_category("models/embeddings/bad_prompt.pt", 24_000), Category::Embedding);
    assert_eq!(
        detect_category("models/loras/detail_tweaker.safetensors", 144_000_000),
        Category::Lora
    );
    assert_eq!(detect_category("models/v1-5-pruned.safetensors", 4_200_000_000), Category::Checkpoint);
}

#[test]
fn test_scan_nested_structure() {
    let mp = "/tmp/scan/drive_a".to_string();
    let mps = vec![mp.clone()];
    let found = [
        "/tmp/scan/drive_a/models/sd/v1-5-pruned.safetensors",
        "/tmp/scan/drive_a/models/lora/detail.safetensors",
        "/tmp/scan/drive_a/models/sd/readme.txt",
    ];
    let mut files = Vec::new();
    for p in found.iter() {
        if let Some(f) = scanned_file(p, p, &mps, &mps, &mp, 21, None) {
            files.push(f);
        }
    }
    let files = number_inventory(files);
    assert_eq!(files.len(), 2);
    assert_eq!(files[0].id, "f-0001");
    assert_eq!(files[1].id, "f-0002");
    assert!(files.iter().any(|f| f.filename == "v1-5-pruned.safetensors"));
    assert!(files.iter().any(|f| f.filename == "detail.safetensors"));
}

#[test]
fn test_scanned_record_fields() {
    let mps = vec!["/mnt/a".to_string(), "/mnt/a/sub".to_string()];
    let f = scanned_file(
        "/mnt/a/sub/models/Lora/Style.SafeTensors",
        "/mnt/a/sub/models/Lora/Style.SafeTensors",
        &mps,
        &mps,
        "/mnt/a",
        10_000_000,
        None,
    )
    .unwrap();
    assert_eq!(f.id, "");
    assert_eq!(f.filename, "Style.SafeTensors");
    assert_eq!(f.extension, "safetensors");
    assert_eq!(f.mountpoint, "/mnt/a/sub");
    assert_eq!(f.relative_path, "models/Lora/Style.SafeTensors");
    assert_eq!(f.size_human, "9.5 MB");
    assert_eq!(f.category, Category::Lora);
    assert!(scanned_file("/mnt/a/x.tmp", "/mnt/a/x.tmp", &mps, &mps, "/mnt/a", 1, None).is_none());
    assert!(scanned_file("/mnt/a/x.json", "/mnt/a/x.json", &mps, &mps, "/mnt/a", 1, None).is_none());
}

#[test]
fn test_number_inventory_sorts_and_dedups() {
    let files = vec![
        file("", "/b/x.pt", vec![]),
        file("", "/a/y.pt", vec!["first".to_string()]),
        file("", "/a/y.pt", vec!["second".to_string()]),
    ];
    let r = number_inventory(files);
    assert_eq!(r.len(), 2);
    assert_eq!(r[0].real_path, "/a/y.pt");
    assert_eq!(r[0].symlinked_from, vec!["first".to_string()]);
    assert_eq!(r[0].id, "f-0001");
    assert_eq!(r[1].real_path, "/b/x.pt");
    assert_eq!(r[1].id, "f-0002");
}

#[test]
fn test_describe_mountpoint() {
    let disks = vec![
        DiskFacts { mount_point: "/mnt".to_string(), total_bytes: 100, available_bytes: 40, file_system: "ext4".to_string() },
        DiskFacts { mount_point: "/".to_string(), total_bytes: 500, available_bytes: 90, file_system: "btrfs".to_string() },
    ];
    let info = describe_mountpoint("/mnt/usb1/", None, "/mnt/usb1", &disks);
    assert_eq!(info.path, "/mnt/usb1/");
    assert_eq!(info.label, "usb1");
    assert_eq!(info.total_bytes, 100);
    assert_eq!(info.free_bytes, 40);
    assert_eq!(info.filesystem, "ext4");
    let other = describe_mountpoint("/srv", Some("Store"), "/srv", &disks[..1]);
    assert_eq!(other.label, "Store");
    assert_eq!(other.total_bytes, 0);
    assert_eq!(other.filesystem, "unknown");
}

#[test]
fn test_resolve_symlink_and_cross_ref() {
    let target = "/tmp/t/storage/models/v1-5.safetensors".to_string();
    let mut mapper = SymlinkMapper::new();
    let mut visited = VisitedDirs::new();
    let step = mapper.begin_entry(
        &mut visited,
        "v1-5.safetensors",
        EntryFacts::Link {
            link_canon: "/tmp/t/app/checkpoints/v1-5.safetensors".to_string(),
            target_canon: target.clone(),
            target_is_dir: false,
            target_exists: true,
        },
    );
    assert!(matches!(step, EntryStep::Attach { .. }));
    assert!(!mapper.mappings.is_empty());
    assert_eq!(mapper.mappings[0].target_path, target);

    let mut files = vec![file("f-0001", &target, vec![])];
    mapper.cross_reference_inventory(&mut files, &[target.clone()]);
    assert_eq!(files[0].symlinked_from.len(), 1);
    // A second cross-reference adds nothing.
    mapper.cross_reference_inventory(&mut files, &[target.clone()]);
    assert_eq!(files[0].symlinked_from.len(), 1);
}

#[test]
fn test_walk_decisions_and_cycles() {
    assert!(is_skipped_entry(".git"));
    assert!(is_skipped_entry("node_modules"));
    assert!(!is_skipped_entry("models"));
    assert!(may_descend(64));
    assert!(!may_descend(65));

    let mut mapper = SymlinkMapper::new();
    let mut visited = VisitedDirs::new();
    let mut root = SymlinkTreeNode::new();
    // A directory is walked once; met again on the path it is a cycle.
    let step = mapper.begin_entry(
        &mut visited,
        "dir_a",
        EntryFacts::Directory { path: "/r/dir_a".to_string(), canon: "/r/dir_a".to_string() },
    );
    let (dir, key, child, keep) = match step {
        EntryStep::Descend { dir, key, child, keep_empty } => (dir, key, child, keep_empty),
        _ => panic!("expected a descent"),
    };
    assert_eq!(dir, "/r/dir_a");
    assert!(!keep);
    let again = mapper.begin_entry(
        &mut visited,
        "link_a",
        EntryFacts::Link {
            link_canon: "/r/dir_a/link_a".to_string(),
            target_canon: "/r/dir_a".to_string(),
            target_is_dir: true,
            target_exists: true,
        },
    );
    assert!(matches!(again, EntryStep::Attach { .. }));
    // An empty plain directory is not kept in the tree.
    finish_descent(&mut visited, &mut root, "dir_a".to_string(), &key, child, keep);
    assert!(root.children.is_empty());
    assert_eq!(mapper.mappings.len(), 1);
    assert!(mapper.mappings[0].is_dir);
    assert!(!mapper.mappings[0].is_dangling);
}

#[test]
fn test_symlink_tree_roots() {
    let mut mapper = SymlinkMapper::new();
    mapper.add_root("/r".to_string(), SymlinkTreeNode::new());
    assert!(mapper.symlink_tree.is_empty());
    let mut node = SymlinkTreeNode::new();
    node.add_child("b".to_string(), SymlinkTreeNode::for_link(false, "/t/b".to_string()));
    node.add_child("a".to_string(), SymlinkTreeNode::for_link(true, "/t/a".to_string()));
    assert_eq!(node.children[0].0, "a");
    assert_eq!(node.children[0].1.node_type.as_deref(), Some("symlink_dir"));
    assert_eq!(node.children[1].1.node_type.as_deref(), Some("symlink_file"));
    mapper.add_root("/r".to_string(), node);
    assert_eq!(mapper.symlink_tree.len(), 1);
}

#[test]
fn test_detect_category_small_weights_are_embeddings() {
    assert_eq!(detect_category("models/x.pt", 10_000_000), Category::Embedding);
    assert_eq!(detect_category("models/x.safetensors", 19_999_999), Category::Embedding);
    assert_eq!(detect_category("models/x.bin", 1_000), Category::Embedding);
    assert_eq!(detect_category("models/x.bin", 5_000_000), Category::Embedding);
    assert_eq!(detect_category("models/x.bin", 5_000_001), Category::Other);
    assert_eq!(detect_category("models/x.safetensors", 20_000_000), Category::Lora);
    assert_eq!(detect_category("models/x.pt", 499_999_999), Category::Lora);
    assert_eq!(detect_category("models/x.pt", 500_000_000), Category::Other);
    assert_eq!(detect_category("models/x.bin", 30_000_000), Category::Other);
}

#[test]
fn test_timestamp_from_reading() {
    assert_eq!(timestamp_from_reading(Some((5, 7))), Some(Timestamp { secs: 5, nanos: 7 }));
    assert_eq!(
        timestamp_from_reading(Some((9_223_372_036_854_775_807, 999_999_999))),
        Some(Timestamp { secs: i64::MAX, nanos: 999_999_999 })
    );
    assert_eq!(timestamp_from_reading(Some((9_223_372_036_854_775_808, 0))), None);
    assert_eq!(timestamp_from_reading(None), None);
}
