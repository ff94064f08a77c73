use savetensor_disksort::accounting::duplicates::find_duplicate_candidates;
use savetensor_disksort::accounting::size_tree::{build_folder_tree, FolderNode};
use savetensor_disksort::discovery::file_info::{Category, FileInfo, MountpointInfo};
use savetensor_disksort::discovery::file_info::Timestamp;
use savetensor_disksort::persistence::inventory::Inventory;

fn file(id: &str, real: &str, name: &str, cat: Category, size: u64, human: &str, mp: &str, rel: &str) -> FileInfo {
    FileInfo {
        id: id.into(),
        real_path: real.into(),
        filename: name.into(),
        extension: "safetensors".into(),
        category: cat,
        size_bytes: size,
        size_human: human.into(),
        blake3_hash: None,
        modified_at: None,
        mountpoint: mp.into(),
        relative_path: rel.into(),
        symlinked_from: vec![],
    }
}

fn child<'a>(n: &'a FolderNode, name: &str) -> &'a FolderNode {
    &n.children.iter().find(|(k, _)| k == name).unwrap().1
}

#[test]
fn test_find_duplicates() {
    let files = vec![
        file("f-0001", "/mnt/nvme0/models/v1-5.safetensors", "v1-5.safetensors", Category::Checkpoint, 4_000_000_000, "3.73 GB", "/mnt/nvme0", "models/v1-5.safetensors"),
        file("f-0002", "/mnt/usbc1/backup/v1-5.safetensors", "v1-5.safetensors", Category::Checkpoint, 4_000_000_000, "3.73 GB", "/mnt/usbc1", "backup/v1-5.safetensors"),
        file("f-0003", "/mnt/nvme0/lora/detail.safetensors", "detail.safetensors", Category::Lora, 50_000_000, "47.7 MB", "/mnt/nvme0", "lora/detail.safetensors"),
        file("f-0004", "/mnt/usbc1/diff_size/v1-5.safetensors", "v1-5.safetensors", Category::Checkpoint, 2_000_000_000, "1.86 GB", "/mnt/usbc1", "diff_size/v1-5.safetensors"),
    ];

    let dupes = find_duplicate_candidates(&files);
    assert_eq!(dupes.len(), 1);
    assert_eq!(dupes[0].filename, "v1-5.safetensors");
    assert_eq!(dupes[0].file_ids.len(), 2);
    assert_eq!(dupes[0].file_ids, vec!["f-0001", "f-0002"]);
}

#[test]
fn test_duplicate_groups_largest_first() {
    let files = vec![
        file("f-0001", "/a/s.pt", "s.pt", Category::Other, 10, "10 B", "/a", "s.pt"),
        file("f-0002", "/b/s.pt", "s.pt", Category::Other, 10, "10 B", "/b", "s.pt"),
        file("f-0003", "/a/big.pt", "big.pt", Category::Other, 5000, "4.9 KB", "/a", "big.pt"),
        file("f-0004", "/b/big.pt", "big.pt", Category::Other, 5000, "4.9 KB", "/b", "big.pt"),
        file("f-0005", "/c/big.pt", "big.pt", Category::Other, 5000, "4.9 KB", "/c", "big.pt"),
    ];
    let dupes = find_duplicate_candidates(&files);
    assert_eq!(dupes.len(), 2);
    assert_eq!(dupes[0].filename, "big.pt");
    assert_eq!(dupes[0].size_human, "4.9 KB");
    assert_eq!(dupes[0].paths, vec!["/a/big.pt", "/b/big.pt", "/c/big.pt"]);
    assert_eq!(dupes[1].file_ids, vec!["f-0001", "f-0002"]);
    assert!(dupes[0].confirmed_hash.is_none());
}

#[test]
fn test_aggregate_sizes() {
    let files = vec![
        file("f-0001", "/mnt/nvme0/models/sd/v1-5.safetensors", "v1-5.safetensors", Category::Checkpoint, 4_000_000_000, "3.73 GB", "/mnt/nvme0", "models/sd/v1-5.safetensors"),
        file("f-0002", "/mnt/nvme0/models/lora/detail.safetensors", "detail.safetensors", Category::Lora, 100_000_000, "95.4 MB", "/mnt/nvme0", "models/lora/detail.safetensors"),
    ];

    let tree = build_folder_tree(&files);
    assert!(tree.iter().any(|(k, _)| k == "/mnt/nvme0"));

    let root = &tree.iter().find(|(k, _)| k == "/mnt/nvme0").unwrap().1;
    assert_eq!(root.size_bytes, 4_100_000_000);
    assert_eq!(root.file_count, 2);

    let models = child(root, "models");
    assert_eq!(models.size_bytes, 4_100_000_000);
    assert_eq!(models.file_count, 2);

    let sd = child(models, "sd");
    assert_eq!(sd.size_bytes, 4_000_000_000);
    assert_eq!(sd.file_count, 1);

    let lora = child(models, "lora");
    assert_eq!(lora.size_bytes, 100_000_000);
    assert_eq!(lora.file_count, 1);
}

#[test]
fn test_folder_tree_orders_and_formats() {
    let files = vec![
        file("f-0001", "/m2/x.pt", "x.pt", Category::Other, 2048, "2.0 KB", "/m2", "x.pt"),
        file("f-0002", "/m1/b/y.pt", "y.pt", Category::Other, 1024, "1.0 KB", "/m1", "b/y.pt"),
        file("f-0003", "/m1/a/z.pt", "z.pt", Category::Other, 1024, "1.0 KB", "/m1", "//a//z.pt"),
    ];
    let tree = build_folder_tree(&files);
    assert_eq!(tree.len(), 2);
    assert_eq!(tree[0].0, "/m1");
    assert_eq!(tree[1].0, "/m2");
    assert_eq!(tree[0].1.size_human, "2.0 KB");
    assert_eq!(tree[0].1.children[0].0, "a");
    assert_eq!(tree[0].1.children[1].0, "b");
    assert_eq!(tree[1].1.file_count, 1);
    assert!(tree[1].1.children.is_empty());
}

#[test]
fn test_insert_and_aggregate_node() {
    let mut n = FolderNode::new();
    n.insert_file(&["a", "b"], 10);
    n.insert_file(&["a"], 5);
    n.insert_file(&[], 1);
    n.aggregate();
    assert_eq!(n.size_bytes, 16);
    assert_eq!(n.file_count, 3);
    assert_eq!(n.size_human, "16 B");
    assert_eq!(child(&n, "a").size_bytes, 15);
    assert_eq!(child(child(&n, "a"), "b").file_count, 1);
}

#[test]
fn test_inventory_summary() {
    let files = vec![
        file("f-0001", "/m1/a.pt", "a.pt", Category::Lora, 1024, "1.0 KB", "/m1", "a.pt"),
        file("f-0002", "/m2/a.pt", "a.pt", Category::Lora, 1024, "1.0 KB", "/m2", "a.pt"),
        file("f-0003", "/m1/c.pt", "c.pt", Category::Checkpoint, 2048, "2.0 KB", "/m1", "c.pt"),
    ];
    let mps = vec![MountpointInfo {
        path: "/m1".into(),
        label: "m1".into(),
        total_bytes: 10,
        free_bytes: 5,
        filesystem: "ext4".into(),
    }];
    let inv = Inventory::build_at(mps, files, vec![], Timestamp { secs: 7, nanos: 0 });
    assert_eq!(inv.version, 1);
    assert_eq!(inv.scan_timestamp, Timestamp { secs: 7, nanos: 0 });
    assert_eq!(inv.summary.total_files, 3);
    assert_eq!(inv.summary.total_size_bytes, 4096);
    assert_eq!(inv.summary.total_size_human, "4.0 KB");
    assert_eq!(inv.summary.duplicate_candidates, 1);
    let cats: Vec<(&str, usize, &str)> =
        inv.summary.by_category.iter().map(|(k, v)| (k.as_str(), v.count, v.size_human.as_str())).collect();
    assert_eq!(cats, vec![("checkpoint", 1, "2.0 KB"), ("lora", 2, "2.0 KB")]);
    let mps: Vec<(&str, usize, &str)> =
        inv.summary.by_mountpoint.iter().map(|(k, v)| (k.as_str(), v.count, v.size_human.as_str())).collect();
    assert_eq!(mps, vec![("/m1", 2, "3.0 KB"), ("/m2", 1, "1.0 KB")]);
    assert_eq!(inv.folder_tree.len(), 2);
}

#[test]
fn test_inventory_empty() {
    let inv = Inventory::build(vec![], vec![], vec![]).unwrap();
    assert_eq!(inv.version, 1);
    assert_eq!(inv.summary.total_files, 0);
    assert_eq!(inv.summary.total_size_human, "0 B");
    assert!(inv.summary.by_category.is_empty());
    assert!(inv.folder_tree.is_empty());
}
