use savetensor_disksort::utils::hash::{hash_bytes, hash_matches, HashAccumulator};
use savetensor_disksort::utils::human_size::{format_bytes, parse_human_size};
use savetensor_disksort::utils::path_utils::{
    find_matching_mountpoint, get_relative_path, lexical_clean, normalize_path,
};

const TB: u64 = 1024 * 1024 * 1024 * 1024;

#[test]
fn test_format_bytes() {
    assert_eq!(format_bytes(0), "0 B");
    assert_eq!(format_bytes(847), "847 B");
    assert_eq!(format_bytes(1024), "1.0 KB");
    assert_eq!(format_bytes(4300), "4.2 KB");
    assert_eq!(format_bytes(134_742_016), "128.5 MB");
    assert_eq!(format_bytes(4_265_380_864), "3.97 GB");
    assert_eq!(format_bytes(1_363_394_412_544), "1.24 TB");
}

#[test]
fn test_parse_human_size() {
    assert_eq!(parse_human_size("847 B").unwrap(), 847);
    assert_eq!(parse_human_size("1.0 KB").unwrap(), 1024);
    assert_eq!(parse_human_size("4.2 KB").unwrap(), 4301);
    assert_eq!(parse_human_size("128.5 MB").unwrap(), 134_742_016);
    assert_eq!(parse_human_size("3.97 GB").unwrap(), 4_262_755_041);
    assert_eq!(parse_human_size("1 TB").unwrap(), TB);
}

#[test]
fn test_normalize_path() {
    assert_eq!(normalize_path("models/sd/v1-5.safetensors"), "models/sd/v1-5.safetensors");
    assert_eq!(normalize_path(r"C:\mount\models\test.pt"), "C:/mount/models/test.pt");
}

#[test]
fn test_matching_mountpoint() {
    let base = "/tmp/base";
    let mp1 = format!("{}/mnt/drive1", base);
    let mp2 = format!("{}/mnt/drive1_usb", base);
    let mp3 = format!("{}/mnt/drive2", base);
    let mountpoints = vec![mp1.clone(), mp2.clone(), mp3.clone()];

    let file1 = format!("{}/models/sd.safetensors", mp1);
    assert_eq!(find_matching_mountpoint(&file1, &mountpoints), Some(0));

    let file2 = format!("{}/models/lora.safetensors", mp2);
    assert_eq!(find_matching_mountpoint(&file2, &mountpoints), Some(1));

    let rel = get_relative_path(&file1, &mp1);
    assert_eq!(normalize_path(&rel), "models/sd.safetensors");
}

#[test]
fn test_format_bytes_boundaries_and_rounding() {
    assert_eq!(format_bytes(1023), "1023 B");
    // 1280 / 1024 = 1.25 exactly: ties go to the even digit, as `{:.1}` does.
    assert_eq!(format_bytes(1280), "1.2 KB");
    assert_eq!(format_bytes(1024 * 1024 - 1), "1024.0 KB");
    assert_eq!(format_bytes(1024 * 1024), "1.0 MB");
    assert_eq!(format_bytes(1024 * 1024 * 1024), "1.00 GB");
    assert_eq!(format_bytes(TB), "1.00 TB");
}

#[test]
fn test_parse_human_size_units_and_errors() {
    assert_eq!(parse_human_size("500MB").unwrap(), 500 * 1024 * 1024);
    assert_eq!(parse_human_size("  2 kib ").unwrap(), 2048);
    assert_eq!(parse_human_size("1024").unwrap(), 1024);
    assert_eq!(parse_human_size("1.5 bytes").unwrap(), 2);
    assert_eq!(parse_human_size("").unwrap_err(), "Empty size string");
    assert_eq!(parse_human_size("   ").unwrap_err(), "Empty size string");
    assert_eq!(parse_human_size("-1 KB").unwrap_err(), "Size cannot be negative");
    assert_eq!(parse_human_size("12 PB").unwrap_err(), "Unknown size unit 'PB'");
    assert_eq!(
        parse_human_size("1.2.3 KB").unwrap_err(),
        "Invalid number '1.2.3': invalid float literal"
    );
    assert_eq!(
        parse_human_size("KB").unwrap_err(),
        "Invalid number '': cannot parse float from empty string"
    );
    assert_eq!(parse_human_size("99999999 TB").unwrap_err(), "Size overflow");
}

#[test]
fn test_format_then_parse_close() {
    // Formatting loses precision; parsing the text gives back a nearby size.
    let text = format_bytes(4_265_380_864);
    assert_eq!(text, "3.97 GB");
    assert_eq!(parse_human_size(&text).unwrap(), 4_262_755_041);
}

#[test]
fn test_lexical_clean() {
    assert_eq!(lexical_clean("/a/./b/../c"), "/a/c");
    assert_eq!(lexical_clean("a/b/.."), "a");
    assert_eq!(lexical_clean("/.."), "/");
}

#[test]
fn test_relative_path_outside_mountpoint() {
    assert_eq!(get_relative_path("/x/y/z.pt", "/a"), "/x/y/z.pt");
    assert_eq!(get_relative_path("/a/b/c.pt", "/a"), "b/c.pt");
    assert_eq!(find_matching_mountpoint("/x/y/z.pt", &["/a".to_string()]), None);
}

#[test]
fn test_hash_empty_file() {
    let hash = hash_bytes(b"");
    let expected = blake3::hash(b"").to_hex().to_string();
    assert_eq!(hash, expected);
}

#[test]
fn test_hash_known_content() {
    let data = b"SaveTensor DiskSort Test Content 123456";
    let hash = hash_bytes(data);
    let expected = blake3::hash(data).to_hex().to_string();
    assert_eq!(hash, expected);
    assert!(hash_matches(&hash, &expected));
    assert!(!hash_matches(&hash, "0000000000000000"));
}

#[test]
fn test_hash_with_progress() {
    let data = vec![42u8; 1024 * 1024];
    let mut acc = HashAccumulator::new();
    let mut max_progress = 0u64;
    for chunk in data.chunks(100_000) {
        let p = acc.feed(chunk);
        if p > max_progress {
            max_progress = p;
        }
    }
    let expected = blake3::hash(&data).to_hex().to_string();
    assert_eq!(acc.finish(), expected);
    assert_eq!(max_progress, data.len() as u64);
    assert_eq!(acc.processed(), data.len() as u64);
}

#[test]
fn test_hash_matches_ignores_case_and_spaces() {
    let hash = hash_bytes(b"abc");
    let upper = format!("  {}\n", hash.to_uppercase());
    assert!(hash_matches(&hash, &upper));
    assert_ne!(hash_bytes(b"abc"), hash_bytes(b"abd"));
}

#[test]
fn test_normalize_path_twice_is_once() {
    for p in [r"\\?\C:\models\a.pt", r"C:\x\y", "a/b", r"\\?\\\?\z"] {
        let once = normalize_path(p);
        assert_eq!(normalize_path(&once), once);
    }
    assert_eq!(normalize_path(r"\\?\C:\models\a.pt"), "C:/models/a.pt");
}
