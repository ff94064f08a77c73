pub mod human_size;
pub mod path_utils;
pub mod hash;

pub use hash::{hash_bytes, hash_matches, HashAccumulator};
pub use human_size::{format_bytes, parse_human_size};
pub use path_utils::{
    find_matching_mountpoint, get_relative_path, lexical_clean, normalize_path,
};
