pub mod file_info;
pub mod filters;
pub mod walker;
pub mod symlink_mapper;

pub use file_info::{Category, FileInfo, MountpointInfo, Timestamp};
pub use filters::{detect_category, is_model_extension, should_exclude_path};
