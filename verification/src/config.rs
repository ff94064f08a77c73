//! The tool's settings (`disksort.json`) and their defaults.

use vstd::prelude::*;

verus! {

/// A configured mountpoint, with an optional label.
#[derive(Debug, Clone, PartialEq, Eq)]
pub struct ConfigMountpoint {
    pub path: String,
    pub label: Option<String>,
}

/// The tool's settings.
#[derive(Debug, Clone, PartialEq, Eq)]
pub struct DiskSortConfig {
    pub mountpoints: Vec<ConfigMountpoint>,
    pub app_roots: Vec<String>,
    pub file_extensions: Vec<String>,
    pub exclude_patterns: Vec<String>,
    pub output_dir: String,
    pub hash_algorithm: String,
    pub copy_buffer_size_mb: usize,
    pub verify_after_copy: bool,
    pub update_symlinks_after_move: bool,
}

/// The texts of a list of strings.
pub open spec fn texts(v: Seq<String>) -> Seq<Seq<char>> {
    v.map_values(|x: String| x@)
}

/// The model file extensions scanned by default.
pub open spec fn default_extensions_spec() -> Seq<Seq<char>> {
    seq!["safetensors"@, "pt"@, "pth"@, "ckpt"@, "bin"@, "gguf"@, "onnx"@]
}

/// The patterns excluded by default.
pub open spec fn default_exclude_patterns_spec() -> Seq<Seq<char>> {
    seq!["*.tmp"@, "*.partial"@, ".git/**"@]
}

/// A list of strings with the given texts, in order.
fn strings_of(items: &[&str]) -> (r: Vec<String>)
    ensures
        texts(r@) == items@.map_values(|s: &str| s@),
{
    let mut out: Vec<String> = Vec::new();
    let mut i: usize = 0;
    while i < items.len()
        invariant
            i <= items@.len(),
            texts(out@) == items@.take(i as int).map_values(|s: &str| s@),
        decreases items@.len() - i,
    {
        let ghost o = out@;
        out.push(items[i].to_owned());
        proof {
            assert(texts(out@) =~= texts(o).push(items@[i as int]@));
            assert(items@.take(i + 1).map_values(|s: &str| s@) =~= items@.take(i as int).map_values(|s: &str| s@).push(items@[i as int]@));
        }
        i = i + 1;
    }
    proof {
        assert(items@.take(items@.len() as int) =~= items@);
    }
    out
}

fn default_extensions() -> (r: Vec<String>)
    ensures
        texts(r@) == default_extensions_spec(),
{
    let items = ["safetensors", "pt", "pth", "ckpt", "bin", "gguf", "onnx"];
    let r = strings_of(&items);
    proof {
        assert(items@.map_values(|s: &str| s@) =~= default_extensions_spec());
    }
    r
}

fn default_exclude_patterns() -> (r: Vec<String>)
    ensures
        texts(r@) == default_exclude_patterns_spec(),
{
    let items = ["*.tmp", "*.partial", ".git/**"];
    let r = strings_of(&items);
    proof {
        assert(items@.map_values(|s: &str| s@) =~= default_exclude_patterns_spec());
    }
    r
}

fn default_output_dir() -> (r: String)
    ensures
        r@ == "./disksort_data"@,
{
    "./disksort_data".to_owned()
}

fn default_hash_algorithm() -> (r: String)
    ensures
        r@ == "blake3"@,
{
    "blake3".to_owned()
}

fn default_copy_buffer_size() -> (r: usize)
    ensures
        r == 8,
{
    8
}

fn default_true() -> (r: bool)
    ensures
        r,
{
    true
}

/// Whether `c` holds the default settings: no mountpoints or application
/// roots, the model extensions, the temporary-file and `.git` exclusions,
/// output under `./disksort_data`, BLAKE3 checksums, an 8 MB copy buffer,
/// and verification and link updates turned on.
pub open spec fn is_default_config(c: DiskSortConfig) -> bool {
    &&& c.mountpoints@.len() == 0
    &&& c.app_roots@.len() == 0
    &&& texts(c.file_extensions@) == default_extensions_spec()
    &&& texts(c.exclude_patterns@) == default_exclude_patterns_spec()
    &&& c.output_dir@ == "./disksort_data"@
    &&& c.hash_algorithm@ == "blake3"@
    &&& c.copy_buffer_size_mb == 8
    &&& c.verify_after_copy
    &&& c.update_symlinks_after_move
}

impl Default for DiskSortConfig {
    fn default() -> (r: DiskSortConfig)
        ensures
            is_default_config(r),
    {
        DiskSortConfig {
            mountpoints: Vec::new(),
            app_roots: Vec::new(),
            file_extensions: default_extensions(),
            exclude_patterns: default_exclude_patterns(),
            output_dir: default_output_dir(),
            hash_algorithm: default_hash_algorithm(),
            copy_buffer_size_mb: default_copy_buffer_size(),
            verify_after_copy: default_true(),
            update_symlinks_after_move: default_true(),
        }
    }
}

impl DiskSortConfig {
    /// The paths of the configured mountpoints, in order.
    pub fn mountpoint_paths(&self) -> (r: Vec<String>)
        ensures
            texts(r@) == self.mountpoints@.map_values(|m: ConfigMountpoint| m.path@),
    {
        let mut out: Vec<String> = Vec::new();
        let mut i: usize = 0;
        while i < self.mountpoints.len()
            invariant
                i <= self.mountpoints@.len(),
                texts(out@) == self.mountpoints@.take(i as int).map_values(|m: ConfigMountpoint| m.path@),
            decreases self.mountpoints@.len() - i,
        {
            let ghost o = out@;
            out.push(self.mountpoints[i].path.clone());
            proof {
                assert(texts(out@) =~= texts(o).push(self.mountpoints@[i as int].path@));
                assert(self.mountpoints@.take(i + 1).map_values(|m: ConfigMountpoint| m.path@)
                    =~= self.mountpoints@.take(i as int).map_values(|m: ConfigMountpoint| m.path@).push(self.mountpoints@[i as int].path@));
            }
            i = i + 1;
        }
        proof {
            assert(self.mountpoints@.take(self.mountpoints@.len() as int) =~= self.mountpoints@);
        }
        out
    }

    /// The configured application roots, in order.
    pub fn app_root_paths(&self) -> (r: Vec<String>)
        ensures
            texts(r@) == texts(self.app_roots@),
    {
        let mut out: Vec<String> = Vec::new();
        let mut i: usize = 0;
        while i < self.app_roots.len()
            invariant
                i <= self.app_roots@.len(),
                out@ == self.app_roots@.take(i as int),
            decreases self.app_roots@.len() - i,
        {
            out.push(self.app_roots[i].clone());
            proof {
                assert(self.app_roots@.take(i + 1) =~= self.app_roots@.take(i as int).push(self.app_roots@[i as int]));
            }
            i = i + 1;
        }
        proof {
            assert(self.app_roots@.take(self.app_roots@.len() as int) =~= self.app_roots@);
        }
        out
    }
}

} // verus!
