//! Data models for discovered model files, categories and mountpoints.

use vstd::prelude::*;
use crate::text::{chars_eq_str, chars_of, to_lowercase, lowercase_of};

verus! {

/// Supported model file categories.
#[derive(Debug, Clone, Copy, PartialEq, Eq, Hash, Structural)]
pub enum Category {
    Checkpoint,
    Lora,
    Embedding,
    Vae,
    Controlnet,
    Upscaler,
    Other,
}

/// The lowercase name of a category.
pub open spec fn category_name(c: Category) -> Seq<char> {
    match c {
        Category::Checkpoint => "checkpoint"@,
        Category::Lora => "lora"@,
        Category::Embedding => "embedding"@,
        Category::Vae => "vae"@,
        Category::Controlnet => "controlnet"@,
        Category::Upscaler => "upscaler"@,
        Category::Other => "other"@,
    }
}

/// The category named by an already lower-cased word, with its accepted
/// synonyms.
pub open spec fn category_from_lower(l: Seq<char>) -> Option<Category> {
    if l == "checkpoint"@ || l == "checkpoints"@ || l == "model"@ || l == "models"@ {
        Some(Category::Checkpoint)
    } else if l == "lora"@ || l == "loras"@ {
        Some(Category::Lora)
    } else if l == "embedding"@ || l == "embeddings"@ || l == "textual_inversion"@ {
        Some(Category::Embedding)
    } else if l == "vae"@ {
        Some(Category::Vae)
    } else if l == "controlnet"@ {
        Some(Category::Controlnet)
    } else if l == "upscaler"@ || l == "upscalers"@ || l == "esrgan"@ {
        Some(Category::Upscaler)
    } else if l == "other"@ || l == "misc"@ {
        Some(Category::Other)
    } else {
        None
    }
}

impl Category {
    /// The lowercase name of the category.
    pub fn as_str(&self) -> (r: &'static str)
        ensures
            r@ == category_name(*self),
    {
        match self {
            Category::Checkpoint => "checkpoint",
            Category::Lora => "lora",
            Category::Embedding => "embedding",
            Category::Vae => "vae",
            Category::Controlnet => "controlnet",
            Category::Upscaler => "upscaler",
            Category::Other => "other",
        }
    }

    /// The category named by a lower-case word (or one of its synonyms).
    pub fn from_lowercase(l: &str) -> (r: Option<Category>)
        ensures
            r == category_from_lower(l@),
    {
        let c = chars_of(l);
        let c = c.as_slice();
        if chars_eq_str(c, "checkpoint") || chars_eq_str(c, "checkpoints") || chars_eq_str(c, "model")
            || chars_eq_str(c, "models") {
            Some(Category::Checkpoint)
        } else if chars_eq_str(c, "lora") || chars_eq_str(c, "loras") {
            Some(Category::Lora)
        } else if chars_eq_str(c, "embedding") || chars_eq_str(c, "embeddings") || chars_eq_str(
            c,
            "textual_inversion",
        ) {
            Some(Category::Embedding)
        } else if chars_eq_str(c, "vae") {
            Some(Category::Vae)
        } else if chars_eq_str(c, "controlnet") {
            Some(Category::Controlnet)
        } else if chars_eq_str(c, "upscaler") || chars_eq_str(c, "upscalers") || chars_eq_str(
            c,
            "esrgan",
        ) {
            Some(Category::Upscaler)
        } else if chars_eq_str(c, "other") || chars_eq_str(c, "misc") {
            Some(Category::Other)
        } else {
            None
        }
    }

    /// The category named by `s`, compared after lower-casing.
    pub fn parse(s: &str) -> (r: Option<Category>)
        ensures
            r == category_from_lower(lowercase_of(s@)),
    {
        let l = to_lowercase(s);
        Category::from_lowercase(l.as_str())
    }
}

/// Every category's name maps back to that category.
pub proof fn lemma_category_name_round_trip(c: Category)
    ensures
        category_from_lower(category_name(c)) == Some(c),
{
    reveal_strlit("checkpoint");
    reveal_strlit("checkpoints");
    reveal_strlit("model");
    reveal_strlit("models");
    reveal_strlit("lora");
    reveal_strlit("loras");
    reveal_strlit("embedding");
    reveal_strlit("embeddings");
    reveal_strlit("textual_inversion");
    reveal_strlit("vae");
    reveal_strlit("controlnet");
    reveal_strlit("upscaler");
    reveal_strlit("upscalers");
    reveal_strlit("esrgan");
    reveal_strlit("other");
    reveal_strlit("misc");
    let n = category_name(c);
    assert(n.len() == 3 ==> n[0] == 'v');
    match c {
        Category::Checkpoint => {
            assert(n =~= "checkpoint"@);
        },
        Category::Lora => {
            assert(n != "checkpoint"@ && n != "checkpoints"@ && n != "model"@ && n != "models"@) by {
                assert(n.len() == 4);
                assert(n[0] == 'l' && "model"@[0] == 'm');
            }
        },
        Category::Embedding => {
            assert(n.len() == 9);
            assert(n[0] == 'e' && "checkpoint"@[0] == 'c' && "model"@[0] == 'm' && "loras"@[0] == 'l');
        },
        Category::Vae => {
            assert(n.len() == 3);
            assert(n[0] == 'v');
        },
        Category::Controlnet => {
            assert(n.len() == 10);
            assert(n[1] == 'o' && "checkpoint"@[1] == 'h');
        },
        Category::Upscaler => {
            assert(n.len() == 8);
            assert(n[0] == 'u' && "controlnet"@[0] == 'c' && "checkpoint"@[0] == 'c');
        },
        Category::Other => {
            assert(n.len() == 5);
            assert(n[0] == 'o' && "model"@[0] == 'm' && "loras"@[0] == 'l' && "esrgan"@[0] == 'e');
        },
    }
}

/// A point in time: seconds since the Unix epoch (UTC) and nanoseconds.
#[derive(Debug, Clone, Copy, PartialEq, Eq, Structural)]
pub struct Timestamp {
    pub secs: i64,
    pub nanos: u32,
}

/// Calls `SystemTime::elapsed` on `std::time::UNIX_EPOCH`: the time since the
/// epoch as whole seconds and the nanoseconds beyond them, or `None` when the
/// system clock reads a time before the epoch. The reading depends on the
/// clock, so only that the nanoseconds stay under one second is stated.
#[verifier::external_body]
fn clock_since_epoch() -> (r: Option<(u64, u32)>)
    ensures
        r matches Some(p) ==> p.1 < 1_000_000_000,
{
    match std::time::UNIX_EPOCH.elapsed() {
        Ok(d) => Some((d.as_secs(), d.subsec_nanos())),
        Err(_) => None,
    }
}

/// The timestamp of a clock reading (whole seconds since the epoch and the
/// nanoseconds beyond them): `None` for no reading, or for seconds beyond
/// what `i64` holds.
pub open spec fn reading_timestamp(reading: Option<(u64, u32)>) -> Option<Timestamp> {
    match reading {
        Some((s, n)) => if s <= 9_223_372_036_854_775_807u64 {
            Some(Timestamp { secs: s as i64, nanos: n })
        } else {
            None
        },
        None => None,
    }
}

/// Converts a clock reading into a timestamp (see `reading_timestamp`).
pub fn timestamp_from_reading(reading: Option<(u64, u32)>) -> (r: Option<Timestamp>)
    ensures
        r == reading_timestamp(reading),
{
    match reading {
        Some((secs, nanos)) => {
            if secs <= 9_223_372_036_854_775_807u64 {
                Some(Timestamp { secs: secs as i64, nanos })
            } else {
                None
            }
        },
        None => None,
    }
}

/// The current time, or `None` when the system clock cannot be read as a
/// time since the epoch (it reads earlier, or later than `i64` seconds hold).
pub(crate) fn now() -> (r: Option<Timestamp>)
    ensures
        r matches Some(t) ==> t.secs >= 0 && t.nanos < 1_000_000_000,
{
    timestamp_from_reading(clock_since_epoch())
}

/// Metadata for a mounted storage drive or directory.
#[derive(Debug, Clone, PartialEq, Eq)]
pub struct MountpointInfo {
    pub path: String,
    pub label: String,
    pub total_bytes: u64,
    pub free_bytes: u64,
    pub filesystem: String,
}

/// A real (non-symlink) model file with its physical location and metadata.
#[derive(Debug, Clone, PartialEq, Eq)]
pub struct FileInfo {
    pub id: String,
    pub real_path: String,
    pub filename: String,
    pub extension: String,
    pub category: Category,
    pub size_bytes: u64,
    pub size_human: String,
    pub blake3_hash: Option<String>,
    pub modified_at: Option<Timestamp>,
    pub mountpoint: String,
    pub relative_path: String,
    pub symlinked_from: Vec<String>,
}

} // verus!
