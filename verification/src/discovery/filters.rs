//! Model file extensions, exclusion rules and category detection heuristics.

use vstd::prelude::*;
use super::file_info::Category;
use crate::text::{
    chars_eq_str, chars_of, contains_seq, contains_str, ends_with_seq, ends_with_str,
    lowercase_of, occurs_at, starts_with_seq, starts_with_str, string_of, to_lowercase,
};
use crate::utils::path_utils::{components, components_of, extension_of, file_name, file_name_of,
    split_extension};

verus! {

/// Whether an already lower-cased extension is one of the model extensions
/// (`safetensors`, `pt`, `pth`, `ckpt`, `bin`, `gguf`, `onnx`).
pub open spec fn is_model_ext_lower(e: Seq<char>) -> bool {
    e == "safetensors"@ || e == "pt"@ || e == "pth"@ || e == "ckpt"@ || e == "bin"@ || e
        == "gguf"@ || e == "onnx"@
}

/// Whether a lower-case extension is one of the model extensions.
pub fn is_model_extension_lower(e: &str) -> (r: bool)
    ensures
        r == is_model_ext_lower(e@),
{
    let c = chars_of(e);
    let c = c.as_slice();
    chars_eq_str(c, "safetensors") || chars_eq_str(c, "pt") || chars_eq_str(c, "pth")
        || chars_eq_str(c, "ckpt") || chars_eq_str(c, "bin") || chars_eq_str(c, "gguf")
        || chars_eq_str(c, "onnx")
}

/// Whether a file extension (in any case) is a supported model extension.
pub fn is_model_extension(ext: &str) -> (r: bool)
    ensures
        r == is_model_ext_lower(lowercase_of(ext@)),
{
    let l = to_lowercase(ext);
    is_model_extension_lower(l.as_str())
}

/// Whether a component names a directory that is never scanned.
pub open spec fn is_ignored_dir_name(c: Seq<char>) -> bool {
    c == ".git"@ || c == "node_modules"@ || c == "__pycache__"@
}

/// Whether a path is excluded from scanning: hidden files (name starting with
/// `.`), temporary downloads (`.tmp`, `.partial`, `.crdownload`) and anything
/// inside `.git`, `node_modules` or `__pycache__`.
pub open spec fn excluded(p: Seq<char>) -> bool {
    let name = match file_name_of(p) {
        Some(n) => n,
        None => Seq::empty(),
    };
    ||| starts_with_seq(name, seq!['.'])
    ||| ends_with_seq(name, ".tmp"@)
    ||| ends_with_seq(name, ".partial"@)
    ||| ends_with_seq(name, ".crdownload"@)
    ||| exists|i: int| 0 <= i < components(p).len() && is_ignored_dir_name(#[trigger] components(p)[i])
}

/// Whether a path should be skipped during scanning (see `excluded`).
pub fn should_exclude_path(path: &str) -> (r: bool)
    ensures
        r == excluded(path@),
{
    let p = chars_of(path);
    let name: Vec<char> = match file_name(p.as_slice()) {
        Some(n) => n,
        None => Vec::new(),
    };
    let n = name.as_slice();
    let ghost nm = match file_name_of(path@) {
        Some(x) => x,
        None => Seq::<char>::empty(),
    };
    assert(n@ == nm);
    proof {
        reveal_strlit(".");
        assert("."@ =~= seq!['.']);
    }
    if starts_with_str(n, ".") {
        return true;
    }
    if ends_with_str(n, ".tmp") || ends_with_str(n, ".partial") || ends_with_str(n, ".crdownload") {
        return true;
    }
    let comps = components_of(p.as_slice());
    let mut i: usize = 0;
    while i < comps.len()
        invariant
            i <= comps@.len(),
            comps@.len() == components(path@).len(),
            forall|k: int| 0 <= k < comps@.len() ==> #[trigger] comps@[k]@ == components(path@)[k],
            forall|k: int| 0 <= k < i ==> !is_ignored_dir_name(#[trigger] components(path@)[k]),
        decreases comps@.len() - i,
    {
        let c = comps[i].as_slice();
        if chars_eq_str(c, ".git") || chars_eq_str(c, "node_modules") || chars_eq_str(c, "__pycache__") {
            assert(is_ignored_dir_name(components(path@)[i as int]));
            return true;
        }
        i = i + 1;
    }
    false
}

/// The category chosen for a file from its lower-cased full path, lower-cased
/// file name, lower-cased extension and size. The rules are tried in order:
/// VAE, ControlNet, upscaler, embedding and LoRA by name; checkpoint by name or
/// size above 1 GiB; then embedding for `.pt`/`.safetensors` weights under
/// 20 MB and `.bin` weights up to 5 MB, and LoRA for `.pt`/`.safetensors`
/// weights under 500 MB.
pub open spec fn category_rules(full: Seq<char>, name: Seq<char>, ext: Seq<char>, size: nat) -> Category {
    if contains_seq(name, "vae"@) || contains_seq(full, "/vae/"@) || contains_seq(full, "\\vae\\"@) {
        Category::Vae
    } else if contains_seq(full, "controlnet"@) || contains_seq(full, "control_v"@)
        || starts_with_seq(name, "control_"@) {
        Category::Controlnet
    } else if contains_seq(full, "esrgan"@) || contains_seq(full, "realesrgan"@) || contains_seq(
        full,
        "swinir"@,
    ) || contains_seq(full, "upscaler"@) || contains_seq(full, "upscale_models"@) {
        Category::Upscaler
    } else if contains_seq(full, "embeddings"@) || contains_seq(full, "textual_inversion"@)
        || contains_seq(full, "embedding"@) {
        Category::Embedding
    } else if contains_seq(full, "/lora/"@) || contains_seq(full, "\\lora\\"@) || contains_seq(
        full,
        "/loras/"@,
    ) || contains_seq(full, "\\loras\\"@) || contains_seq(name, "lora"@) {
        Category::Lora
    } else if contains_seq(full, "checkpoints"@) || contains_seq(full, "stable-diffusion"@)
        || contains_seq(full, "diffusion_models"@) || contains_seq(full, "unet"@) || size
        > 1_073_741_824 {
        Category::Checkpoint
    } else if ((ext == "pt"@ || ext == "safetensors"@) && size < 20_000_000) || (ext == "bin"@ && size
        <= 5_000_000) {
        Category::Embedding
    } else if (ext == "safetensors"@ || ext == "pt"@) && size < 500_000_000 {
        Category::Lora
    } else {
        Category::Other
    }
}

/// A file whose lower-cased path contains `checkpoints` is never filed as
/// `Other`, and its category does not depend on its size: only the name and
/// path rules (VAE, ControlNet, upscaler, embedding, LoRA, then checkpoint)
/// decide it.
pub proof fn lemma_checkpoints_folder_decides(full: Seq<char>, name: Seq<char>, ext: Seq<char>, size: nat, other_size: nat)
    requires
        contains_seq(full, "checkpoints"@),
    ensures
        category_rules(full, name, ext, size) != Category::Other,
        category_rules(full, name, ext, size) == category_rules(full, name, ext, other_size),
{
}

/// A file under a `checkpoints` folder that no VAE, ControlNet, upscaler,
/// embedding or LoRA marker names is a checkpoint, whatever its size.
pub proof fn lemma_checkpoints_folder_is_checkpoint(full: Seq<char>, name: Seq<char>, ext: Seq<char>, size: nat)
    requires
        contains_seq(full, "checkpoints"@),
        !contains_seq(name, "vae"@),
        !contains_seq(full, "/vae/"@),
        !contains_seq(full, "\\vae\\"@),
        !contains_seq(full, "controlnet"@),
        !contains_seq(full, "control_v"@),
        !starts_with_seq(name, "control_"@),
        !contains_seq(full, "esrgan"@),
        !contains_seq(full, "swinir"@),
        !contains_seq(full, "upscaler"@),
        !contains_seq(full, "upscale_models"@),
        !contains_seq(full, "embedding"@),
        !contains_seq(full, "textual_inversion"@),
        !contains_seq(full, "/lora/"@),
        !contains_seq(full, "\\lora\\"@),
        !contains_seq(full, "/loras/"@),
        !contains_seq(full, "\\loras\\"@),
        !contains_seq(name, "lora"@),
    ensures
        category_rules(full, name, ext, size) == Category::Checkpoint,
{
    if contains_seq(full, "realesrgan"@) {
        reveal_strlit("realesrgan");
        reveal_strlit("esrgan");
        let i = choose|i: int| occurs_at(full, "realesrgan"@, i);
        let w = full.subrange(i, i + 10);
        assert(w == "realesrgan"@);
        assert(full.subrange(i + 4, i + 10) =~= w.subrange(4, 10));
        assert(w.subrange(4, 10) =~= "esrgan"@);
        assert(occurs_at(full, "esrgan"@, i + 4));
    }
    if contains_seq(full, "embeddings"@) {
        reveal_strlit("embeddings");
        reveal_strlit("embedding");
        let i = choose|i: int| occurs_at(full, "embeddings"@, i);
        let w = full.subrange(i, i + 10);
        assert(w == "embeddings"@);
        assert(full.subrange(i, i + 9) =~= w.subrange(0, 9));
        assert(w.subrange(0, 9) =~= "embedding"@);
        assert(occurs_at(full, "embedding"@, i));
    }
}

/// The category for already lower-cased path, file name and extension.
pub fn category_from_lowered(full: &str, name: &str, ext: &str, size_bytes: u64) -> (r: Category)
    ensures
        r == category_rules(full@, name@, ext@, size_bytes as nat),
        contains_seq(full@, "checkpoints"@) ==> r != Category::Other,
{
    proof {
        if contains_seq(full@, "checkpoints"@) {
            lemma_checkpoints_folder_decides(full@, name@, ext@, size_bytes as nat, 0);
        }
    }
    let fv = chars_of(full);
    let f = fv.as_slice();
    let nv = chars_of(name);
    let n = nv.as_slice();
    let ev = chars_of(ext);
    let e = ev.as_slice();
    if contains_str(n, "vae") || contains_str(f, "/vae/") || contains_str(f, "\\vae\\") {
        Category::Vae
    } else if contains_str(f, "controlnet") || contains_str(f, "control_v") || starts_with_str(
        n,
        "control_",
    ) {
        Category::Controlnet
    } else if contains_str(f, "esrgan") || contains_str(f, "realesrgan") || contains_str(f, "swinir")
        || contains_str(f, "upscaler") || contains_str(f, "upscale_models") {
        Category::Upscaler
    } else if contains_str(f, "embeddings") || contains_str(f, "textual_inversion") || contains_str(
        f,
        "embedding",
    ) {
        Category::Embedding
    } else if contains_str(f, "/lora/") || contains_str(f, "\\lora\\") || contains_str(f, "/loras/")
        || contains_str(f, "\\loras\\") || contains_str(n, "lora") {
        Category::Lora
    } else if contains_str(f, "checkpoints") || contains_str(f, "stable-diffusion") || contains_str(
        f,
        "diffusion_models",
    ) || contains_str(f, "unet") || size_bytes > 1_073_741_824 {
        Category::Checkpoint
    } else if ((chars_eq_str(e, "pt") || chars_eq_str(e, "safetensors")) && size_bytes < 20_000_000)
        || (chars_eq_str(e, "bin") && size_bytes <= 5_000_000) {
        Category::Embedding
    } else if (chars_eq_str(e, "safetensors") || chars_eq_str(e, "pt")) && size_bytes < 500_000_000 {
        Category::Lora
    } else {
        Category::Other
    }
}

/// The lower-cased file name of a path (empty when it has none).
pub open spec fn lowered_name(p: Seq<char>) -> Seq<char> {
    match file_name_of(p) {
        Some(n) => lowercase_of(n),
        None => Seq::empty(),
    }
}

/// The lower-cased extension of a path (empty when it has none).
pub open spec fn lowered_ext(p: Seq<char>) -> Seq<char> {
    match extension_of(p) {
        Some(e) => lowercase_of(e),
        None => Seq::empty(),
    }
}

/// Infer a model's category from its path and size (see `category_rules`).
pub fn detect_category(path: &str, size_bytes: u64) -> (r: Category)
    ensures
        r == category_rules(lowercase_of(path@), lowered_name(path@), lowered_ext(path@), size_bytes as nat),
{
    let full = to_lowercase(path);
    let p = chars_of(path);
    let (name, ext) = match file_name(p.as_slice()) {
        Some(n) => {
            let ns = string_of(n.as_slice());
            let nl = to_lowercase(ns.as_str());
            let (_stem, e) = split_extension(n.as_slice());
            let el = match e {
                Some(ev) => {
                    let es = string_of(ev.as_slice());
                    to_lowercase(es.as_str())
                },
                None => String::new(),
            };
            (nl, el)
        },
        None => (String::new(), String::new()),
    };
    category_from_lowered(full.as_str(), name.as_str(), ext.as_str(), size_bytes)
}

} // verus!
