//! Sort plan data, destination templates, capacity analysis and plan generation.

use vstd::prelude::*;
use crate::discovery::file_info::{now, Category, FileInfo, Timestamp};
use crate::text::{chars_eq, chars_of, contains_seq, contains_str, extend_chars, extend_str, lowercase_of, string_of, to_lowercase};
use crate::utils::human_size::{zero_padded, zero_padded_chars};
use crate::utils::path_utils::{components, components_of, is_rooted, join, join_path, normalize_chars, normalized, path_starts_with, starts_with_path};
use super::conflict::{free_destination, generate_unique_destination, lemma_seq_has_view};
use crate::utils::path_utils::lemma_normalize_idempotent;

verus! {

/// Action to perform for a file during plan execution.
#[derive(Debug, Clone, Copy, PartialEq, Eq, Structural)]
pub enum PlanAction {
    Move,
    Copy,
    Skip,
    DeleteDuplicate,
}

/// Execution status of an individual operation.
#[derive(Debug, Clone, Copy, PartialEq, Eq, Structural)]
pub enum OpStatus {
    Pending,
    InProgress,
    Completed,
    Failed,
    Skipped,
}

/// A single planned relocation or copy operation.
#[derive(Debug, Clone, PartialEq, Eq)]
pub struct SortOperation {
    pub op_id: String,
    pub action: PlanAction,
    pub source: String,
    pub destination: String,
    pub file_id: String,
    pub size_bytes: u64,
    pub size_human: String,
    pub selected: bool,
    pub status: OpStatus,
    pub symlinks_to_update: Vec<String>,
    pub error_message: Option<String>,
}

/// Space usage and capacity validation results. `source_drives_freed` lists
/// each source drive key once, in order of first appearance, with the bytes
/// the plan frees on it.
#[derive(Debug, Clone, PartialEq, Eq)]
pub struct SpaceAnalysis {
    pub target_drive_free_before: u64,
    pub total_move_size: u64,
    pub target_drive_free_after: u64,
    pub source_drives_freed: Vec<(String, u64)>,
    pub fits: bool,
}

/// Supported destination directory templates.
#[derive(Debug, Clone, Copy, PartialEq, Eq, Structural)]
pub enum PlanTemplate {
    ByType,
    ByTypeAndBase,
    Flat,
    PreserveStructure,
}

/// The template named by an already lower-cased word.
pub open spec fn template_from_lower(l: Seq<char>) -> Option<PlanTemplate> {
    if l == "by-type"@ || l == "by_type"@ || l == "type"@ {
        Some(PlanTemplate::ByType)
    } else if l == "by-type-and-base"@ || l == "by_type_and_base"@ || l == "base"@ {
        Some(PlanTemplate::ByTypeAndBase)
    } else if l == "flat"@ {
        Some(PlanTemplate::Flat)
    } else if l == "preserve"@ || l == "preserve-structure"@ || l == "relative"@ {
        Some(PlanTemplate::PreserveStructure)
    } else {
        None
    }
}

impl PlanTemplate {
    /// The template named by a lower-case word (or a synonym).
    pub fn from_lowercase(l: &str) -> (r: Option<PlanTemplate>)
        ensures
            r == template_from_lower(l@),
    {
        let cv = chars_of(l);
        let c = cv.as_slice();
        if chars_eq(c, chars_of("by-type").as_slice()) || chars_eq(c, chars_of("by_type").as_slice())
            || chars_eq(c, chars_of("type").as_slice()) {
            Some(PlanTemplate::ByType)
        } else if chars_eq(c, chars_of("by-type-and-base").as_slice()) || chars_eq(
            c,
            chars_of("by_type_and_base").as_slice(),
        ) || chars_eq(c, chars_of("base").as_slice()) {
            Some(PlanTemplate::ByTypeAndBase)
        } else if chars_eq(c, chars_of("flat").as_slice()) {
            Some(PlanTemplate::Flat)
        } else if chars_eq(c, chars_of("preserve").as_slice()) || chars_eq(
            c,
            chars_of("preserve-structure").as_slice(),
        ) || chars_eq(c, chars_of("relative").as_slice()) {
            Some(PlanTemplate::PreserveStructure)
        } else {
            None
        }
    }

    /// The template named by `s`, compared after lower-casing.
    pub fn parse(s: &str) -> (r: Option<PlanTemplate>)
        ensures
            r == template_from_lower(lowercase_of(s@)),
    {
        let l = to_lowercase(s);
        PlanTemplate::from_lowercase(l.as_str())
    }
}

/// The base architecture inferred from a lower-cased name and path.
pub open spec fn base_model_rules(l: Seq<char>) -> Seq<char> {
    if contains_seq(l, "flux"@) {
        "flux"@
    } else if contains_seq(l, "pony"@) {
        "pony"@
    } else if contains_seq(l, "sdxl"@) || contains_seq(l, "xl_"@) || contains_seq(l, "-xl"@) {
        "sdxl"@
    } else if contains_seq(l, "sd3"@) || contains_seq(l, "sd_3"@) {
        "sd3"@
    } else if contains_seq(l, "sd15"@) || contains_seq(l, "sd1.5"@) || contains_seq(l, "v1-5"@)
        || contains_seq(l, "v1.5"@) || contains_seq(l, "1.5"@) {
        "sd15"@
    } else {
        "general"@
    }
}

/// The base architecture for an already lower-cased "name path" text.
pub fn base_model_from_lower(l: &str) -> (r: &'static str)
    ensures
        r@ == base_model_rules(l@),
{
    let cv = chars_of(l);
    let c = cv.as_slice();
    if contains_str(c, "flux") {
        "flux"
    } else if contains_str(c, "pony") {
        "pony"
    } else if contains_str(c, "sdxl") || contains_str(c, "xl_") || contains_str(c, "-xl") {
        "sdxl"
    } else if contains_str(c, "sd3") || contains_str(c, "sd_3") {
        "sd3"
    } else if contains_str(c, "sd15") || contains_str(c, "sd1.5") || contains_str(c, "v1-5")
        || contains_str(c, "v1.5") || contains_str(c, "1.5") {
        "sd15"
    } else {
        "general"
    }
}

/// The text inspected for the base architecture: the file name and the
/// relative path separated by a space, lower-cased.
pub open spec fn base_model_text(filename: Seq<char>, relative_path: Seq<char>) -> Seq<char> {
    lowercase_of(filename + seq![' '] + relative_path)
}

/// Infer the base model architecture (flux, pony, sdxl, sd3, sd15 or general)
/// from a file name and relative path.
pub fn detect_base_model(filename: &str, relative_path: &str) -> (r: &'static str)
    ensures
        r@ == base_model_rules(base_model_text(filename@, relative_path@)),
{
    let mut text = chars_of(filename);
    text.push(' ');
    extend_str(&mut text, relative_path);
    assert(text@ =~= filename@ + seq![' '] + relative_path@);
    let ts = string_of(text.as_slice());
    let l = to_lowercase(ts.as_str());
    base_model_from_lower(l.as_str())
}

/// The folder of a category in the `by-type` layout.
pub open spec fn category_folder(c: Category) -> Seq<char> {
    match c {
        Category::Checkpoint => "models/checkpoints"@,
        Category::Lora => "models/loras"@,
        Category::Embedding => "models/embeddings"@,
        Category::Vae => "models/vae"@,
        Category::Controlnet => "models/controlnet"@,
        Category::Upscaler => "models/upscaler"@,
        Category::Other => "models/other"@,
    }
}

/// The folder of a category in the `by-type-and-base` layout.
pub open spec fn category_base_folder(c: Category, base: Seq<char>) -> Seq<char> {
    match c {
        Category::Checkpoint => "models/checkpoints/"@ + base,
        Category::Lora => "models/loras/"@ + base,
        Category::Embedding => "models/embeddings/"@ + base,
        _ => category_folder(c),
    }
}

/// The destination of a file relative to the target drive.
pub open spec fn destination_rel(file: FileInfo, template: PlanTemplate) -> Seq<char> {
    match template {
        PlanTemplate::ByType => join_path(category_folder(file.category), file.filename@),
        PlanTemplate::ByTypeAndBase => join_path(
            category_base_folder(
                file.category,
                base_model_rules(base_model_text(file.filename@, file.relative_path@)),
            ),
            file.filename@,
        ),
        PlanTemplate::Flat => join_path("models"@, file.filename@),
        PlanTemplate::PreserveStructure => file.relative_path@,
    }
}

/// Under `by-type-and-base`, a checkpoint, LoRA or embedding goes one folder
/// deeper than under `by-type`: into the sub-folder named by its detected
/// base model (`detect_base_model` of its name and relative path); every
/// other category goes where `by-type` puts it.
pub proof fn lemma_base_template_adds_base_folder(file: FileInfo)
    ensures
        (file.category == Category::Checkpoint || file.category == Category::Lora || file.category
            == Category::Embedding) ==> destination_rel(file, PlanTemplate::ByTypeAndBase) == join_path(
            category_folder(file.category) + seq!['/'] + base_model_rules(
                base_model_text(file.filename@, file.relative_path@),
            ),
            file.filename@,
        ),
        !(file.category == Category::Checkpoint || file.category == Category::Lora || file.category
            == Category::Embedding) ==> destination_rel(file, PlanTemplate::ByTypeAndBase)
            == destination_rel(file, PlanTemplate::ByType),
        destination_rel(file, PlanTemplate::ByType) == join_path(category_folder(file.category), file.filename@),
{
    reveal_strlit("models/checkpoints/");
    reveal_strlit("models/checkpoints");
    reveal_strlit("models/loras/");
    reveal_strlit("models/loras");
    reveal_strlit("models/embeddings/");
    reveal_strlit("models/embeddings");
    let b = base_model_rules(base_model_text(file.filename@, file.relative_path@));
    assert("models/checkpoints/"@ + b =~= "models/checkpoints"@ + seq!['/'] + b);
    assert("models/loras/"@ + b =~= "models/loras"@ + seq!['/'] + b);
    assert("models/embeddings/"@ + b =~= "models/embeddings"@ + seq!['/'] + b);
}

fn category_folder_str(c: Category) -> (r: &'static str)
    ensures
        r@ == category_folder(c),
{
    match c {
        Category::Checkpoint => "models/checkpoints",
        Category::Lora => "models/loras",
        Category::Embedding => "models/embeddings",
        Category::Vae => "models/vae",
        Category::Controlnet => "models/controlnet",
        Category::Upscaler => "models/upscaler",
        Category::Other => "models/other",
    }
}

/// The destination of `file` relative to the target drive, by template.
pub fn compute_destination_path(file: &FileInfo, template: PlanTemplate) -> (r: String)
    ensures
        r@ == destination_rel(*file, template),
        template == PlanTemplate::ByTypeAndBase && (file.category == Category::Checkpoint || file.category
            == Category::Lora || file.category == Category::Embedding) ==> r@ == join_path(
            category_folder(file.category) + seq!['/'] + base_model_rules(
                base_model_text(file.filename@, file.relative_path@),
            ),
            file.filename@,
        ),
{
    proof {
        lemma_base_template_adds_base_folder(*file);
    }
    let fname = chars_of(file.filename.as_str());
    let out: Vec<char> = match template {
        PlanTemplate::ByType => {
            let folder = chars_of(category_folder_str(file.category));
            join(folder.as_slice(), fname.as_slice())
        },
        PlanTemplate::ByTypeAndBase => {
            let base = detect_base_model(file.filename.as_str(), file.relative_path.as_str());
            let folder: Vec<char> = match file.category {
                Category::Checkpoint => {
                    let mut f = chars_of("models/checkpoints/");
                    extend_str(&mut f, base);
                    f
                },
                Category::Lora => {
                    let mut f = chars_of("models/loras/");
                    extend_str(&mut f, base);
                    f
                },
                Category::Embedding => {
                    let mut f = chars_of("models/embeddings/");
                    extend_str(&mut f, base);
                    f
                },
                _ => chars_of(category_folder_str(file.category)),
            };
            join(folder.as_slice(), fname.as_slice())
        },
        PlanTemplate::Flat => {
            let folder = chars_of("models");
            join(folder.as_slice(), fname.as_slice())
        },
        PlanTemplate::PreserveStructure => chars_of(file.relative_path.as_str()),
    };
    string_of(out.as_slice())
}

/// Whether an operation moves bytes off its source (selected `Move`).
pub open spec fn counted(op: SortOperation) -> bool {
    op.selected && op.action == PlanAction::Move
}

/// The bytes moved by the selected `Move` operations.
pub open spec fn move_total(ops: Seq<SortOperation>) -> nat
    decreases ops.len(),
{
    if ops.len() == 0 {
        0
    } else {
        move_total(ops.drop_last()) + if counted(ops.last()) {
            ops.last().size_bytes as nat
        } else {
            0
        }
    }
}

/// Whether `mps[i]` is the mountpoint holding `src`: a component-wise prefix
/// of it with the most components, the first such one on ties.
pub open spec fn holding_mountpoint(src: Seq<char>, mps: Seq<Seq<char>>, i: int) -> bool {
    &&& 0 <= i < mps.len()
    &&& path_starts_with(src, mps[i])
    &&& forall|j: int| 0 <= j < mps.len() && path_starts_with(src, #[trigger] mps[j])
        ==> components(mps[j]).len() <= components(mps[i]).len()
    &&& forall|j: int| 0 <= j < i && path_starts_with(src, #[trigger] mps[j])
        ==> components(mps[j]).len() < components(mps[i]).len()
}

/// At most one mountpoint holds a path.
proof fn lemma_holding_unique(src: Seq<char>, mps: Seq<Seq<char>>, a: int, b: int)
    requires
        holding_mountpoint(src, mps, a),
        holding_mountpoint(src, mps, b),
    ensures
        a == b,
{
    if a < b {
        assert(path_starts_with(src, mps[a]));
    } else if b < a {
        assert(path_starts_with(src, mps[b]));
    }
}

/// The drive key of a source path: the mountpoint of `mps` that holds it;
/// where none does, `/` for a rooted path, else its first component followed
/// by `/` (empty when it has none).
pub open spec fn drive_key(src: Seq<char>, mps: Seq<Seq<char>>) -> Seq<char> {
    if exists|i: int| holding_mountpoint(src, mps, i) {
        mps[choose|i: int| holding_mountpoint(src, mps, i)]
    } else if is_rooted(src) {
        seq!['/']
    } else if components(src).len() > 0 {
        components(src)[0] + seq!['/']
    } else {
        Seq::empty()
    }
}

/// The mountpoints of the files, in order.
pub open spec fn file_mountpoints(files: Seq<FileInfo>) -> Seq<Seq<char>> {
    files.map_values(|f: FileInfo| f.mountpoint@)
}

/// The distinct drive keys of the moved sources, in order of first appearance.
pub open spec fn drive_keys(ops: Seq<SortOperation>, mps: Seq<Seq<char>>) -> Seq<Seq<char>>
    decreases ops.len(),
{
    if ops.len() == 0 {
        Seq::empty()
    } else {
        let p = drive_keys(ops.drop_last(), mps);
        let k = drive_key(ops.last().source@, mps);
        if counted(ops.last()) && !p.contains(k) {
            p.push(k)
        } else {
            p
        }
    }
}

/// The bytes moved off the drive with key `key`.
pub open spec fn freed_on(ops: Seq<SortOperation>, key: Seq<char>, mps: Seq<Seq<char>>) -> nat
    decreases ops.len(),
{
    if ops.len() == 0 {
        0
    } else {
        freed_on(ops.drop_last(), key, mps) + if counted(ops.last()) && drive_key(ops.last().source@, mps)
            == key {
            ops.last().size_bytes as nat
        } else {
            0
        }
    }
}

/// The largest move that still leaves a 5% safety margin: 95% of the free space,
/// rounded down.
pub open spec fn margin_limit(free: nat) -> nat {
    free * 19 / 20
}

/// A plan that fits leaves the target with its free space less the bytes
/// moved, and at least 5% of the free space unused.
pub proof fn lemma_fitting_plan_keeps_margin(sa: SpaceAnalysis, ops: Seq<SortOperation>, free: u64, mps: Seq<Seq<char>>)
    requires
        analysis_of(sa, ops, free, mps),
        sa.fits,
    ensures
        sa.target_drive_free_after + sa.total_move_size == free,
        20 * sa.total_move_size <= 19 * free,
{
    let t = move_total(ops);
    assert(t <= free * 19 / 20);
    assert(free * 19 / 20 <= free) by (nonlinear_arith);
    assert(20 * (free * 19 / 20) <= 19 * free) by (nonlinear_arith);
}

/// Whether `sa` is the space analysis of `ops` for a target with `free` bytes.
pub open spec fn analysis_of(sa: SpaceAnalysis, ops: Seq<SortOperation>, free: u64, mps: Seq<Seq<char>>) -> bool {
    &&& sa.target_drive_free_before == free
    &&& sa.total_move_size == move_total(ops)
    &&& sa.target_drive_free_after == if free >= move_total(ops) {
        (free - move_total(ops)) as u64
    } else {
        0
    }
    &&& sa.fits == (move_total(ops) <= margin_limit(free as nat))
    &&& sa.source_drives_freed@.len() == drive_keys(ops, mps).len()
    &&& forall|j: int|
        0 <= j < sa.source_drives_freed@.len() ==> (#[trigger] sa.source_drives_freed@[j]).0@
            == drive_keys(ops, mps)[j] && sa.source_drives_freed@[j].1 == freed_on(ops, drive_keys(ops, mps)[j], mps)
}

proof fn lemma_freed_le_total(ops: Seq<SortOperation>, key: Seq<char>, mps: Seq<Seq<char>>)
    ensures
        freed_on(ops, key, mps) <= move_total(ops),
    decreases ops.len(),
{
    if ops.len() > 0 {
        lemma_freed_le_total(ops.drop_last(), key, mps);
    }
}

proof fn lemma_freed_absent(ops: Seq<SortOperation>, key: Seq<char>, mps: Seq<Seq<char>>)
    requires
        !drive_keys(ops, mps).contains(key),
    ensures
        freed_on(ops, key, mps) == 0,
    decreases ops.len(),
{
    if ops.len() > 0 {
        let p = drive_keys(ops.drop_last(), mps);
        let k = drive_key(ops.last().source@, mps);
        if counted(ops.last()) && !p.contains(k) {
            assert(p.push(k)[p.len() as int] == k);
            if !p.contains(key) {
            } else {
                let j = choose|j: int| 0 <= j < p.len() && p[j] == key;
                assert(p.push(k)[j] == key);
            }
        }
        lemma_freed_absent(ops.drop_last(), key, mps);
    }
}

proof fn lemma_drive_keys_distinct(ops: Seq<SortOperation>, mps: Seq<Seq<char>>)
    ensures
        drive_keys(ops, mps).no_duplicates(),
    decreases ops.len(),
{
    if ops.len() > 0 {
        lemma_drive_keys_distinct(ops.drop_last(), mps);
    }
}

/// The index of `key` in `keys`, if present.
pub fn find_chars(keys: &Vec<Vec<char>>, key: &[char]) -> (r: Option<usize>)
    ensures
        match r {
            Some(j) => j < keys@.len() && keys@[j as int]@ == key@,
            None => forall|m: int| 0 <= m < keys@.len() ==> #[trigger] keys@[m]@ != key@,
        },
{
    let mut j: usize = 0;
    while j < keys.len()
        invariant
            j <= keys@.len(),
            forall|m: int| 0 <= m < j ==> #[trigger] keys@[m]@ != key@,
        decreases keys@.len() - j,
    {
        if chars_eq(keys[j].as_slice(), key) {
            return Some(j);
        }
        j = j + 1;
    }
    None
}

/// The drive key of a source path among the mountpoints `mountpoints`.
fn drive_key_chars(src: &[char], mountpoints: &[String]) -> (r: Vec<char>)
    ensures
        r@ == drive_key(src@, mountpoints@.map_values(|m: String| m@)),
{
    let ghost mps = mountpoints@.map_values(|m: String| m@);
    let mut best: Option<usize> = None;
    let mut best_n: usize = 0;
    let mut i: usize = 0;
    while i < mountpoints.len()
        invariant
            i <= mountpoints@.len(),
            mps == mountpoints@.map_values(|m: String| m@),
            match best {
                Some(b) => {
                    &&& b < i
                    &&& best_n == components(mps[b as int]).len()
                    &&& path_starts_with(src@, mps[b as int])
                    &&& forall|j: int| 0 <= j < i && path_starts_with(src@, #[trigger] mps[j])
                        ==> components(mps[j]).len() <= best_n
                    &&& forall|j: int| 0 <= j < b && path_starts_with(src@, #[trigger] mps[j])
                        ==> components(mps[j]).len() < best_n
                },
                None => forall|j: int| 0 <= j < i ==> !path_starts_with(src@, #[trigger] mps[j]),
            },
        decreases mountpoints@.len() - i,
    {
        let m = chars_of(mountpoints[i].as_str());
        assert(m@ == mps[i as int]);
        if starts_with_path(src, m.as_slice()) {
            let n = components_of(m.as_slice()).len();
            let better = match best {
                Some(_) => n > best_n,
                None => true,
            };
            if better {
                best = Some(i);
                best_n = n;
            }
        }
        i = i + 1;
    }
    match best {
        Some(b) => {
            proof {
                assert(holding_mountpoint(src@, mps, b as int));
                let c = choose|k: int| holding_mountpoint(src@, mps, k);
                lemma_holding_unique(src@, mps, c, b as int);
            }
            chars_of(mountpoints[b].as_str())
        },
        None => {
            proof {
                assert(!exists|k: int| holding_mountpoint(src@, mps, k));
            }
            if src.len() > 0 && src[0] == '/' {
                let mut v: Vec<char> = Vec::new();
                v.push('/');
                assert(v@ =~= seq!['/']);
                return v;
            }
            let comps = components_of(src);
            if comps.len() > 0 {
                let mut v: Vec<char> = Vec::new();
                extend_chars(&mut v, comps[0].as_slice());
                v.push('/');
                v
            } else {
                Vec::new()
            }
        },
    }
}

/// Free space before and after executing `operations` on a target drive with
/// `target_free_before` free bytes, the bytes freed per source drive, and
/// whether the moves fit while keeping a 5% safety margin. A source drive is
/// named by the mountpoint of `mountpoints` that holds the source.
pub fn calculate_space_analysis(operations: &[SortOperation], target_free_before: u64, mountpoints: &[String]) -> (r: SpaceAnalysis)
    requires
        move_total(operations@) <= u64::MAX,
    ensures
        analysis_of(r, operations@, target_free_before, mountpoints@.map_values(|m: String| m@)),
{
    let ghost mps = mountpoints@.map_values(|m: String| m@);
    let mut total: u64 = 0;
    let mut keys: Vec<Vec<char>> = Vec::new();
    let mut vals: Vec<u64> = Vec::new();
    let mut i: usize = 0;
    while i < operations.len()
        invariant
            i <= operations@.len(),
            mps == mountpoints@.map_values(|m: String| m@),
            move_total(operations@) <= u64::MAX,
            total == move_total(operations@.take(i as int)),
            keys@.len() == drive_keys(operations@.take(i as int), mps).len(),
            vals@.len() == keys@.len(),
            forall|j: int| 0 <= j < keys@.len() ==> #[trigger] keys@[j]@ == drive_keys(operations@.take(i as int), mps)[j],
            forall|j: int| 0 <= j < vals@.len() ==> #[trigger] vals@[j] == freed_on(operations@.take(i as int), drive_keys(operations@.take(i as int), mps)[j], mps),
        decreases operations@.len() - i,
    {
        let ghost pre = operations@.take(i as int);
        let ghost nxt = operations@.take(i + 1);
        proof {
            assert(nxt.drop_last() =~= pre);
            assert(nxt.last() == operations@[i as int]);
            lemma_drive_keys_distinct(pre, mps);
            assert(move_total(operations@.take(i + 1)) <= move_total(operations@)) by {
                lemma_move_total_prefix(operations@, i + 1);
            }
        }
        let op = &operations[i];
        if op.selected && op.action == PlanAction::Move {
            total = total + op.size_bytes;
            let src = chars_of(op.source.as_str());
            let key = drive_key_chars(src.as_slice(), mountpoints);
            let fk = find_chars(&keys, key.as_slice());
            let found = fk.is_some();
            let j: usize = match fk {
                Some(x) => x,
                None => 0,
            };
            if found {
                proof {
                    assert(drive_keys(nxt, mps) == drive_keys(pre, mps)) by {
                        assert(drive_keys(pre, mps)[j as int] == key@);
                    }
                    lemma_freed_le_total(nxt, key@, mps);
                    assert forall|m: int| 0 <= m < keys@.len() && m != j implies drive_keys(pre, mps)[m] != key@ by {
                        assert(drive_keys(pre, mps)[m] != drive_keys(pre, mps)[j as int]);
                    }
                }
                let v = vals[j] + op.size_bytes;
                vals.set(j, v);
            } else {
                proof {
                    assert(!drive_keys(pre, mps).contains(key@)) by {
                        if drive_keys(pre, mps).contains(key@) {
                            let m = choose|m: int| 0 <= m < drive_keys(pre, mps).len() && drive_keys(pre, mps)[m] == key@;
                            assert(keys@[m]@ == key@);
                        }
                    }
                    lemma_freed_absent(pre, key@, mps);
                    assert forall|m: int| 0 <= m < keys@.len() implies drive_keys(pre, mps)[m] != key@ by {
                        assert(keys@[m]@ != key@);
                    }
                }
                keys.push(key);
                vals.push(op.size_bytes);
            }
        }
        i = i + 1;
    }
    proof {
        assert(operations@.take(operations@.len() as int) =~= operations@);
    }
    let mut freed: Vec<(String, u64)> = Vec::new();
    let mut k: usize = 0;
    while k < keys.len()
        invariant
            k <= keys@.len(),
            vals@.len() == keys@.len(),
            keys@.len() == drive_keys(operations@, mps).len(),
            forall|j: int| 0 <= j < keys@.len() ==> #[trigger] keys@[j]@ == drive_keys(operations@, mps)[j],
            forall|j: int| 0 <= j < vals@.len() ==> #[trigger] vals@[j] == freed_on(operations@, drive_keys(operations@, mps)[j], mps),
            freed@.len() == k,
            forall|j: int| 0 <= j < k ==> (#[trigger] freed@[j]).0@ == drive_keys(operations@, mps)[j] && freed@[j].1 == freed_on(operations@, drive_keys(operations@, mps)[j], mps),
        decreases keys@.len() - k,
    {
        freed.push((string_of(keys[k].as_slice()), vals[k]));
        k = k + 1;
    }
    let limit: u64 = ((target_free_before as u128) * 19 / 20) as u64;
    SpaceAnalysis {
        target_drive_free_before: target_free_before,
        total_move_size: total,
        target_drive_free_after: if target_free_before >= total {
            target_free_before - total
        } else {
            0
        },
        source_drives_freed: freed,
        fits: total <= limit,
    }
}

proof fn lemma_move_total_prefix(ops: Seq<SortOperation>, n: int)
    requires
        0 <= n <= ops.len(),
    ensures
        move_total(ops.take(n)) <= move_total(ops),
    decreases ops.len() - n,
{
    if n < ops.len() {
        lemma_move_total_prefix(ops, n + 1);
        assert(ops.take(n + 1).drop_last() =~= ops.take(n));
    } else {
        assert(ops.take(n) =~= ops);
    }
}

/// Complete sort plan. `target_structure` holds the JSON text of the planned
/// folder skeleton.
#[derive(Debug)]
pub struct SortPlan {
    pub version: u32,
    pub plan_timestamp: Timestamp,
    pub target_drive: String,
    pub target_structure: String,
    pub operations: Vec<SortOperation>,
    pub space_analysis: SpaceAnalysis,
    pub dry_run_log: Option<Vec<String>>,
}

/// The folder skeleton a generated plan describes, as JSON text.
pub open spec fn default_target_structure() -> Seq<char> {
    "{\"models\":{\"checkpoints\":{},\"controlnet\":{},\"embeddings\":{},\"loras\":{},\"other\":{},\"upscaler\":{},\"vae\":{}}}"@
}

/// The destination of a file on the (normalized) target before collisions
/// are resolved.
pub open spec fn raw_destination(file: FileInfo, template: PlanTemplate, target: Seq<char>) -> Seq<char> {
    normalized(join_path(normalized(target), destination_rel(file, template)))
}

/// The source paths of all files but file `i`.
pub open spec fn other_sources(files: Seq<FileInfo>, i: int) -> Seq<Seq<char>> {
    (files.take(i) + files.skip(i + 1)).map_values(|f: FileInfo| f.real_path@)
}

/// The paths file `i` may not be sent to: the destinations planned for the
/// files before it (`planned`) and the current paths of all other files.
pub open spec fn taken_for(files: Seq<FileInfo>, planned: Seq<Seq<char>>, i: int) -> Seq<Seq<char>> {
    planned + other_sources(files, i)
}

/// The destinations planned for the first `n` files: each file's raw
/// destination, numbered `_2`, `_3`, ... with the smallest free number when
/// the raw destination is taken (see `taken_for`).
pub open spec fn planned_destinations(files: Seq<FileInfo>, template: PlanTemplate, target: Seq<char>, n: int) -> Seq<Seq<char>>
    decreases n,
{
    if n <= 0 {
        Seq::empty()
    } else {
        let prev = planned_destinations(files, template, target, n - 1);
        prev.push(free_destination(raw_destination(files[n - 1], template, target), taken_for(files, prev, n - 1)))
    }
}

/// The planned destination of file `i`.
pub open spec fn planned_destination(files: Seq<FileInfo>, template: PlanTemplate, target: Seq<char>, i: int) -> Seq<char> {
    planned_destinations(files, template, target, i + 1)[i]
}

/// The id of the `i`-th operation (`op-0001`, ...).
pub open spec fn op_id_text(i: int) -> Seq<char> {
    "op-"@ + zero_padded((i + 1) as nat, 4)
}

/// Whether `op` is the planned operation for file `i`.
pub open spec fn planned_operation(op: SortOperation, files: Seq<FileInfo>, template: PlanTemplate, target: Seq<char>, i: int) -> bool {
    let f = files[i];
    let dest = planned_destination(files, template, target, i);
    let in_place = f.real_path@ == dest;
    &&& op.op_id@ == op_id_text(i)
    &&& op.action == if in_place { PlanAction::Skip } else { PlanAction::Move }
    &&& op.source@ == f.real_path@
    &&& op.destination@ == dest
    &&& op.file_id@ == f.id@
    &&& op.size_bytes == f.size_bytes
    &&& op.size_human@ == f.size_human@
    &&& op.selected == !in_place
    &&& op.status == if in_place { OpStatus::Skipped } else { OpStatus::Pending }
    &&& op.symlinks_to_update@.map_values(|x: String| x@) == f.symlinked_from@.map_values(|x: String| x@)
    &&& op.error_message is None
}

/// The total size of the files.
pub open spec fn files_total(files: Seq<FileInfo>) -> nat
    decreases files.len(),
{
    if files.len() == 0 {
        0
    } else {
        files_total(files.drop_last()) + files.last().size_bytes as nat
    }
}

/// Whether `plan` is the plan generated for the files, target and template
/// (all fields but the timestamp).
pub open spec fn generated_plan(plan: SortPlan, files: Seq<FileInfo>, target: Seq<char>, free: u64, template: PlanTemplate) -> bool {
    &&& plan.version == 1
    &&& plan.target_drive@ == normalized(target)
    &&& plan.target_structure@ == default_target_structure()
    &&& plan.dry_run_log is None
    &&& plan.operations@.len() == files.len()
    &&& forall|i: int| 0 <= i < files.len() ==> planned_operation(#[trigger] plan.operations@[i], files, template, target, i)
    &&& analysis_of(plan.space_analysis, plan.operations@, free, file_mountpoints(files))
    &&& distinct_destinations(plan.operations@)
    &&& forall|a: int, j: int| 0 <= a < files.len() && 0 <= j < files.len() && a != j
        ==> (#[trigger] plan.operations@[a]).destination@ != (#[trigger] files[j]).real_path@
}

/// Whether no two operations share a destination.
pub open spec fn distinct_destinations(ops: Seq<SortOperation>) -> bool {
    forall|a: int, b: int| 0 <= a < b < ops.len() ==> (#[trigger] ops[a]).destination@ != (#[trigger] ops[b]).destination@
}

proof fn lemma_move_total_le_files(ops: Seq<SortOperation>, files: Seq<FileInfo>)
    requires
        ops.len() == files.len(),
        forall|i: int| 0 <= i < ops.len() ==> #[trigger] ops[i].size_bytes == files[i].size_bytes,
    ensures
        move_total(ops) <= files_total(files),
    decreases ops.len(),
{
    if ops.len() > 0 {
        lemma_move_total_le_files(ops.drop_last(), files.drop_last());
    }
}

/// The mountpoints of the files, in order.
pub(crate) fn mountpoints_of(files: &[FileInfo]) -> (r: Vec<String>)
    ensures
        r@.len() == files@.len(),
        forall|k: int| 0 <= k < files@.len() ==> #[trigger] r@[k]@ == files@[k].mountpoint@,
{
    let mut out: Vec<String> = Vec::new();
    let mut i: usize = 0;
    while i < files.len()
        invariant
            i <= files@.len(),
            out@.len() == i,
            forall|k: int| 0 <= k < i ==> #[trigger] out@[k]@ == files@[k].mountpoint@,
        decreases files@.len() - i,
    {
        out.push(string_of(chars_of(files[i].mountpoint.as_str()).as_slice()));
        i = i + 1;
    }
    out
}

/// The paths file `i` may not be sent to (see `taken_for`), as strings.
fn taken_list(planned: &Vec<String>, files: &[FileInfo], i: usize) -> (r: Vec<String>)
    requires
        i < files@.len(),
    ensures
        r@.map_values(|x: String| x@) == taken_for(files@, planned@.map_values(|x: String| x@), i as int),
{
    let ghost pv = planned@.map_values(|x: String| x@);
    let mut out = copy_strings(planned);
    let mut j: usize = 0;
    while j < i
        invariant
            j <= i < files@.len(),
            pv == planned@.map_values(|x: String| x@),
            out@.map_values(|x: String| x@) == pv + files@.take(j as int).map_values(|f: FileInfo| f.real_path@),
        decreases i - j,
    {
        let ghost o = out@;
        out.push(string_of(chars_of(files[j].real_path.as_str()).as_slice()));
        proof {
            assert(out@.map_values(|x: String| x@) =~= o.map_values(|x: String| x@).push(files@[j as int].real_path@));
            assert(files@.take(j + 1).map_values(|f: FileInfo| f.real_path@) =~= files@.take(j as int).map_values(|f: FileInfo| f.real_path@).push(files@[j as int].real_path@));
        }
        j = j + 1;
    }
    assert(i < files.len());
    let mut k: usize = i + 1;
    while k < files.len()
        invariant
            i < k <= files@.len(),
            pv == planned@.map_values(|x: String| x@),
            out@.map_values(|x: String| x@) == pv + (files@.take(i as int) + files@.subrange(i + 1, k as int)).map_values(|f: FileInfo| f.real_path@),
        decreases files@.len() - k,
    {
        let ghost o = out@;
        out.push(string_of(chars_of(files[k].real_path.as_str()).as_slice()));
        proof {
            assert(out@.map_values(|x: String| x@) =~= o.map_values(|x: String| x@).push(files@[k as int].real_path@));
            assert((files@.take(i as int) + files@.subrange(i + 1, k + 1)).map_values(|f: FileInfo| f.real_path@) =~= (files@.take(i as int) + files@.subrange(i + 1, k as int)).map_values(|f: FileInfo| f.real_path@).push(files@[k as int].real_path@));
        }
        k = k + 1;
    }
    proof {
        assert(files@.subrange(i + 1, files@.len() as int) =~= files@.skip(i + 1));
    }
    out
}

/// A copy of a list of strings.
fn copy_strings(v: &Vec<String>) -> (r: Vec<String>)
    ensures
        r@.map_values(|x: String| x@) == v@.map_values(|x: String| x@),
{
    let mut out: Vec<String> = Vec::new();
    let mut i: usize = 0;
    while i < v.len()
        invariant
            i <= v@.len(),
            out@.map_values(|x: String| x@) == v@.take(i as int).map_values(|x: String| x@),
        decreases v@.len() - i,
    {
        let s = string_of(chars_of(v[i].as_str()).as_slice());
        let ghost old_out = out@;
        out.push(s);
        proof {
            assert(out@.map_values(|x: String| x@) =~= old_out.map_values(|x: String| x@).push(v@[i as int]@));
            assert(v@.take(i + 1).map_values(|x: String| x@) =~= v@.take(i as int).map_values(|x: String| x@).push(v@[i as int]@));
        }
        i = i + 1;
    }
    assert(v@.take(v@.len() as int) =~= v@);
    out
}

/// The destinations planned for the first `m` files begin those planned for
/// the first `n` files, `m <= n`.
proof fn lemma_planned_prefix(files: Seq<FileInfo>, template: PlanTemplate, target: Seq<char>, m: int, n: int)
    requires
        0 <= m <= n,
    ensures
        planned_destinations(files, template, target, n).len() == n,
        forall|k: int| 0 <= k < m ==> #[trigger] planned_destinations(files, template, target, n)[k]
            == planned_destinations(files, template, target, m)[k],
    decreases n,
{
    if n > 0 {
        if m < n {
            lemma_planned_prefix(files, template, target, m, n - 1);
        } else {
            lemma_planned_prefix(files, template, target, 0, n - 1);
        }
    }
}

impl SortPlan {
    /// The plan for `files` relocated under `target_drive` with `template`,
    /// stamped with the time `now`.
    pub fn generate_at(files: &[FileInfo], target_drive: &str, target_free_bytes: u64, template: PlanTemplate, now: Timestamp) -> (r: SortPlan)
        requires
            files_total(files@) <= u64::MAX,
        ensures
            generated_plan(r, files@, target_drive@, target_free_bytes, template),
            r.plan_timestamp == now,
    {
        let target_norm = normalize_chars(chars_of(target_drive).as_slice());
        let mut planned: Vec<String> = Vec::new();
        let mut operations: Vec<SortOperation> = Vec::new();
        let mut i: usize = 0;
        while i < files.len()
            invariant
                i <= files@.len(),
                target_norm@ == normalized(target_drive@),
                planned@.map_values(|x: String| x@) == planned_destinations(files@, template, target_drive@, i as int),
                operations@.len() == i,
                forall|k: int| 0 <= k < i ==> planned_operation(#[trigger] operations@[k], files@, template, target_drive@, k),
                distinct_destinations(operations@),
                forall|a: int, j: int| 0 <= a < i && 0 <= j < files@.len() && a != j
                    ==> (#[trigger] operations@[a]).destination@ != (#[trigger] files@[j]).real_path@,
            decreases files@.len() - i,
        {
            let file = &files[i];
            let rel = compute_destination_path(file, template);
            let joined = join(target_norm.as_slice(), chars_of(rel.as_str()).as_slice());
            let raw = normalize_chars(joined.as_slice());
            let ghost pv = planned@.map_values(|x: String| x@);
            let ghost raw_d = raw_destination(files@[i as int], template, target_drive@);
            assert(raw@ == raw_d);
            let taken = taken_list(&planned, files, i);
            let ghost tv = taken@.map_values(|x: String| x@);
            let dest_s = generate_unique_destination(string_of(raw.as_slice()).as_str(), taken.as_slice());
            proof {
                lemma_normalize_idempotent(join_path(normalized(target_drive@), destination_rel(files@[i as int], template)));
                assert(dest_s@ == free_destination(raw_d, tv));
                lemma_planned_prefix(files@, template, target_drive@, 0, i as int);
                assert(tv == taken_for(files@, pv, i as int));
                assert(planned_destinations(files@, template, target_drive@, i + 1) == pv.push(dest_s@));
                assert(planned_destinations(files@, template, target_drive@, i + 1)[i as int] == dest_s@);
            }
            let dest = chars_of(dest_s.as_str());
            assert(dest@ == planned_destination(files@, template, target_drive@, i as int));
            let in_place = chars_eq(chars_of(file.real_path.as_str()).as_slice(), dest.as_slice());
            let mut id = chars_of("op-");
            let num = zero_padded_chars((i as u128) + 1, 4);
            extend_chars(&mut id, num.as_slice());
            let op = SortOperation {
                op_id: string_of(id.as_slice()),
                action: if in_place { PlanAction::Skip } else { PlanAction::Move },
                source: string_of(chars_of(file.real_path.as_str()).as_slice()),
                destination: string_of(dest.as_slice()),
                file_id: string_of(chars_of(file.id.as_str()).as_slice()),
                size_bytes: file.size_bytes,
                size_human: string_of(chars_of(file.size_human.as_str()).as_slice()),
                selected: !in_place,
                status: if in_place { OpStatus::Skipped } else { OpStatus::Pending },
                symlinks_to_update: copy_strings(&file.symlinked_from),
                error_message: None,
            };
            proof {
                assert forall|a: int| 0 <= a < i implies (#[trigger] operations@[a]).destination@ != dest@ by {
                    assert(operations@[a].destination@ == planned_destination(files@, template, target_drive@, a));
                    lemma_planned_prefix(files@, template, target_drive@, a + 1, i as int);
                    assert(tv[a] == pv[a]);
                    lemma_seq_has_view(taken@, tv[a]);
                }
                assert forall|j: int| 0 <= j < files@.len() && j != i implies dest@ != (#[trigger] files@[j]).real_path@ by {
                    let others = files@.take(i as int) + files@.skip(i + 1);
                    let k = if j < i { j } else { j - 1 };
                    assert(others[k] == files@[j]);
                    assert(tv[pv.len() + k] == files@[j].real_path@);
                    lemma_seq_has_view(taken@, files@[j].real_path@);
                }
            }
            let ghost old_ops = operations@;
            operations.push(op);
            let ghost old_planned = planned@;
            planned.push(dest_s);
            proof {
                assert(planned@.map_values(|x: String| x@) =~= old_planned.map_values(|x: String| x@).push(dest@));
                assert forall|a: int, b: int| 0 <= a < b < operations@.len() implies (#[trigger] operations@[a]).destination@ != (#[trigger] operations@[b]).destination@ by {
                    if b < i {
                        assert(old_ops[a] == operations@[a] && old_ops[b] == operations@[b]);
                    } else {
                        assert(old_ops[a] == operations@[a]);
                    }
                }
                assert forall|a: int, j: int| 0 <= a < i + 1 && 0 <= j < files@.len() && a != j
                    implies (#[trigger] operations@[a]).destination@ != (#[trigger] files@[j]).real_path@ by {
                    if a < i {
                        assert(old_ops[a] == operations@[a]);
                    }
                }
            }
            i = i + 1;
        }
        proof {
            lemma_move_total_le_files(operations@, files@);
        }
        let mps = mountpoints_of(files);
        proof {
            assert(mps@.map_values(|m: String| m@) =~= file_mountpoints(files@));
        }
        let space_analysis = calculate_space_analysis(operations.as_slice(), target_free_bytes, mps.as_slice());
        SortPlan {
            version: 1,
            plan_timestamp: now,
            target_drive: string_of(target_norm.as_slice()),
            target_structure: String::from_str("{\"models\":{\"checkpoints\":{},\"controlnet\":{},\"embeddings\":{},\"loras\":{},\"other\":{},\"upscaler\":{},\"vae\":{}}}"),
            operations,
            space_analysis,
            dry_run_log: None,
        }
    }

    /// The plan for `files` relocated under `target_drive` with `template`,
    /// stamped with the current time; `None` when the system clock cannot be
    /// read as a time since the epoch.
    pub fn generate(files: &[FileInfo], target_drive: &str, target_free_bytes: u64, template: PlanTemplate) -> (r: Option<SortPlan>)
        requires
            files_total(files@) <= u64::MAX,
        ensures
            r matches Some(p) ==> generated_plan(p, files@, target_drive@, target_free_bytes, template)
                && p.plan_timestamp.secs >= 0 && p.plan_timestamp.nanos < 1_000_000_000,
    {
        match now() {
            Some(t) => Some(SortPlan::generate_at(files, target_drive, target_free_bytes, template, t)),
            None => None,
        }
    }
}


} // verus!
