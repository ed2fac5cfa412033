//! The staging storage: choosing tmpfs or the ext4 image, the runtime-state file, and
//! the storage query.
use vstd::prelude::*;
use vstd::string::*;
use crate::text::{text_lines, lines_of, views, find_char, text_eq, trim_text, pieces, strip_cr,
    lemma_pieces_append, lemma_pieces_push_sep};

verus! {

/// The substrate that holds the synchronised modules.
#[derive(PartialEq, Eq, Structural, Clone, Copy, Debug)]
pub enum StorageMode {
    Tmpfs,
    Ext4,
}

pub open spec fn mode_name(m: StorageMode) -> Seq<char> {
    match m {
        StorageMode::Tmpfs => "tmpfs"@,
        StorageMode::Ext4 => "ext4"@,
    }
}

impl StorageMode {
    /// The mode's name: `tmpfs` or `ext4`.
    pub fn name(&self) -> (r: String)
        ensures
            r@ == mode_name(*self),
    {
        match self {
            StorageMode::Tmpfs => String::from_str("tmpfs"),
            StorageMode::Ext4 => String::from_str("ext4"),
        }
    }
}

/// An active storage backend.
#[derive(Debug)]
pub struct StorageHandle {
    pub mount_point: String,
    /// `tmpfs` or `ext4`.
    pub mode: String,
}

impl StorageHandle {
    pub fn new(mount_point: String, mode: StorageMode) -> (r: StorageHandle)
        ensures
            r.mount_point == mount_point,
            r.mode@ == mode_name(mode),
    {
        StorageHandle { mount_point, mode: mode.name() }
    }
}

/// Why no storage could be set up.
#[derive(PartialEq, Eq, Structural, Clone, Copy, Debug)]
pub enum StorageError {
    /// Neither tmpfs with extended attributes nor the image file is available.
    StorageUnavailable,
    /// The image exists but did not mount.
    ImageMountFailed,
    /// The mounted image root could not be given mode, owner and label.
    RootRepairFailed,
}

/// The next action of storage setup, or its end.
#[derive(PartialEq, Eq, Structural, Clone, Copy, Debug)]
pub enum SetupStep {
    /// Mount a tmpfs (mode 0755) at the target.
    MountTmpfs,
    /// Write a sentinel file and set a security label on it.
    ProbeXattr,
    /// Detach the tmpfs that lacks attribute support.
    DetachTmpfs,
    /// Check that the image file exists.
    CheckImage,
    /// Loop-mount the image as ext4, read-write, without access times.
    MountImage,
    /// Give the image root mode 0755, owner 0:0 and the system file label.
    RepairRoot,
    Ready(StorageMode),
    Failed(StorageError),
}

/// The first step of setup: straight to the image when ext4 is forced.
pub open spec fn first_step(force_ext4: bool) -> SetupStep {
    if force_ext4 {
        SetupStep::CheckImage
    } else {
        SetupStep::MountTmpfs
    }
}

/// The step after `step`, given whether its action succeeded.
pub open spec fn step_after(step: SetupStep, ok: bool) -> SetupStep {
    match step {
        SetupStep::MountTmpfs => if ok {
            SetupStep::ProbeXattr
        } else {
            SetupStep::CheckImage
        },
        SetupStep::ProbeXattr => if ok {
            SetupStep::Ready(StorageMode::Tmpfs)
        } else {
            SetupStep::DetachTmpfs
        },
        SetupStep::DetachTmpfs => SetupStep::CheckImage,
        SetupStep::CheckImage => if ok {
            SetupStep::MountImage
        } else {
            SetupStep::Failed(StorageError::StorageUnavailable)
        },
        SetupStep::MountImage => if ok {
            SetupStep::RepairRoot
        } else {
            SetupStep::Failed(StorageError::ImageMountFailed)
        },
        SetupStep::RepairRoot => if ok {
            SetupStep::Ready(StorageMode::Ext4)
        } else {
            SetupStep::Failed(StorageError::RootRepairFailed)
        },
        SetupStep::Ready(m) => SetupStep::Ready(m),
        SetupStep::Failed(e) => SetupStep::Failed(e),
    }
}

pub fn setup_start(force_ext4: bool) -> (r: SetupStep)
    ensures
        r == first_step(force_ext4),
{
    if force_ext4 {
        SetupStep::CheckImage
    } else {
        SetupStep::MountTmpfs
    }
}

/// Decides the next step of storage setup from the outcome of the current one. A failed
/// detach still moves on to the image.
pub fn setup_next(step: SetupStep, ok: bool) -> (r: SetupStep)
    ensures
        r == step_after(step, ok),
{
    match step {
        SetupStep::MountTmpfs => if ok {
            SetupStep::ProbeXattr
        } else {
            SetupStep::CheckImage
        },
        SetupStep::ProbeXattr => if ok {
            SetupStep::Ready(StorageMode::Tmpfs)
        } else {
            SetupStep::DetachTmpfs
        },
        SetupStep::DetachTmpfs => SetupStep::CheckImage,
        SetupStep::CheckImage => if ok {
            SetupStep::MountImage
        } else {
            SetupStep::Failed(StorageError::StorageUnavailable)
        },
        SetupStep::MountImage => if ok {
            SetupStep::RepairRoot
        } else {
            SetupStep::Failed(StorageError::ImageMountFailed)
        },
        SetupStep::RepairRoot => if ok {
            SetupStep::Ready(StorageMode::Ext4)
        } else {
            SetupStep::Failed(StorageError::RootRepairFailed)
        },
        SetupStep::Ready(m) => SetupStep::Ready(m),
        SetupStep::Failed(e) => SetupStep::Failed(e),
    }
}

/// Setup reaches tmpfs only through a tmpfs mount whose attribute probe succeeded, and
/// ext4 only through an image that exists, mounted, and whose root was repaired.
pub proof fn setup_outcomes(force_ext4: bool, a: bool, b: bool, c: bool, d: bool, e: bool, f: bool)
    ensures
        ({
            let s1 = first_step(force_ext4);
            let s2 = step_after(s1, a);
            let s3 = step_after(s2, b);
            let s4 = step_after(s3, c);
            let s5 = step_after(s4, d);
            let s6 = step_after(s5, e);
            let s7 = step_after(s6, f);
            &&& s3 == SetupStep::Ready(StorageMode::Tmpfs) <==> (!force_ext4 && a && b)
            &&& (!force_ext4 && a && !b) ==> s3 == SetupStep::DetachTmpfs && s4 == SetupStep::CheckImage
                && (!d ==> s5 == SetupStep::Failed(StorageError::StorageUnavailable))
                && (d && e && f ==> s7 == SetupStep::Ready(StorageMode::Ext4))
            &&& force_ext4 ==> s1 == SetupStep::CheckImage && (!a ==> s2 == SetupStep::Failed(
                StorageError::StorageUnavailable,
            )) && (a && b && c ==> s4 == SetupStep::Ready(StorageMode::Ext4))
        }),
{
}

/// What the runtime-state file records after storage setup.
#[derive(Debug)]
pub struct RuntimeState {
    pub mount_point: String,
    pub storage_mode: String,
}

/// The text of the runtime-state file: one `key=value` line for each field.
pub open spec fn state_text(s: RuntimeState) -> Seq<char> {
    "mount_point="@ + s.mount_point@ + "\n"@ + "storage_mode="@ + s.storage_mode@ + "\n"@
}

impl RuntimeState {
    /// Writes the state as `key=value` lines.
    pub fn to_text(&self) -> (r: String)
        ensures
            r@ == state_text(*self),
    {
        let mut out = String::from_str("mount_point=");
        out.append(self.mount_point.as_str());
        out.append("\n");
        out.append("storage_mode=");
        out.append(self.storage_mode.as_str());
        out.append("\n");
        out
    }
}

/// The value of the last line `key=value` for `key`; the key is what stands before the
/// first `=`.
pub open spec fn field_in(lines: Seq<Seq<char>>, key: Seq<char>) -> Option<Seq<char>>
    decreases lines.len(),
{
    if lines.len() == 0 {
        None
    } else {
        let l = lines.last();
        if key.len() < l.len() && l.subrange(0, key.len() as int) == key && l[key.len() as int]
            == '=' && forall|j: int| 0 <= j < key.len() ==> l[j] != '=' {
            Some(l.subrange(key.len() as int + 1, l.len() as int))
        } else {
            field_in(lines.drop_last(), key)
        }
    }
}

fn line_field(line: &str, key: &str) -> (r: Option<String>)
    ensures
        match r {
            Some(v) => key@.len() < line@.len() && line@.subrange(0, key@.len() as int) == key@
                && line@[key@.len() as int] == '=' && (forall|j: int| 0 <= j < key@.len() ==> line@[j] != '=')
                && v@ == line@.subrange(key@.len() as int + 1, line@.len() as int),
            None => !(key@.len() < line@.len() && line@.subrange(0, key@.len() as int) == key@
                && line@[key@.len() as int] == '=' && forall|j: int| 0 <= j < key@.len() ==> line@[j] != '='),
        },
{
    match find_char(line, '=') {
        Some(i) => {
            let n = line.unicode_len();
            let k = line.substring_char(0, i);
            if text_eq(k, key) {
                Some(String::from_str(line.substring_char(i + 1, n)))
            } else {
                proof {
                    if key@.len() < line@.len() && line@.subrange(0, key@.len() as int) == key@
                        && line@[key@.len() as int] == '=' && forall|j: int| 0 <= j < key@.len() ==> line@[j] != '=' {
                        assert(i == key@.len());
                        assert(k@ =~= key@);
                    }
                }
                None
            }
        },
        None => None,
    }
}

fn field_of(lines: &Vec<String>, key: &str) -> (r: Option<String>)
    ensures
        match r {
            Some(v) => field_in(views(lines@), key@) == Some(v@),
            None => field_in(views(lines@), key@) is None,
        },
{
    let mut i: usize = lines.len();
    assert(views(lines@).subrange(0, i as int) =~= views(lines@));
    while i > 0
        invariant
            i <= lines@.len(),
            field_in(views(lines@), key@) == field_in(views(lines@).subrange(0, i as int), key@),
        decreases i,
    {
        let ghost pre = views(lines@).subrange(0, i as int);
        assert(pre.drop_last() =~= views(lines@).subrange(0, i - 1));
        assert(pre.last() == lines@[i - 1]@);
        match line_field(lines[i - 1].as_str(), key) {
            Some(v) => {
                return Some(v);
            },
            None => {},
        }
        i = i - 1;
    }
    None
}

/// Reads the runtime-state file: `None` when it has no `mount_point` line; a missing
/// `storage_mode` line reads as empty.
pub fn parse_runtime_state(text: &str) -> (r: Option<RuntimeState>)
    ensures
        match r {
            Some(s) => field_in(lines_of(text@), "mount_point"@) == Some(s.mount_point@)
                && s.storage_mode@ == match field_in(lines_of(text@), "storage_mode"@) {
                    Some(m) => m,
                    None => Seq::<char>::empty(),
                },
            None => field_in(lines_of(text@), "mount_point"@) is None,
        },
{
    let lines = text_lines(text);
    match field_of(&lines, "mount_point") {
        Some(mount_point) => {
            let storage_mode = match field_of(&lines, "storage_mode") {
                Some(m) => m,
                None => String::new(),
            };
            Some(RuntimeState { mount_point, storage_mode })
        },
        None => None,
    }
}

/// The answer to a storage query.
#[derive(Debug)]
pub enum StorageReport {
    /// No runtime state, or its mount point does not exist.
    NotMounted,
    /// Report the usage of `path`, a `fs_type` file system.
    Usage { path: String, fs_type: String },
}

/// Decides the storage query: usage is reported only for the mount point that the
/// runtime state records, where that path exists; an empty mode reads `unknown`.
pub fn storage_report(state: &Option<RuntimeState>, path_exists: bool) -> (r: StorageReport)
    ensures
        match state {
            None => r is NotMounted,
            Some(s) => if !path_exists || s.mount_point@.len() == 0 {
                r is NotMounted
            } else {
                r matches StorageReport::Usage { path, fs_type } && path@ == s.mount_point@
                    && fs_type@ == if s.storage_mode@.len() == 0 {
                    "unknown"@
                } else {
                    s.storage_mode@
                }
            },
        },
{
    match state {
        None => StorageReport::NotMounted,
        Some(s) => {
            if !path_exists || s.mount_point.as_str().unicode_len() == 0 {
                StorageReport::NotMounted
            } else {
                let fs_type = if s.storage_mode.as_str().unicode_len() == 0 {
                    String::from_str("unknown")
                } else {
                    s.storage_mode.clone()
                };
                StorageReport::Usage { path: s.mount_point.clone(), fs_type }
            }
        },
    }
}

/// The JSON object of a storage query before anything is mounted.
pub fn not_mounted_json() -> (r: String)
    ensures
        r@ == "{\"error\":\"Not mounted\"}"@,
{
    String::from_str("{\"error\":\"Not mounted\"}")
}

/// Total and used bytes of a file system from its fragment size and block counts; used
/// is never below zero.
pub fn usage_bytes(frsize: u64, blocks: u64, bfree: u64) -> (r: (u64, u64))
    requires
        frsize * blocks <= u64::MAX,
        frsize * bfree <= u64::MAX,
    ensures
        r.0 == frsize * blocks,
        r.1 == if frsize * bfree <= frsize * blocks {
            frsize * blocks - frsize * bfree
        } else {
            0
        },
{
    let total = frsize * blocks;
    let free = frsize * bfree;
    let used = if free <= total {
        total - free
    } else {
        0
    };
    (total, used)
}

/// The directory under which the engine keeps its run-time files.
pub const RUN_DIR: &'static str = "/data/adb/meta-hybrid/run/";

/// The temporary directory of magic mount when none is configured: `workdir` under the
/// run directory.
pub fn select_temp_dir() -> (r: String)
    ensures
        r@ == crate::text::join(RUN_DIR@, "workdir"@),
{
    crate::text::path_join(RUN_DIR, "workdir")
}

/// The value of `kernel.kptr_restrict` to restore once the kernel symbol lookup is done.
#[derive(Debug)]
pub struct ScopedKptrRestrict {
    pub original: String,
}

impl ScopedKptrRestrict {
    /// Records the value to restore: the setting as read, trimmed, or `2` where it could
    /// not be read.
    pub fn new(current: Option<String>) -> (r: ScopedKptrRestrict)
        ensures
            r.original@ == crate::text::trim(match current {
                Some(c) => c@,
                None => "2"@,
            }),
    {
        let original = match current {
            Some(c) => trim_text(c.as_str()),
            None => trim_text("2"),
        };
        ScopedKptrRestrict { original }
    }
}

/// Whether `s` holds no line break.
pub open spec fn one_line(s: Seq<char>) -> bool {
    forall|i: int| 0 <= i < s.len() ==> s[i] != '\n' && s[i] != '\r'
}

/// Reading back the text that `to_text` writes gives the same mount point and storage
/// mode, for values without line breaks.
pub proof fn runtime_state_round_trip(s: RuntimeState)
    requires
        one_line(s.mount_point@),
        one_line(s.storage_mode@),
    ensures
        field_in(lines_of(state_text(s)), "mount_point"@) == Some(s.mount_point@),
        field_in(lines_of(state_text(s)), "storage_mode"@) == Some(s.storage_mode@),
{
    reveal_strlit("mount_point=");
    reveal_strlit("storage_mode=");
    reveal_strlit("mount_point");
    reveal_strlit("storage_mode");
    reveal_strlit("\n");
    let a = "mount_point="@ + s.mount_point@;
    let b = "storage_mode="@ + s.storage_mode@;
    let e = Seq::<char>::empty();
    assert(one_line(a));
    assert(one_line(b));
    assert(state_text(s) =~= (a.push('\n') + b).push('\n'));
    lemma_pieces_append(e, a, '\n');
    assert(e + a =~= a);
    assert(pieces(e, '\n') =~= seq![e]);
    assert(pieces(a, '\n') =~= seq![a]);
    lemma_pieces_push_sep(a, '\n');
    lemma_pieces_append(a.push('\n'), b, '\n');
    assert(pieces(a.push('\n') + b, '\n') =~= seq![a, b]);
    lemma_pieces_push_sep(a.push('\n') + b, '\n');
    let p = pieces(state_text(s), '\n');
    assert(p =~= seq![a, b, e]);
    assert(strip_cr(a) == a);
    assert(strip_cr(b) == b);
    let lines = lines_of(state_text(s));
    assert(lines =~= seq![a, b]);
    assert(lines.drop_last() =~= seq![a]);
    assert(seq![a].drop_last() =~= Seq::<Seq<char>>::empty());
    assert(b.subrange(0, 11) != "mount_point"@) by {
        assert(b.subrange(0, 11)[0] != "mount_point"@[0]);
    }
    assert(a.subrange(0, 11) =~= "mount_point"@);
    assert(a.subrange(12, a.len() as int) =~= s.mount_point@);
    assert(a[11] == '=');
    assert forall|j: int| 0 <= j < 11 implies a[j] != '=' by {
        assert(a[j] == "mount_point"@[j]);
    }
    assert(field_in(lines.drop_last(), "mount_point"@) == Some(s.mount_point@));
    assert(field_in(lines, "mount_point"@) == field_in(lines.drop_last(), "mount_point"@));
    assert(b.subrange(0, 12) =~= "storage_mode"@);
    assert(b.subrange(13, b.len() as int) =~= s.storage_mode@);
}

} // verus!
