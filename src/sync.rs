//! Synchronisation of enabled modules into the staging mount, and the repair of their
//! SELinux labels.
use vstd::prelude::*;
use vstd::string::*;
use crate::text::{text_eq, path_join, join, is_prefix};
use crate::magic::{SourceEntry, EntryKind};
use crate::text::views;
use crate::overlay::lemma_push_contains;

verus! {

/// The label that copied files start with, and keep where the host has no counterpart.
pub open spec fn default_context() -> Seq<char> {
    "u:object_r:system_file:s0"@
}

pub fn default_context_text() -> (r: String)
    ensures
        r@ == default_context(),
{
    String::from_str("u:object_r:system_file:s0")
}

/// The partitions that modules may provide.
pub open spec fn builtin_partitions() -> Seq<Seq<char>> {
    seq!["system"@, "vendor"@, "product"@, "system_ext"@, "odm"@, "oem"@]
}

/// The built-in partitions.
pub fn builtin_partition_names() -> (r: Vec<String>)
    ensures
        views(r@) == builtin_partitions(),
{
    let mut v: Vec<String> = Vec::new();
    v.push(String::from_str("system"));
    v.push(String::from_str("vendor"));
    v.push(String::from_str("product"));
    v.push(String::from_str("system_ext"));
    v.push(String::from_str("odm"));
    v.push(String::from_str("oem"));
    assert(views(v@) =~= builtin_partitions());
    v
}

/// Whether `name` is a built-in partition.
pub fn is_builtin_partition(name: &str) -> (r: bool)
    ensures
        r == builtin_partitions().contains(name@),
{
    let names = builtin_partition_names();
    let mut i: usize = 0;
    while i < names.len()
        invariant
            views(names@) == builtin_partitions(),
            i <= names@.len(),
            forall|j: int| 0 <= j < i ==> builtin_partitions()[j] != name@,
        decreases names@.len() - i,
    {
        if text_eq(names[i].as_str(), name) {
            assert(builtin_partitions()[i as int] == name@);
            return true;
        }
        i = i + 1;
    }
    false
}

/// Every built-in partition, then each extra partition that is no built-in and not listed
/// before it.
pub fn all_partitions(extras: &Vec<String>) -> (r: Vec<String>)
    ensures
        r@.len() >= 6,
        views(r@).subrange(0, 6) == builtin_partitions(),
        forall|a: int| 6 <= a < r@.len() ==> !builtin_partitions().contains(#[trigger] r@[a]@),
        forall|x: Seq<char>| #[trigger] views(r@).contains(x) <==> (builtin_partitions().contains(x)
            || views(extras@).contains(x)),
        forall|a: int, b: int| 6 <= a < b < r@.len() ==> r@[a]@ != r@[b]@,
{
    let mut out = builtin_partition_names();
    proof {
        reveal_strlit("system");
        reveal_strlit("vendor");
        reveal_strlit("product");
        reveal_strlit("system_ext");
        reveal_strlit("odm");
        reveal_strlit("oem");
        assert(views(out@).subrange(0, 6) =~= builtin_partitions());
    }
    let mut i: usize = 0;
    while i < extras.len()
        invariant
            i <= extras@.len(),
            out@.len() >= 6,
            views(out@).subrange(0, 6) == builtin_partitions(),
            forall|a: int| 6 <= a < out@.len() ==> !builtin_partitions().contains(#[trigger] out@[a]@),
            forall|x: Seq<char>| #[trigger] views(out@).contains(x) <==> (builtin_partitions().contains(x)
                || views(extras@.subrange(0, i as int)).contains(x)),
            forall|a: int, b: int| 6 <= a < b < out@.len() ==> out@[a]@ != out@[b]@,
        decreases extras@.len() - i,
    {
        let mut present = false;
        let mut j: usize = 0;
        while j < out.len()
            invariant
                i < extras@.len(),
                j <= out@.len(),
                present == exists|t: int| 0 <= t < j && #[trigger] out@[t]@ == extras@[i as int]@,
            decreases out@.len() - j,
        {
            if out[j] == extras[i] {
                present = true;
            }
            j = j + 1;
        }
        let ghost before = out@;
        let ghost x_new = extras@[i as int]@;
        assert(views(extras@.subrange(0, i + 1)) =~= views(extras@.subrange(0, i as int)).push(x_new));
        let ghost ei = views(extras@.subrange(0, i as int));
        if !present {
            out.push(extras[i].clone());
            proof {
                assert(views(out@) =~= views(before).push(x_new));
                assert(views(out@).subrange(0, 6) =~= views(before).subrange(0, 6));
                assert forall|x: Seq<char>| #[trigger] views(out@).contains(x) <==> (builtin_partitions().contains(x)
                    || views(extras@.subrange(0, i + 1)).contains(x)) by {
                    lemma_push_contains(views(before), x_new, x);
                    lemma_push_contains(ei, x_new, x);
                    assert(views(before).contains(x) == (builtin_partitions().contains(x) || ei.contains(x)));
                }
                assert forall|a: int| 6 <= a < out@.len() implies !builtin_partitions().contains(#[trigger] out@[a]@) by {
                    if a == before.len() {
                        if builtin_partitions().contains(x_new) {
                            let u = choose|u: int| 0 <= u < 6 && builtin_partitions()[u] == x_new;
                            assert(views(before).subrange(0, 6)[u] == x_new);
                            assert(before[u]@ == x_new);
                            assert(out@[u]@ == extras@[i as int]@);
                        }
                    } else {
                        assert(out@[a] == before[a]);
                    }
                }
                assert forall|a: int, b: int| 6 <= a < b < out@.len() implies out@[a]@ != out@[b]@ by {
                    if b == before.len() {
                        assert(out@[a] == before[a]);
                        assert(views(before)[a] == before[a]@);
                        if before[a]@ == x_new {
                            assert(before[a]@ == extras@[i as int]@);
                        }
                    }
                }
            }
        } else {
            proof {
                let t = choose|t: int| 0 <= t < j && #[trigger] out@[t]@ == extras@[i as int]@;
                assert(views(out@)[t] == x_new);
                assert(views(out@).contains(x_new));
                assert forall|x: Seq<char>| #[trigger] views(out@).contains(x) <==> (builtin_partitions().contains(x)
                    || views(extras@.subrange(0, i + 1)).contains(x)) by {
                    lemma_push_contains(ei, x_new, x);
                }
            }
        }
        i = i + 1;
    }
    assert(extras@.subrange(0, i as int) =~= extras@);
    out
}

/// Whether a child of the staging mount is removed before synchronising: anything but
/// `lost+found` and `meta-hybrid`.
pub fn should_wipe(name: &str) -> (r: bool)
    ensures
        r == !(name@ == "lost+found"@ || name@ == "meta-hybrid"@),
{
    !(text_eq(name, "lost+found") || text_eq(name, "meta-hybrid"))
}

/// Whether the subtree below directory entry `e` holds anything but directories.
pub open spec fn has_files(e: SourceEntry) -> bool
    decreases e, e.children@.len() + 1,
{
    files_upto(e, e.children@.len() as int)
}

/// Whether one of the first `k` children of `e` is no directory, or a directory whose
/// subtree holds anything but directories.
pub open spec fn files_upto(e: SourceEntry, k: int) -> bool
    decreases e, k,
{
    if k <= 0 || k > e.children@.len() {
        false
    } else {
        files_upto(e, k - 1) || e.children@[k - 1].kind != EntryKind::Directory || has_files(
            e.children@[k - 1],
        )
    }
}

proof fn lemma_entries_smaller(e: SourceEntry)
    ensures
        forall|i: int|
            0 <= i < e.children@.len() ==> decreases_to!(e => #[trigger] e.children@[i]),
{
    assert forall|i: int| 0 <= i < e.children@.len() implies decreases_to!(
        e => #[trigger] e.children@[i]
    ) by {
        assert(decreases_to!(e => e.children));
        assert(decreases_to!(e.children => e.children@));
        assert(decreases_to!(e.children@ => e.children@[i]));
    }
}

/// Whether the subtree below a directory entry holds anything but directories.
pub fn dir_has_files(e: &SourceEntry) -> (r: bool)
    ensures
        r == has_files(*e),
    decreases e,
{
    proof {
        lemma_entries_smaller(*e);
    }
    let mut k: usize = 0;
    while k < e.children.len()
        invariant
            k <= e.children@.len(),
            !files_upto(*e, k as int),
            forall|i: int|
                0 <= i < e.children@.len() ==> decreases_to!(*e => #[trigger] e.children@[i]),
        decreases e.children@.len() - k,
    {
        let c = &e.children[k];
        if c.kind != EntryKind::Directory || dir_has_files(c) {
            assert(files_upto(*e, k + 1));
            proof {
                lemma_files_upto_mono(*e, k + 1);
            }
            return true;
        }
        k = k + 1;
    }
    false
}

proof fn lemma_files_upto_mono(e: SourceEntry, k: int)
    requires
        0 <= k <= e.children@.len(),
        files_upto(e, k),
    ensures
        has_files(e),
    decreases e.children@.len() - k,
{
    if k < e.children@.len() {
        assert(files_upto(e, k + 1));
        lemma_files_upto_mono(e, k + 1);
    }
}

/// A module to synchronise: its source and the entries of the partition directories
/// it has.
#[derive(Debug)]
pub struct SyncModule {
    pub id: String,
    pub source_path: String,
    /// One directory entry for each partition directory that the module has.
    pub partitions: Vec<SourceEntry>,
}

/// A module copy to make: `source` to `target`.
#[derive(Debug)]
pub struct SyncJob {
    pub id: String,
    pub source: String,
    pub target: String,
}

/// Whether the module has a built-in partition directory with content.
pub open spec fn module_has_content(m: SyncModule) -> bool {
    exists|i: int|
        0 <= i < m.partitions@.len() && builtin_partitions().contains(
            (#[trigger] m.partitions@[i]).name@,
        ) && has_files(m.partitions@[i])
}

fn module_has_content_exec(m: &SyncModule) -> (r: bool)
    ensures
        r == module_has_content(*m),
{
    let mut i: usize = 0;
    while i < m.partitions.len()
        invariant
            i <= m.partitions@.len(),
            forall|j: int|
                0 <= j < i ==> !(builtin_partitions().contains((#[trigger] m.partitions@[j]).name@)
                    && has_files(m.partitions@[j])),
        decreases m.partitions@.len() - i,
    {
        let p = &m.partitions[i];
        if is_builtin_partition(p.name.as_str()) && dir_has_files(p) {
            return true;
        }
        i = i + 1;
    }
    false
}

/// The modules that get copied, in order: those with content in a built-in partition.
pub open spec fn synced(ms: Seq<SyncModule>) -> Seq<SyncModule>
    decreases ms.len(),
{
    if ms.len() == 0 {
        seq![]
    } else if module_has_content(ms.last()) {
        synced(ms.drop_last()).push(ms.last())
    } else {
        synced(ms.drop_last())
    }
}

/// Decides the copies of a synchronisation into `target_base`: each module with content
/// in a built-in partition is copied to `target_base/<id>`; the others are skipped.
pub fn perform_sync(modules: &Vec<SyncModule>, target_base: &str) -> (r: Vec<SyncJob>)
    ensures
        r@.len() == synced(modules@).len(),
        forall|k: int|
            0 <= k < r@.len() ==> (#[trigger] r@[k]).id@ == synced(modules@)[k].id@ && r@[k].source@
                == synced(modules@)[k].source_path@ && r@[k].target@ == join(
                target_base@,
                synced(modules@)[k].id@,
            ),
{
    let mut out: Vec<SyncJob> = Vec::new();
    let mut i: usize = 0;
    assert(modules@.subrange(0, 0) =~= Seq::<SyncModule>::empty());
    while i < modules.len()
        invariant
            i <= modules@.len(),
            out@.len() == synced(modules@.subrange(0, i as int)).len(),
            forall|k: int|
                0 <= k < out@.len() ==> (#[trigger] out@[k]).id@ == synced(modules@.subrange(0, i as int))[k].id@
                    && out@[k].source@ == synced(modules@.subrange(0, i as int))[k].source_path@
                    && out@[k].target@ == join(target_base@, synced(modules@.subrange(0, i as int))[k].id@),
        decreases modules@.len() - i,
    {
        let m = &modules[i];
        let ghost before = out@;
        assert(modules@.subrange(0, i + 1).drop_last() =~= modules@.subrange(0, i as int));
        assert(modules@.subrange(0, i + 1).last() == modules@[i as int]);
        if module_has_content_exec(m) {
            let target = path_join(target_base, m.id.as_str());
            out.push(SyncJob { id: m.id.clone(), source: m.source_path.clone(), target });
        }
        i = i + 1;
    }
    assert(modules@.subrange(0, i as int) =~= modules@);
    out
}

/// The label to give a copied path: that of its live counterpart where the counterpart
/// exists and its label could be read, else the default system file label.
pub fn copy_path_context(live_exists: bool, live_label: &Option<String>) -> (r: String)
    ensures
        r@ == if live_exists && live_label is Some {
            live_label->0@
        } else {
            default_context()
        },
{
    if live_exists {
        match live_label {
            Some(l) => l.clone(),
            None => default_context_text(),
        }
    } else {
        default_context_text()
    }
}

/// The live counterpart of a path inside a synchronised module: `/` followed by the path
/// relative to the module root.
pub open spec fn live_path(module_root: Seq<char>, p: Seq<char>) -> Seq<char> {
    let rest = p.subrange(module_root.len() as int, p.len() as int);
    if rest.len() > 0 && rest[0] == '/' {
        rest
    } else {
        "/"@ + rest
    }
}

/// The live counterpart of `p`, a path under `module_root`.
pub fn live_counterpart(module_root: &str, p: &str) -> (r: String)
    requires
        is_prefix(module_root@, p@),
    ensures
        r@ == live_path(module_root@, p@),
{
    let n = p.unicode_len();
    let m = module_root.unicode_len();
    let rest = p.substring_char(m, n);
    if n > m && p.get_char(m) == '/' {
        String::from_str(rest)
    } else {
        String::from_str("/").concat(rest)
    }
}

/// One step of copying a module tree.
#[derive(Debug)]
pub enum CopyOp {
    /// Create `target` if it is missing, with the permissions of `source` and the default
    /// label.
    EnsureDir { source: String, target: String },
    /// Copy a file, then its permissions, and give it the default label.
    CopyFile { source: String, target: String },
    /// Recreate a symlink, replacing what is at `target`, with the default label.
    CopySymlink { source: String, target: String },
}

/// The kind, source and target of a copy step: kind 0 makes a directory, 1 copies a file,
/// 2 copies a symlink.
pub open spec fn copy_shape(op: CopyOp) -> (int, Seq<char>, Seq<char>) {
    match op {
        CopyOp::EnsureDir { source, target } => (0, source@, target@),
        CopyOp::CopyFile { source, target } => (1, source@, target@),
        CopyOp::CopySymlink { source, target } => (2, source@, target@),
    }
}

pub open spec fn copy_shapes(s: Seq<CopyOp>) -> Seq<(int, Seq<char>, Seq<char>)> {
    s.map_values(|o: CopyOp| copy_shape(o))
}

/// The steps that copy entry `e` from `src` to `dst`: a directory is made and then its
/// children copied, a symlink is copied as a symlink, anything else as a file.
pub open spec fn entry_steps(src: Seq<char>, dst: Seq<char>, e: SourceEntry) -> Seq<(int, Seq<char>, Seq<char>)>
    decreases e, e.children@.len() + 1,
{
    match e.kind {
        EntryKind::Directory => seq![(0int, src, dst)] + children_steps(src, dst, e, e.children@.len() as int),
        EntryKind::Symlink => seq![(2int, src, dst)],
        _ => seq![(1int, src, dst)],
    }
}

/// The steps that copy the first `k` children of `e` from under `src` to under `dst`.
pub open spec fn children_steps(src: Seq<char>, dst: Seq<char>, e: SourceEntry, k: int) -> Seq<(int, Seq<char>, Seq<char>)>
    decreases e, k,
{
    if k <= 0 || k > e.children@.len() {
        seq![]
    } else {
        children_steps(src, dst, e, k - 1) + entry_steps(
            join(src, e.children@[k - 1].name@),
            join(dst, e.children@[k - 1].name@),
            e.children@[k - 1],
        )
    }
}

fn copy_children(src: &str, dst: &str, e: &SourceEntry, ops: &mut Vec<CopyOp>)
    ensures
        final(ops)@.len() >= old(ops)@.len(),
        final(ops)@.subrange(0, old(ops)@.len() as int) == old(ops)@,
        copy_shapes(final(ops)@.subrange(old(ops)@.len() as int, final(ops)@.len() as int))
            == children_steps(src@, dst@, *e, e.children@.len() as int),
    decreases e,
{
    proof {
        lemma_entries_smaller(*e);
    }
    let ghost start = ops@;
    let mut k: usize = 0;
    assert(ops@.subrange(start.len() as int, ops@.len() as int) =~= Seq::<CopyOp>::empty());
    assert(ops@.subrange(0, start.len() as int) =~= start);
    while k < e.children.len()
        invariant
            k <= e.children@.len(),
            ops@.len() >= start.len(),
            ops@.subrange(0, start.len() as int) == start,
            copy_shapes(ops@.subrange(start.len() as int, ops@.len() as int)) == children_steps(src@, dst@, *e, k as int),
            forall|i: int|
                0 <= i < e.children@.len() ==> decreases_to!(*e => #[trigger] e.children@[i]),
        decreases e.children@.len() - k,
    {
        let c = &e.children[k];
        let source = path_join(src, c.name.as_str());
        let target = path_join(dst, c.name.as_str());
        let ghost before = ops@;
        match c.kind {
            EntryKind::Directory => {
                ops.push(CopyOp::EnsureDir { source: source.clone(), target: target.clone() });
                let ghost mid = ops@;
                copy_children(source.as_str(), target.as_str(), c, ops);
                proof {
                    assert(ops@.subrange(0, mid.len() as int) == mid);
                    assert forall|x: int| 0 <= x < mid.len() implies ops@[x] == mid[x] by {
                        assert(ops@.subrange(0, mid.len() as int)[x] == ops@[x]);
                    }
                    assert(mid == before.push(mid.last()));
                    let pa = ops@.subrange(start.len() as int, mid.len() as int);
                    let pb = ops@.subrange(mid.len() as int, ops@.len() as int);
                    assert(ops@.subrange(start.len() as int, ops@.len() as int) =~= pa + pb);
                    let bp = before.subrange(start.len() as int, before.len() as int).push(mid.last());
                    assert(pa.len() == bp.len());
                    assert forall|x: int| 0 <= x < pa.len() implies pa[x] == bp[x] by {
                        assert(pa[x] == ops@[start.len() + x]);
                        assert(ops@[start.len() + x] == mid[start.len() + x]);
                        if start.len() + x < before.len() {
                            assert(mid[start.len() + x] == before[start.len() + x]);
                        }
                    }
                    assert(pa =~= bp);
                    assert(copy_shapes(pa + pb) =~= copy_shapes(pa) + copy_shapes(pb));
                    assert(copy_shapes(pa) =~= copy_shapes(before.subrange(start.len() as int, before.len() as int)).push(copy_shape(mid.last())));
                    assert(copy_shapes(ops@.subrange(start.len() as int, ops@.len() as int)) =~= copy_shapes(before.subrange(start.len() as int, before.len() as int))
                        + seq![(0int, source@, target@)] + children_steps(source@, target@, *c, c.children@.len() as int));
                }
            },
            EntryKind::Symlink => {
                ops.push(CopyOp::CopySymlink { source, target });
                assert(ops@.subrange(start.len() as int, ops@.len() as int) =~= before.subrange(start.len() as int, before.len() as int)
                    + seq![ops@.last()]);
            },
            _ => {
                ops.push(CopyOp::CopyFile { source, target });
                assert(ops@.subrange(start.len() as int, ops@.len() as int) =~= before.subrange(start.len() as int, before.len() as int)
                    + seq![ops@.last()]);
            },
        }
        proof {
            lemma_entries_smaller(*c);
            assert(ops@.subrange(0, start.len() as int) =~= before.subrange(0, start.len() as int));
            assert(children_steps(src@, dst@, *e, k + 1) == children_steps(src@, dst@, *e, k as int)
                + entry_steps(source@, target@, *c));
            assert(copy_shapes(ops@.subrange(start.len() as int, ops@.len() as int)) =~= children_steps(src@, dst@, *e, k + 1));
        }
        k = k + 1;
    }
}

/// The steps that copy the module tree at `src`, whose entries are `root`, to `dst`,
/// keeping permissions and symlinks: `dst` itself first, then every entry below it in
/// order, parents before their children, each as a directory, a symlink or a file
/// according to its kind, from its path under `src` to the same path under `dst`.
pub fn sync_dir(src: &str, dst: &str, root: &SourceEntry) -> (r: Vec<CopyOp>)
    requires
        root.kind == EntryKind::Directory,
    ensures
        copy_shapes(r@) == entry_steps(src@, dst@, *root),
{
    let mut ops: Vec<CopyOp> = Vec::new();
    ops.push(CopyOp::EnsureDir { source: String::from_str(src), target: String::from_str(dst) });
    let ghost first = ops@;
    copy_children(src, dst, root, &mut ops);
    proof {
        lemma_entries_smaller(*root);
        assert(ops@ =~= first + ops@.subrange(1, ops@.len() as int));
        assert(copy_shapes(ops@) =~= entry_steps(src@, dst@, *root));
    }
    ops
}

} // verus!
