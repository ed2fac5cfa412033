//! The mount plan of the magic-mount engine: tmpfs decisions and the ordered mount
//! operations that realise a merged tree over the host.
use vstd::prelude::*;
use crate::magic::{Node, NodeFileType, wf, lemma_children_smaller};
use crate::text::{path_join, join, views};

verus! {

/// The kind of a host path, as `lstat` reports it.
#[derive(PartialEq, Eq, Structural, Clone, Copy, Debug)]
pub enum HostKind {
    RegularFile,
    Directory,
    Symlink,
    Other,
}

/// What the host shows at one path of the merged tree.
#[derive(Debug)]
pub struct HostEntry {
    pub name: String,
    /// The `lstat` kind of the path; `None` where `lstat` fails.
    pub kind: Option<HostKind>,
    /// Whether the path exists, symlinks followed.
    pub exists: bool,
    /// The host entries for the children of the matching node that the host has.
    pub children: Vec<HostEntry>,
}

/// One operation of a mount plan. Paths are absolute.
#[derive(Debug)]
pub enum MountOp {
    /// Create a directory and its missing parents.
    MakeDirAll { path: String },
    /// Create one directory.
    MakeDir { path: String },
    /// Copy mode, owner, group and SELinux label of `from` onto `to`.
    CopyAttrs { from: String, to: String },
    /// Bind `path` onto itself, so that the mount can be moved later.
    BindSelf { path: String },
    /// Create an empty file.
    CreateFile { path: String },
    /// Bind-mount a module file onto `target`.
    BindFile { source: String, target: String },
    /// Register `path` with the root driver for unmounting in app namespaces.
    MarkUnmountable { path: String },
    /// Remount `path` read-only.
    RemountReadOnly { path: String },
    /// Recreate the symlink `source` at `target`, with its label.
    CloneSymlink { source: String, target: String },
    /// Mirror each entry of `host_dir` into `work_dir`, except the names in `except`.
    MirrorDir { host_dir: String, work_dir: String, except: Vec<String> },
    /// Move the mount at `from` onto `to`.
    MoveMount { from: String, to: String },
    /// Make the mount at `path` private.
    MakePrivate { path: String },
}

impl MountOp {
    /// Whether a failure of this operation is tolerated rather than ending the run.
    pub fn is_best_effort(&self) -> (r: bool)
        ensures
            r == (self is MarkUnmountable || self is RemountReadOnly || self is MakePrivate),
    {
        match self {
            MountOp::MarkUnmountable { .. } => true,
            MountOp::RemountReadOnly { .. } => true,
            MountOp::MakePrivate { .. } => true,
            _ => false,
        }
    }
}

/// The host entry for the child `name`, the first with that name.
pub open spec fn host_child(h: Option<HostEntry>, name: Seq<char>) -> Option<HostEntry> {
    match h {
        Some(e) => host_child_in(e.children@, name),
        None => None,
    }
}

pub open spec fn host_child_in(s: Seq<HostEntry>, name: Seq<char>) -> Option<HostEntry>
    decreases s.len(),
{
    if s.len() == 0 {
        None
    } else if s[0].name@ == name {
        Some(s[0])
    } else {
        host_child_in(s.drop_first(), name)
    }
}

/// Looks up the host entry for the child `name`.
pub fn lookup_host<'a>(h: Option<&'a HostEntry>, name: &String) -> (r: Option<&'a HostEntry>)
    ensures
        deref_opt(r) == host_child(deref_opt(h), name@),
{
    match h {
        None => None,
        Some(e) => {
            let mut i: usize = 0;
            assert(deref_opt(h) == Some(*e));
            assert(e.children@.subrange(0, e.children@.len() as int) =~= e.children@);
            while i < e.children.len()
                invariant
                    deref_opt(h) == Some(*e),
                    i <= e.children@.len(),
                    host_child_in(e.children@, name@) == host_child_in(
                        e.children@.subrange(i as int, e.children@.len() as int),
                        name@,
                    ),
                decreases e.children@.len() - i,
            {
                let ghost rest = e.children@.subrange(i as int, e.children@.len() as int);
                assert(rest.drop_first() =~= e.children@.subrange(i + 1, e.children@.len() as int));
                assert(rest[0] == e.children@[i as int]);
                if e.children[i].name == *name {
                    assert(host_child_in(rest, name@) == Some(rest[0]));
                    let found = &e.children[i];
                    assert(deref_opt(h) == Some(*e));
                    assert(host_child(deref_opt(h), name@) == Some(*found));
                    assert(deref_opt(Some(found)) == Some(*found));
                    return Some(found);
                }
                i = i + 1;
            }
            assert(e.children@.subrange(i as int, e.children@.len() as int).len() == 0);
            None
        },
    }
}

/// The entry behind an optional borrow.
pub open spec fn deref_opt(h: Option<&HostEntry>) -> Option<HostEntry> {
    match h {
        Some(e) => Some(*e),
        None => None,
    }
}

/// The node type that a host kind counts as: anything but a file, directory or symlink
/// counts as a whiteout.
pub open spec fn host_type(k: HostKind) -> NodeFileType {
    match k {
        HostKind::RegularFile => NodeFileType::RegularFile,
        HostKind::Directory => NodeFileType::Directory,
        HostKind::Symlink => NodeFileType::Symlink,
        HostKind::Other => NodeFileType::Whiteout,
    }
}

/// Whether child `c` changes the shape of its host directory: it is a symlink, a whiteout
/// over an existing entry, or an entry the host lacks or has with another type (or as a
/// symlink).
pub open spec fn child_needs_tmpfs(c: Node, on_host: Option<HostEntry>) -> bool {
    match c.file_type {
        NodeFileType::Symlink => true,
        NodeFileType::Whiteout => on_host is Some && on_host->0.exists,
        _ => match on_host {
            Some(h) => match h.kind {
                Some(k) => host_type(k) != c.file_type || k == HostKind::Symlink,
                None => true,
            },
            None => true,
        },
    }
}

/// Whether a directory node needs a tmpfs shadow: it is already under one, it replaces
/// its host directory and has a backing path, or it has a backing path and a child that
/// changes the shape of the host directory.
pub open spec fn needs_tmpfs(node: Node, host: Option<HostEntry>, has_tmpfs: bool) -> bool {
    ||| has_tmpfs
    ||| (node.replace && node.backing_path is Some)
    ||| (node.backing_path is Some && exists|i: int|
        0 <= i < node.children@.len() && #[trigger] child_needs_tmpfs(
            node.children@[i],
            host_child(host, node.children@[i].name@),
        ))
}

/// Decides whether a directory needs a tmpfs shadow over its host path.
pub fn should_create_tmpfs(node: &Node, host: Option<&HostEntry>, has_tmpfs: bool) -> (r: bool)
    ensures
        r == needs_tmpfs(*node, deref_opt(host), has_tmpfs),
{
    if has_tmpfs {
        return true;
    }
    if node.replace && node.backing_path.is_some() {
        return true;
    }
    let mut i: usize = 0;
    while i < node.children.len()
        invariant
            !has_tmpfs,
            !(node.replace && node.backing_path is Some),
            i <= node.children@.len(),
            forall|j: int|
                0 <= j < i ==> !#[trigger] child_needs_tmpfs(
                    node.children@[j],
                    host_child(deref_opt(host), node.children@[j].name@),
                ),
        decreases node.children@.len() - i,
    {
        let child = &node.children[i];
        let on_host = lookup_host(host, &child.name);
        let need = match child.file_type {
            NodeFileType::Symlink => true,
            NodeFileType::Whiteout => match on_host {
                Some(h) => h.exists,
                None => false,
            },
            _ => match on_host {
                Some(h) => match h.kind {
                    Some(k) => {
                        let t = match k {
                            HostKind::RegularFile => NodeFileType::RegularFile,
                            HostKind::Directory => NodeFileType::Directory,
                            HostKind::Symlink => NodeFileType::Symlink,
                            HostKind::Other => NodeFileType::Whiteout,
                        };
                        t != child.file_type || k == HostKind::Symlink
                    },
                    None => true,
                },
                None => true,
            },
        };
        assert(need == child_needs_tmpfs(node.children@[i as int], deref_opt(on_host)));
        if need {
            return node.backing_path.is_some();
        }
        i = i + 1;
    }
    false
}

/// The kind and paths of a mount operation, as plain values.
pub enum OpShape {
    MakeDirAll(Seq<char>),
    MakeDir(Seq<char>),
    CopyAttrs(Seq<char>, Seq<char>),
    BindSelf(Seq<char>),
    CreateFile(Seq<char>),
    BindFile(Seq<char>, Seq<char>),
    MarkUnmountable(Seq<char>),
    RemountReadOnly(Seq<char>),
    CloneSymlink(Seq<char>, Seq<char>),
    MirrorDir(Seq<char>, Seq<char>, Seq<Seq<char>>),
    MoveMount(Seq<char>, Seq<char>),
    MakePrivate(Seq<char>),
}

pub open spec fn shape(op: MountOp) -> OpShape {
    match op {
        MountOp::MakeDirAll { path } => OpShape::MakeDirAll(path@),
        MountOp::MakeDir { path } => OpShape::MakeDir(path@),
        MountOp::CopyAttrs { from, to } => OpShape::CopyAttrs(from@, to@),
        MountOp::BindSelf { path } => OpShape::BindSelf(path@),
        MountOp::CreateFile { path } => OpShape::CreateFile(path@),
        MountOp::BindFile { source, target } => OpShape::BindFile(source@, target@),
        MountOp::MarkUnmountable { path } => OpShape::MarkUnmountable(path@),
        MountOp::RemountReadOnly { path } => OpShape::RemountReadOnly(path@),
        MountOp::CloneSymlink { source, target } => OpShape::CloneSymlink(source@, target@),
        MountOp::MirrorDir { host_dir, work_dir, except } => OpShape::MirrorDir(
            host_dir@,
            work_dir@,
            views(except@),
        ),
        MountOp::MoveMount { from, to } => OpShape::MoveMount(from@, to@),
        MountOp::MakePrivate { path } => OpShape::MakePrivate(path@),
    }
}

/// The shapes of a sequence of operations.
pub open spec fn shapes(s: Seq<MountOp>) -> Seq<OpShape> {
    s.map_values(|o: MountOp| shape(o))
}

/// The operations that mount a file node: an empty file at the work path under a tmpfs,
/// then the bind of its backing file onto the target, the unmount hint unless disabled,
/// and the read-only remount of the target.
pub open spec fn file_shapes(node: Node, path: Seq<char>, work: Seq<char>, has_tmpfs: bool, disable_umount: bool) -> Seq<OpShape> {
    let t = if has_tmpfs { work } else { path };
    let pre = if has_tmpfs { seq![OpShape::CreateFile(work)] } else { seq![] };
    match node.backing_path {
        Some(s) => pre + seq![OpShape::BindFile(s@, t)] + (if disable_umount {
            seq![]
        } else {
            seq![OpShape::MarkUnmountable(t)]
        }) + seq![OpShape::RemountReadOnly(t)],
        None => pre,
    }
}

/// The operation that mounts a symlink node: its copy at the work path.
pub open spec fn symlink_shapes(node: Node, work: Seq<char>) -> Seq<OpShape> {
    match node.backing_path {
        Some(s) => seq![OpShape::CloneSymlink(s@, work)],
        None => seq![],
    }
}

/// The names of the children of `n`.
pub open spec fn child_names(n: Node) -> Seq<Seq<char>> {
    n.children@.map_values(|c: Node| c.name@)
}

/// Whether the directory node gets a tmpfs shadow of its own.
pub open spec fn creates_tmpfs(node: Node, host: Option<HostEntry>, has_tmpfs: bool) -> bool {
    !has_tmpfs && needs_tmpfs(node, host, false)
}

/// The operations of a directory node before its children: for a new tmpfs, the work
/// directory with its parents, the attributes of the host directory (or, where that is
/// missing, of the backing directory) and a bind onto itself; under a tmpfs being built,
/// the work directory and its attributes; then, where a tmpfs is in effect over an
/// existing host directory that the node does not replace, the mirror of the host
/// entries whose names the node does not have.
pub open spec fn dir_pre_shapes(node: Node, host: Option<HostEntry>, path: Seq<char>, work: Seq<char>, has_tmpfs: bool) -> Seq<OpShape> {
    let create = creates_tmpfs(node, host, has_tmpfs);
    let host_exists = host is Some && host->0.exists;
    let attrs = if host_exists {
        seq![OpShape::CopyAttrs(path, work)]
    } else {
        match node.backing_path {
            Some(b) => seq![OpShape::CopyAttrs(b@, work)],
            None => seq![],
        }
    };
    let make = if create {
        seq![OpShape::MakeDirAll(work)] + attrs + seq![OpShape::BindSelf(work)]
    } else if has_tmpfs {
        seq![OpShape::MakeDir(work)] + attrs
    } else {
        seq![]
    };
    let mirror = if (has_tmpfs || create) && host_exists && !node.replace {
        seq![OpShape::MirrorDir(path, work, child_names(node))]
    } else {
        seq![]
    };
    make + mirror
}

/// The operations of a directory node after its children: for a new tmpfs, the read-only
/// remount of the work directory, its move onto the host path, private propagation there
/// and the unmount hint unless disabled.
pub open spec fn dir_post_shapes(node: Node, host: Option<HostEntry>, path: Seq<char>, work: Seq<char>, has_tmpfs: bool, disable_umount: bool) -> Seq<OpShape> {
    if creates_tmpfs(node, host, has_tmpfs) {
        seq![
            OpShape::RemountReadOnly(work),
            OpShape::MoveMount(work, path),
            OpShape::MakePrivate(path),
        ] + if disable_umount {
            seq![]
        } else {
            seq![OpShape::MarkUnmountable(path)]
        }
    } else {
        seq![]
    }
}

/// The source and target of a leaf operation: a file bind or a symlink copy.
pub open spec fn leaf_pair(op: MountOp) -> Option<(Seq<char>, Seq<char>)> {
    match op {
        MountOp::BindFile { source, target } => Some((source@, target@)),
        MountOp::CloneSymlink { source, target } => Some((source@, target@)),
        _ => None,
    }
}

/// The sources and targets of the leaf operations of a plan, in order.
pub open spec fn leaf_seq(s: Seq<MountOp>) -> Seq<(Seq<char>, Seq<char>)>
    decreases s.len(),
{
    if s.len() == 0 {
        seq![]
    } else {
        match leaf_pair(s.last()) {
            Some(p) => leaf_seq(s.drop_last()).push(p),
            None => leaf_seq(s.drop_last()),
        }
    }
}

pub proof fn lemma_leaf_seq_concat(a: Seq<MountOp>, b: Seq<MountOp>)
    ensures
        leaf_seq(a + b) == leaf_seq(a) + leaf_seq(b),
    decreases b.len(),
{
    if b.len() == 0 {
        assert(a + b =~= a);
        assert(leaf_seq(a) + leaf_seq(b) =~= leaf_seq(a));
    } else {
        lemma_leaf_seq_concat(a, b.drop_last());
        assert((a + b).drop_last() =~= a + b.drop_last());
        assert((a + b).last() == b.last());
        match leaf_pair(b.last()) {
            Some(p) => {
                assert(leaf_seq(a) + leaf_seq(b) =~= (leaf_seq(a) + leaf_seq(b.drop_last())).push(p));
            },
            None => {},
        }
    }
}

/// The leaves that mounting `node` under `parent` must realise, in order: for each file
/// or symlink node with a backing path, below directories and skipping skipped children,
/// its backing path and the path it goes to (the work path under a tmpfs or for a
/// symlink, else the host path).
pub open spec fn leaf_pairs(node: Node, host: Option<HostEntry>, parent: Seq<char>, work_parent: Seq<char>, has_tmpfs: bool) -> Seq<(Seq<char>, Seq<char>)>
    decreases node, node.children@.len() + 1,
{
    let path = join(parent, node.name@);
    let work = join(work_parent, node.name@);
    match node.file_type {
        NodeFileType::RegularFile => match node.backing_path {
            Some(s) => seq![(s@, if has_tmpfs { work } else { path })],
            None => seq![],
        },
        NodeFileType::Symlink => match node.backing_path {
            Some(s) => seq![(s@, work)],
            None => seq![],
        },
        NodeFileType::Whiteout => seq![],
        NodeFileType::Directory => leaf_pairs_upto(
            node,
            host,
            path,
            work,
            has_tmpfs || needs_tmpfs(node, host, false),
            node.children@.len() as int,
        ),
    }
}

/// The leaves under the first `k` children of directory `node`, which stands at `path`.
pub open spec fn leaf_pairs_upto(node: Node, host: Option<HostEntry>, path: Seq<char>, work: Seq<char>, eff: bool, k: int) -> Seq<(Seq<char>, Seq<char>)>
    decreases node, k,
{
    if k <= 0 || k > node.children@.len() {
        seq![]
    } else {
        leaf_pairs_upto(node, host, path, work, eff, k - 1) + if node.children@[k - 1].skip {
            seq![]
        } else {
            leaf_pairs(
                node.children@[k - 1],
                host_child(host, node.children@[k - 1].name@),
                path,
                work,
                eff,
            )
        }
    }
}

fn push_op(ops: &mut Vec<MountOp>, op: MountOp)
    ensures
        final(ops)@ == old(ops)@.push(op),
{
    ops.push(op);
}

fn clone_opt(p: &Option<String>) -> (r: Option<String>)
    ensures
        r == *p,
{
    match p {
        Some(s) => Some(s.clone()),
        None => None,
    }
}

proof fn lemma_split_leaves(s: Seq<MountOp>, a: int, b: int, c: int)
    requires
        0 <= a <= b <= c <= s.len(),
    ensures
        leaf_seq(s.subrange(a, c)) == leaf_seq(s.subrange(a, b)) + leaf_seq(s.subrange(b, c)),
{
    assert(s.subrange(a, c) =~= s.subrange(a, b) + s.subrange(b, c));
    lemma_leaf_seq_concat(s.subrange(a, b), s.subrange(b, c));
}

/// Appends to `ops` the operations that mount `node` at `parent/<name>`, working in
/// `work_parent/<name>` while a tmpfs shadow is being built. `host` is what the host
/// shows at the node's path. The operations of each kind of node are given exactly; the
/// leaf operations, in order, are one bind or symlink for each leaf below the node.
#[verifier::rlimit(100)]
pub fn do_magic_mount(
    parent: &str,
    work_parent: &str,
    node: &Node,
    host: Option<&HostEntry>,
    has_tmpfs: bool,
    disable_umount: bool,
    ops: &mut Vec<MountOp>,
)
    requires
        wf(*node),
    ensures
        final(ops)@.len() >= old(ops)@.len(),
        final(ops)@.subrange(0, old(ops)@.len() as int) == old(ops)@,
        leaf_seq(final(ops)@.subrange(old(ops)@.len() as int, final(ops)@.len() as int))
            == leaf_pairs(*node, deref_opt(host), parent@, work_parent@, has_tmpfs),
        node.file_type == NodeFileType::RegularFile ==> shapes(
            final(ops)@.subrange(old(ops)@.len() as int, final(ops)@.len() as int),
        ) == file_shapes(
            *node,
            join(parent@, node.name@),
            join(work_parent@, node.name@),
            has_tmpfs,
            disable_umount,
        ),
        node.file_type == NodeFileType::Symlink ==> shapes(
            final(ops)@.subrange(old(ops)@.len() as int, final(ops)@.len() as int),
        ) == symlink_shapes(*node, join(work_parent@, node.name@)),
        node.file_type == NodeFileType::Whiteout ==> final(ops)@ == old(ops)@,
        node.file_type == NodeFileType::Directory ==> ({
            let path = join(parent@, node.name@);
            let work = join(work_parent@, node.name@);
            let pre = dir_pre_shapes(*node, deref_opt(host), path, work, has_tmpfs);
            let post = dir_post_shapes(*node, deref_opt(host), path, work, has_tmpfs, disable_umount);
            let o = old(ops)@.len() as int;
            let n = final(ops)@.len() as int;
            &&& n >= o + pre.len() + post.len()
            &&& shapes(final(ops)@.subrange(o, o + pre.len())) == pre
            &&& shapes(final(ops)@.subrange(n - post.len(), n)) == post
        }),
    decreases node,
{
    proof {
        lemma_children_smaller(*node);
    }
    let ghost o = ops@;
    let path = path_join(parent, node.name.as_str());
    let work = path_join(work_parent, node.name.as_str());
    match node.file_type {
        NodeFileType::RegularFile => {
            let target = if has_tmpfs {
                push_op(ops, MountOp::CreateFile { path: work.clone() });
                work
            } else {
                path
            };
            match &node.backing_path {
                Some(src) => {
                    push_op(ops, MountOp::BindFile { source: src.clone(), target: target.clone() });
                    if !disable_umount {
                        push_op(ops, MountOp::MarkUnmountable { path: target.clone() });
                    }
                    push_op(ops, MountOp::RemountReadOnly { path: target });
                },
                None => {},
            }
            proof {
                let added = ops@.subrange(o.len() as int, ops@.len() as int);
                assert(ops@.subrange(0, o.len() as int) =~= o);
                assert(shapes(added) =~= file_shapes(*node, path@, work@, has_tmpfs, disable_umount));
                let a = ops@.subrange(o.len() as int, ops@.len() as int);
                assert(leaf_seq(a) =~= leaf_pairs(*node, deref_opt(host), parent@, work_parent@, has_tmpfs)) by {
                    reveal_with_fuel(leaf_seq, 5);
                }
            }
        },
        NodeFileType::Symlink => {
            match &node.backing_path {
                Some(src) => {
                    push_op(ops, MountOp::CloneSymlink { source: src.clone(), target: work });
                },
                None => {},
            }
            proof {
                let a = ops@.subrange(o.len() as int, ops@.len() as int);
                assert(ops@.subrange(0, o.len() as int) =~= o);
                assert(shapes(a) =~= symlink_shapes(*node, work@));
                assert(leaf_seq(a) =~= leaf_pairs(*node, deref_opt(host), parent@, work_parent@, has_tmpfs)) by {
                    reveal_with_fuel(leaf_seq, 2);
                }
            }
        },
        NodeFileType::Whiteout => {
            proof {
                assert(ops@.subrange(0, ops@.len() as int) =~= ops@);
                assert(ops@.subrange(ops@.len() as int, ops@.len() as int) =~= Seq::<MountOp>::empty());
            }
        },
        NodeFileType::Directory => {
            let create_tmpfs = !has_tmpfs && should_create_tmpfs(node, host, false);
            let effective_tmpfs = has_tmpfs || create_tmpfs;
            let host_exists = match host {
                Some(h) => h.exists,
                None => false,
            };
            let attrs_from = if host_exists {
                Some(path.clone())
            } else {
                clone_opt(&node.backing_path)
            };
            if create_tmpfs {
                push_op(ops, MountOp::MakeDirAll { path: work.clone() });
                match attrs_from {
                    Some(from) => push_op(ops, MountOp::CopyAttrs { from, to: work.clone() }),
                    None => {},
                }
                push_op(ops, MountOp::BindSelf { path: work.clone() });
            } else if has_tmpfs {
                // Under a shadow being built, the work path of a directory is new: names
                // among siblings are unique and mirrored entries skip them.
                push_op(ops, MountOp::MakeDir { path: work.clone() });
                match attrs_from {
                    Some(from) => push_op(ops, MountOp::CopyAttrs { from, to: work.clone() }),
                    None => {},
                }
            }
            if effective_tmpfs && host_exists && !node.replace {
                let mut except: Vec<String> = Vec::new();
                let mut j: usize = 0;
                while j < node.children.len()
                    invariant
                        j <= node.children@.len(),
                        views(except@) == child_names(*node).subrange(0, j as int),
                    decreases node.children@.len() - j,
                {
                    let ghost before = except@;
                    except.push(node.children[j].name.clone());
                    assert(views(except@) =~= views(before).push(node.children@[j as int].name@));
                    assert(child_names(*node).subrange(0, j + 1) =~= child_names(*node).subrange(0, j as int).push(node.children@[j as int].name@));
                    j = j + 1;
                }
                assert(child_names(*node).subrange(0, j as int) =~= child_names(*node));
                push_op(
                    ops,
                    MountOp::MirrorDir { host_dir: path.clone(), work_dir: work.clone(), except },
                );
            }
            let ghost mid = ops@;
            let ghost pre = dir_pre_shapes(*node, deref_opt(host), path@, work@, has_tmpfs);
            proof {
                assert(ops@.subrange(0, o.len() as int) =~= o);
                assert(shapes(mid.subrange(o.len() as int, mid.len() as int)) =~= pre);
                assert(leaf_seq(mid.subrange(o.len() as int, mid.len() as int)) =~= Seq::<(Seq<char>, Seq<char>)>::empty()) by {
                    reveal_with_fuel(leaf_seq, 6);
                }
                assert(mid.subrange(mid.len() as int, mid.len() as int) =~= Seq::<MountOp>::empty());
            }
            let mut i: usize = 0;
            while i < node.children.len()
                invariant
                    wf(*node),
                    node.file_type == NodeFileType::Directory,
                    forall|c: int|
                        0 <= c < node.children@.len() ==> decreases_to!(*node => #[trigger] node.children@[c]),
                    i <= node.children@.len(),
                    ops@.len() >= mid.len(),
                    ops@.subrange(0, mid.len() as int) == mid,
                    effective_tmpfs == (has_tmpfs || needs_tmpfs(*node, deref_opt(host), false)),
                    path@ == join(parent@, node.name@),
                    work@ == join(work_parent@, node.name@),
                    leaf_seq(ops@.subrange(mid.len() as int, ops@.len() as int)) == leaf_pairs_upto(
                        *node,
                        deref_opt(host),
                        path@,
                        work@,
                        effective_tmpfs,
                        i as int,
                    ),
                decreases node.children@.len() - i,
            {
                let child = &node.children[i];
                proof {
                    assert(wf(node.children@[i as int]));
                }
                let ghost before_child = ops@;
                if !child.skip {
                    let child_host = lookup_host(host, &child.name);
                    do_magic_mount(
                        path.as_str(),
                        work.as_str(),
                        child,
                        child_host,
                        effective_tmpfs,
                        disable_umount,
                        ops,
                    );
                    proof {
                        assert(ops@.subrange(0, mid.len() as int) =~= before_child.subrange(0, before_child.len() as int).subrange(0, mid.len() as int));
                        assert(ops@.subrange(mid.len() as int, before_child.len() as int) =~= before_child.subrange(mid.len() as int, before_child.len() as int));
                        lemma_split_leaves(ops@, mid.len() as int, before_child.len() as int, ops@.len() as int);
                    }
                } else {
                    assert(before_child.subrange(mid.len() as int, before_child.len() as int) == ops@.subrange(mid.len() as int, ops@.len() as int));
                }
                proof {
                    assert(leaf_pairs_upto(*node, deref_opt(host), path@, work@, effective_tmpfs, i + 1)
                        == leaf_pairs_upto(*node, deref_opt(host), path@, work@, effective_tmpfs, i as int) + if node.children@[i as int].skip {
                            seq![]
                        } else {
                            leaf_pairs(node.children@[i as int], host_child(deref_opt(host), node.children@[i as int].name@), path@, work@, effective_tmpfs)
                        });
                    if node.children@[i as int].skip {
                        assert(leaf_pairs_upto(*node, deref_opt(host), path@, work@, effective_tmpfs, i as int) + seq![]
                            =~= leaf_pairs_upto(*node, deref_opt(host), path@, work@, effective_tmpfs, i as int));
                    }
                }
                i = i + 1;
            }
            let ghost after_children = ops@;
            if create_tmpfs {
                push_op(ops, MountOp::RemountReadOnly { path: work.clone() });
                push_op(ops, MountOp::MoveMount { from: work.clone(), to: path.clone() });
                push_op(ops, MountOp::MakePrivate { path: path.clone() });
                if !disable_umount {
                    push_op(ops, MountOp::MarkUnmountable { path: path.clone() });
                }
            }
            proof {
                let post = dir_post_shapes(*node, deref_opt(host), path@, work@, has_tmpfs, disable_umount);
                let n = ops@.len() as int;
                let ac = after_children.len() as int;
                assert(ops@.subrange(0, ac) =~= after_children);
                assert(shapes(ops@.subrange(ac, n)) =~= post);
                assert(n - post.len() == ac);
                assert(leaf_seq(ops@.subrange(ac, n)) =~= Seq::<(Seq<char>, Seq<char>)>::empty()) by {
                    reveal_with_fuel(leaf_seq, 5);
                }
                assert(ops@.subrange(0, mid.len() as int) =~= mid);
                assert(ops@.subrange(0, o.len() as int) =~= o);
                assert(ops@.subrange(o.len() as int, o.len() as int + pre.len()) =~= mid.subrange(o.len() as int, mid.len() as int));
                assert(ops@.subrange(mid.len() as int, ac) =~= after_children.subrange(mid.len() as int, ac));
                assert(ops@.subrange(o.len() as int, mid.len() as int) =~= mid.subrange(o.len() as int, mid.len() as int));
                lemma_split_leaves(ops@, o.len() as int, mid.len() as int, ac);
                lemma_split_leaves(ops@, o.len() as int, ac, n);
                assert(leaf_seq(ops@.subrange(o.len() as int, n)) =~= leaf_pairs(*node, deref_opt(host), parent@, work_parent@, has_tmpfs));
            }
        },
    }
}

/// The plan of a whole magic mount: the merged root over `/`, built in `work_dir`.
/// Its leaf operations are exactly one bind or symlink for each leaf of the tree, from
/// the leaf's backing path to its path.
pub fn plan_magic_mount(root: &Node, host_root: &HostEntry, work_dir: &str, disable_umount: bool) -> (r: Vec<MountOp>)
    requires
        wf(*root),
    ensures
        leaf_seq(r@) == leaf_pairs(*root, Some(*host_root), "/"@, work_dir@, false),
{
    let mut ops: Vec<MountOp> = Vec::new();
    do_magic_mount("/", work_dir, root, Some(host_root), false, disable_umount, &mut ops);
    assert(ops@.subrange(0, ops@.len() as int) =~= ops@);
    ops
}

} // verus!
