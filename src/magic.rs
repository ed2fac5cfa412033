//! The magic-mount engine: the merged node tree built from module trees.
use vstd::prelude::*;
use crate::text::text_eq;

verus! {

/// What a node of the merged tree stands for.
#[derive(PartialEq, Eq, Structural, Clone, Copy, Debug)]
pub enum NodeFileType {
    RegularFile,
    Directory,
    Symlink,
    Whiteout,
}

/// One node of the merged tree.
#[derive(Debug)]
pub struct Node {
    pub name: String,
    pub file_type: NodeFileType,
    pub children: Vec<Node>,
    /// The backing file in a module; `None` for the synthetic root and `system` nodes.
    pub backing_path: Option<String>,
    pub replace: bool,
    pub skip: bool,
    /// Whether the backing path, symlinks followed, is a directory.
    pub backing_is_dir: bool,
}

/// Whether `b` keeps every node of `a`, with its name, type, backing path and flags.
pub open spec fn extends(a: Node, b: Node) -> bool
    decreases a,
{
    &&& b.name@ == a.name@
    &&& b.file_type == a.file_type
    &&& b.backing_path == a.backing_path
    &&& b.replace == a.replace
    &&& b.skip == a.skip
    &&& b.backing_is_dir == a.backing_is_dir
    &&& b.children@.len() >= a.children@.len()
    &&& forall|i: int|
        0 <= i < a.children@.len() ==> extends(#[trigger] a.children@[i], b.children@[i])
}

/// The kind of an entry of a module's tree, as `lstat` reports it.
#[derive(PartialEq, Eq, Structural, Clone, Copy, Debug)]
pub enum EntryKind {
    RegularFile,
    Directory,
    Symlink,
    CharDevice,
    Other,
}

/// One entry of a module's tree, as read from disk.
#[derive(Debug)]
pub struct SourceEntry {
    pub name: String,
    /// Absolute path of the entry.
    pub path: String,
    pub kind: EntryKind,
    /// Device number, meaningful for character devices.
    pub rdev: u64,
    /// Value of the `trusted.overlay.opaque` attribute, where it could be read.
    pub opaque_xattr: Option<Vec<u8>>,
    /// Whether a `.replace` file exists directly inside this directory.
    pub has_replace_file: bool,
    /// Whether the path, symlinks followed, is a directory.
    pub target_is_dir: bool,
    /// The entries of a directory; empty for anything else.
    pub children: Vec<SourceEntry>,
}

/// The node type an entry becomes: a character device with device number 0 is a whiteout.
pub open spec fn entry_type(e: SourceEntry) -> Option<NodeFileType> {
    match e.kind {
        EntryKind::RegularFile => Some(NodeFileType::RegularFile),
        EntryKind::Directory => Some(NodeFileType::Directory),
        EntryKind::Symlink => Some(NodeFileType::Symlink),
        EntryKind::CharDevice => if e.rdev == 0 {
            Some(NodeFileType::Whiteout)
        } else {
            None
        },
        EntryKind::Other => None,
    }
}

/// Whether an opaque attribute value reads `y`.
pub open spec fn opaque_marker(v: Option<Vec<u8>>) -> bool {
    v is Some && v->0@ == seq![121u8]
}

/// Whether a directory entry asks to replace its host directory.
pub open spec fn replace_marked(e: SourceEntry) -> bool {
    opaque_marker(e.opaque_xattr) || e.has_replace_file
}

/// Whether a directory replaces its host counterpart: its opaque attribute reads `y`,
/// or it holds a `.replace` file.
pub fn dir_is_replace(opaque_xattr: &Option<Vec<u8>>, has_replace_file: bool) -> (r: bool)
    ensures
        r == (opaque_marker(*opaque_xattr) || has_replace_file),
{
    let opaque = match opaque_xattr {
        Some(v) => v.len() == 1 && v[0] == 121u8,
        None => false,
    };
    proof {
        if let Some(v) = opaque_xattr {
            if v.len() == 1 && v[0] == 121u8 {
                assert(v@ =~= seq![121u8]);
            }
        }
    }
    opaque || has_replace_file
}

/// Whether `n` is the node that entry `e` first becomes.
pub open spec fn fresh_from(n: Node, e: SourceEntry) -> bool {
    &&& entry_type(e) == Some(n.file_type)
    &&& n.name@ == e.name@
    &&& n.backing_path is Some
    &&& n.backing_path->0@ == e.path@
    &&& n.replace == (n.file_type == NodeFileType::Directory && replace_marked(e))
    &&& !n.skip
    &&& n.backing_is_dir == e.target_is_dir
}

/// Each child that `m` has beyond those of `n` is the fresh node of an entry whose name
/// `n` did not have.
pub open spec fn added_from(n: Node, m: Node, entries: Seq<SourceEntry>) -> bool {
    forall|j: int|
        #![trigger m.children@[j]]
        n.children@.len() <= j < m.children@.len() ==> exists|k: int|
            #![trigger entries[k]]
            0 <= k < entries.len() && fresh_from(m.children@[j], entries[k])
                && !has_child(n, entries[k].name@)
}

/// Names of the children are pairwise distinct.
pub open spec fn names_unique(s: Seq<Node>) -> bool {
    forall|i: int, j: int|
        0 <= i < s.len() && 0 <= j < s.len() && i != j ==> s[i].name@ != s[j].name@
}

/// Well-formed tree: unique child names, and only directories have children.
pub open spec fn wf(n: Node) -> bool
    decreases n,
{
    &&& names_unique(n.children@)
    &&& (n.file_type != NodeFileType::Directory ==> n.children@.len() == 0)
    &&& forall|i: int| 0 <= i < n.children@.len() ==> wf(#[trigger] n.children@[i])
}

/// Whether a child of `n` is named `name`.
pub open spec fn has_child(n: Node, name: Seq<char>) -> bool {
    exists|i: int| 0 <= i < n.children@.len() && #[trigger] n.children@[i].name@ == name
}

/// Whether the subtree below `n` has content: some child has content of its own.
pub open spec fn content(n: Node) -> bool
    decreases n, 0int,
{
    exists|i: int| 0 <= i < n.children@.len() && child_content(#[trigger] n.children@[i])
}

/// Whether child `c` gives its parent content: it is no directory, or it is a directory
/// that replaces, or its own subtree has content.
pub open spec fn child_content(c: Node) -> bool
    decreases c, 1int,
{
    c.file_type != NodeFileType::Directory || c.replace || content(c)
}

/// Finds the child named `name`.
pub fn find_child(children: &Vec<Node>, name: &String) -> (r: Option<usize>)
    ensures
        match r {
            Some(i) => i < children@.len() && children@[i as int].name@ == name@,
            None => forall|i: int| 0 <= i < children@.len() ==> children@[i].name@ != name@,
        },
{
    let mut i: usize = 0;
    while i < children.len()
        invariant
            i <= children@.len(),
            forall|j: int| 0 <= j < i ==> children@[j].name@ != name@,
        decreases children@.len() - i,
    {
        if children[i].name == *name {
            return Some(i);
        }
        i = i + 1;
    }
    None
}

impl Node {
    /// A synthetic directory node with no backing file.
    pub fn new_root(name: &str) -> (r: Node)
        ensures
            r.name@ == name@,
            r.file_type == NodeFileType::Directory,
            r.children@.len() == 0,
            r.backing_path is None,
            !r.replace,
            !r.skip,
    {
        Node {
            name: String::from_str(name),
            file_type: NodeFileType::Directory,
            children: Vec::new(),
            backing_path: None,
            replace: false,
            skip: false,
            backing_is_dir: true,
        }
    }

    /// The node that a module entry becomes, if its type has one.
    pub fn new_module(e: &SourceEntry) -> (r: Option<Node>)
        ensures
            match r {
                Some(n) => fresh_from(n, *e) && n.children@.len() == 0,
                None => entry_type(*e) is None,
            },
    {
        let file_type = match e.kind {
            EntryKind::RegularFile => NodeFileType::RegularFile,
            EntryKind::Directory => NodeFileType::Directory,
            EntryKind::Symlink => NodeFileType::Symlink,
            EntryKind::CharDevice => {
                if e.rdev == 0 {
                    NodeFileType::Whiteout
                } else {
                    return None;
                }
            },
            EntryKind::Other => {
                return None;
            },
        };
        let replace = match file_type {
            NodeFileType::Directory => dir_is_replace(&e.opaque_xattr, e.has_replace_file),
            _ => false,
        };
        Some(
            Node {
                name: e.name.clone(),
                file_type,
                children: Vec::new(),
                backing_path: Some(e.path.clone()),
                replace,
                skip: false,
                backing_is_dir: e.target_is_dir,
            },
        )
    }
}

/// Each child is smaller than its parent, which lets the recursive definitions unfold.
pub proof fn lemma_children_smaller(n: Node)
    ensures
        forall|i: int|
            0 <= i < n.children@.len() ==> decreases_to!(n => #[trigger] n.children@[i]),
{
    assert forall|i: int| 0 <= i < n.children@.len() implies decreases_to!(
        n => #[trigger] n.children@[i]
    ) by {
        assert(decreases_to!(n => n.children));
        assert(decreases_to!(n.children => n.children@));
        assert(decreases_to!(n.children@ => n.children@[i]));
    }
}

pub proof fn lemma_extends_refl(n: Node)
    ensures
        extends(n, n),
    decreases n,
{
    lemma_children_smaller(n);
    assert forall|i: int| 0 <= i < n.children@.len() implies extends(#[trigger] n.children@[i],
        n.children@[i],
    ) by {
        lemma_extends_refl(n.children@[i]);
    }
}

pub proof fn lemma_extends_trans(a: Node, b: Node, c: Node)
    requires
        extends(a, b),
        extends(b, c),
    ensures
        extends(a, c),
    decreases a,
{
    lemma_children_smaller(a);
    lemma_children_smaller(b);
    lemma_children_smaller(c);
    assert forall|i: int| 0 <= i < a.children@.len() implies extends(#[trigger] a.children@[i],
        c.children@[i],
    ) by {
        lemma_extends_trans(a.children@[i], b.children@[i], c.children@[i]);
    }
}

/// The same node fields, and children that each extend the old ones, possibly with more
/// children after them.
proof fn lemma_extends_children(n: Node, m: Node)
    requires
        m.name@ == n.name@,
        m.file_type == n.file_type,
        m.backing_path == n.backing_path,
        m.replace == n.replace,
        m.skip == n.skip,
        m.backing_is_dir == n.backing_is_dir,
        m.children@.len() >= n.children@.len(),
        forall|j: int|
            0 <= j < n.children@.len() ==> extends(#[trigger] n.children@[j], m.children@[j]),
    ensures
        extends(n, m),
{
    lemma_children_smaller(n);
    lemma_children_smaller(m);
}

proof fn lemma_any_content_update(n: Node, m: Node, idx: int, b: bool)
    requires
        0 <= idx < n.children@.len(),
        m.children@ == n.children@.update(idx, m.children@[idx]),
        child_content(m.children@[idx]) == (child_content(n.children@[idx]) || b),
    ensures
        content(m) == (content(n) || b),
{
    lemma_children_smaller(n);
    lemma_children_smaller(m);
    if content(m) {
        let j = choose|j: int|
            0 <= j < m.children@.len() && child_content(#[trigger] m.children@[j]);
        if j != idx {
            assert(child_content(n.children@[j]));
        }
    }
    if content(n) {
        let j = choose|j: int|
            0 <= j < n.children@.len() && child_content(#[trigger] n.children@[j]);
        if j != idx {
            assert(child_content(m.children@[j]));
        } else {
            assert(child_content(m.children@[idx]));
        }
    }
    if b {
        assert(child_content(m.children@[idx]));
    }
}

proof fn lemma_any_content_push(n: Node, m: Node, x: Node)
    requires
        m.children@ == n.children@.push(x),
    ensures
        content(m) == (content(n) || child_content(x)),
{
    lemma_children_smaller(n);
    lemma_children_smaller(m);
    if content(m) {
        let j = choose|j: int|
            0 <= j < m.children@.len() && child_content(#[trigger] m.children@[j]);
        if j < n.children@.len() {
            assert(child_content(n.children@[j]));
        }
    }
    if content(n) {
        let j = choose|j: int|
            0 <= j < n.children@.len() && child_content(#[trigger] n.children@[j]);
        assert(child_content(m.children@[j]));
    }
    if child_content(x) {
        assert(child_content(m.children@[n.children@.len() as int]));
    }
}

impl Node {
    /// Merges the entries of one module directory into the children of this directory.
    /// A name that already has a node keeps it: the first module to provide a path wins.
    /// Returns whether this module gave the subtree content.
    pub fn collect_module_files(&mut self, entries: &Vec<SourceEntry>) -> (has_file: bool)
        requires
            wf(*old(self)),
            old(self).file_type == NodeFileType::Directory,
        ensures
            wf(*final(self)),
            extends(*old(self), *final(self)),
            content(*final(self)) == (content(*old(self)) || has_file),
            forall|k: int|
                #![trigger entries@[k]] 0 <= k < entries@.len() && (#[trigger] entry_type(entries@[k])) is Some
                    ==> has_child(*final(self), entries@[k].name@),
            added_from(*old(self), *final(self), entries@),
        decreases entries,
    {
        let ghost o = *self;
        proof {
            lemma_extends_refl(o);
        }
        let mut has_file = false;
        let mut k: usize = 0;
        while k < entries.len()
            invariant
                self.file_type == NodeFileType::Directory,
                wf(*self),
                extends(o, *self),
                content(*self) == (content(o) || has_file),
                0 <= k <= entries@.len(),
                forall|k2: int|
                    0 <= k2 < k && (#[trigger] entry_type(entries@[k2])) is Some ==> has_child(
                        *self,
                        entries@[k2].name@,
                    ),
                added_from(o, *self, entries@),
            decreases entries@.len() - k,
        {
            let e = &entries[k];
            let ghost before = *self;
            proof {
                lemma_children_smaller(before);
            }
            match find_child(&self.children, &e.name) {
                Some(idx) => {
                    if self.children[idx].file_type == NodeFileType::Directory {
                        proof {
                            assert(wf(before.children@[idx as int]));
                        }
                        let r = self.children[idx].collect_module_files(&e.children);
                        let rep = self.children[idx].replace;
                        has_file = has_file || r || rep;
                        proof {
                            lemma_children_smaller(*self);
                            let c = before.children@[idx as int];
                            let c2 = self.children@[idx as int];
                            assert(self.children@ == before.children@.update(idx as int, c2));
                            assert forall|j: int|
                                0 <= j < before.children@.len() implies extends(#[trigger] before.children@[j],
                                self.children@[j],
                            ) by {
                                if j != idx {
                                    lemma_extends_refl(before.children@[j]);
                                }
                            }
                            lemma_extends_children(before, *self);
                            lemma_extends_trans(o, before, *self);
                            lemma_any_content_update(before, *self, idx as int, r);
                            assert forall|j: int|
                                0 <= j < self.children@.len() implies wf(#[trigger] self.children@[j],
                            ) by {
                                if j != idx {
                                    assert(wf(before.children@[j]));
                                }
                            }
                            assert(names_unique(self.children@)) by {
                                assert forall|a: int, b: int|
                                    0 <= a < self.children@.len() && 0 <= b
                                        < self.children@.len() && a != b implies
                                    self.children@[a].name@ != self.children@[b].name@ by {
                                    assert(extends(before.children@[a], self.children@[a]));
                                    assert(extends(before.children@[b], self.children@[b]));
                                }
                            }
                            assert forall|k2: int|
                                0 <= k2 <= k && (#[trigger] entry_type(
                                    entries@[k2],
                                )) is Some implies has_child(*self, entries@[k2].name@) by {
                                if k2 < k {
                                    let w = choose|w: int|
                                        0 <= w < before.children@.len()
                                            && #[trigger] before.children@[w].name@
                                            == entries@[k2].name@;
                                    assert(extends(before.children@[w], self.children@[w]));
                                    assert(self.children@[w].name@ == entries@[k2].name@);
                                } else {
                                    assert(self.children@[idx as int].name@ == entries@[k2].name@);
                                }
                            }
                            assert forall|j: int|
                                #![trigger self.children@[j]]
                                o.children@.len() <= j < self.children@.len() implies exists|k2: int|
                                #![trigger entries@[k2]]
                                0 <= k2 < entries@.len() && fresh_from(self.children@[j], entries@[k2]) && !has_child(o, entries@[k2].name@) by {
                                let k2 = choose|k2: int|
                                    #![trigger entries@[k2]]
                                    0 <= k2 < entries@.len() && fresh_from(before.children@[j], entries@[k2]) && !has_child(o, entries@[k2].name@);
                                assert(extends(before.children@[j], self.children@[j]));
                                assert(fresh_from(self.children@[j], entries@[k2]));
                            }
                            assert(added_from(o, *self, entries@));
                            assert(wf(*self));
                        }
                    } else {
                        has_file = true;
                        proof {
                            lemma_children_smaller(*self);
                            assert(child_content(self.children@[idx as int]));
                            assert(has_child(*self, e.name@));
                        }
                    }
                },
                None => {
                    match Node::new_module(e) {
                        Some(n) => {
                            let mut n = n;
                            let ghost fresh = n;
                            if n.file_type == NodeFileType::Directory {
                                proof {
                                    assert(wf(n));
                                }
                                let r = n.collect_module_files(&e.children);
                                has_file = has_file || r || n.replace;
                                proof {
                                    lemma_children_smaller(fresh);
                                    lemma_children_smaller(n);
                                    assert(!content(fresh));
                                    assert(child_content(n) == (r || n.replace));
                                }
                            } else {
                                has_file = true;
                            }
                            self.children.push(n);
                            proof {
                                lemma_children_smaller(*self);
                                let x = self.children@[before.children@.len() as int];
                                assert(self.children@ == before.children@.push(x));
                                assert forall|j: int|
                                    0 <= j < before.children@.len() implies extends(#[trigger] before.children@[j],
                                    self.children@[j],
                                ) by {
                                    lemma_extends_refl(before.children@[j]);
                                }
                                lemma_extends_children(before, *self);
                                lemma_extends_trans(o, before, *self);
                                lemma_any_content_push(before, *self, x);
                                assert(fresh_from(x, entries@[k as int]));
                                assert(!has_child(o, entries@[k as int].name@)) by {
                                    if has_child(o, entries@[k as int].name@) {
                                        let w = choose|w: int|
                                            0 <= w < o.children@.len()
                                                && #[trigger] o.children@[w].name@
                                                == entries@[k as int].name@;
                                        assert(extends(o.children@[w], before.children@[w]));
                                    }
                                }
                                assert forall|j: int|
                                    0 <= j < self.children@.len() implies wf(#[trigger] self.children@[j],
                                ) by {
                                    if j < before.children@.len() {
                                        assert(wf(before.children@[j]));
                                    }
                                }
                                assert(names_unique(self.children@));
                                assert forall|k2: int|
                                    0 <= k2 <= k && (#[trigger] entry_type(
                                        entries@[k2],
                                    )) is Some implies has_child(*self, entries@[k2].name@) by {
                                    if k2 < k {
                                        let w = choose|w: int|
                                            0 <= w < before.children@.len()
                                                && #[trigger] before.children@[w].name@
                                                == entries@[k2].name@;
                                        assert(self.children@[w] == before.children@[w]);
                                    } else {
                                        assert(self.children@[before.children@.len() as int].name@
                                            == entries@[k2].name@);
                                    }
                                }
                                assert forall|j: int|
                                    #![trigger self.children@[j]]
                                    o.children@.len() <= j < self.children@.len() implies exists|k2: int|
                                    #![trigger entries@[k2]]
                                    0 <= k2 < entries@.len() && fresh_from(self.children@[j], entries@[k2]) && !has_child(o, entries@[k2].name@) by {
                                    if j == before.children@.len() {
                                        assert(fresh_from(self.children@[j], entries@[k as int]));
                                    } else {
                                        assert(self.children@[j] == before.children@[j]);
                                        let k2 = choose|k2: int|
                                            #![trigger entries@[k2]]
                                            0 <= k2 < entries@.len() && fresh_from(before.children@[j], entries@[k2]) && !has_child(o, entries@[k2].name@);
                                        assert(fresh_from(self.children@[j], entries@[k2]));
                                    }
                                }
                                assert(added_from(o, *self, entries@));
                            }
                        },
                        None => {},
                    }
                },
            }
            k = k + 1;
        }
        has_file
    }
}

/// The `system` tree of one module, where the module has a `system` directory.
#[derive(Debug)]
pub struct ModuleTree {
    pub system: Option<Vec<SourceEntry>>,
}

/// What the host shows of a partition: whether `/<name>` is a directory and whether
/// `/system/<name>` is a symlink.
#[derive(Debug)]
pub struct PartitionFacts {
    pub name: String,
    pub root_is_dir: bool,
    pub system_is_symlink: bool,
}

/// Whether no module before `mi` has an entry of a node type named `name`.
pub open spec fn no_earlier(modules: Seq<ModuleTree>, mi: int, name: Seq<char>) -> bool {
    forall|m2: int, k2: int|
        0 <= m2 < mi && modules[m2].system is Some && 0 <= k2 < modules[m2].system->0@.len()
            && (#[trigger] entry_type(modules[m2].system->0@[k2])) is Some
            ==> modules[m2].system->0@[k2].name@ != name
}

/// Whether `n` is the node of an entry of module `mi`, the first module among those
/// before `upto` to have an entry of a node type with that name.
pub open spec fn first_source(n: Node, modules: Seq<ModuleTree>, upto: int) -> bool {
    exists|mi: int, k: int|
        #![trigger modules[mi].system->0@[k]]
        0 <= mi < upto && modules[mi].system is Some && 0 <= k < modules[mi].system->0@.len()
            && fresh_from(n, modules[mi].system->0@[k]) && no_earlier(modules, mi, n.name@)
}

/// Merges the `system` trees of the modules, in order, into one `system` node.
/// Returns the node and whether any module gave it content.
pub fn merge_modules(modules: &Vec<ModuleTree>) -> (r: (Node, bool))
    ensures
        wf(r.0),
        r.0.name@ == seq!['s', 'y', 's', 't', 'e', 'm'],
        r.0.file_type == NodeFileType::Directory,
        r.0.backing_path is None,
        !r.0.replace,
        !r.0.skip,
        content(r.0) == r.1,
        forall|m: int, k: int|
            0 <= m < modules@.len() && modules@[m].system is Some && 0 <= k
                < modules@[m].system->0@.len() && (#[trigger] entry_type(
                modules@[m].system->0@[k],
            )) is Some ==> has_child(r.0, modules@[m].system->0@[k].name@),
        forall|j: int|
            0 <= j < r.0.children@.len() ==> #[trigger] first_source(
                r.0.children@[j],
                modules@,
                modules@.len() as int,
            ),
{
    let mut system = Node::new_root("system");
    proof {
        reveal_strlit("system");
        lemma_children_smaller(system);
        assert(wf(system));
        assert(!content(system));
    }
    let mut has_file = false;
    let mut m: usize = 0;
    while m < modules.len()
        invariant
            0 <= m <= modules@.len(),
            wf(system),
            system.name@ == seq!['s', 'y', 's', 't', 'e', 'm'],
            system.file_type == NodeFileType::Directory,
            system.backing_path is None,
            !system.replace,
            !system.skip,
            content(system) == has_file,
            forall|m2: int, k: int|
                0 <= m2 < m && modules@[m2].system is Some && 0 <= k
                    < modules@[m2].system->0@.len() && (#[trigger] entry_type(
                    modules@[m2].system->0@[k],
                )) is Some ==> has_child(system, modules@[m2].system->0@[k].name@),
            forall|j: int|
                0 <= j < system.children@.len() ==> #[trigger] first_source(
                    system.children@[j],
                    modules@,
                    m as int,
                ),
        decreases modules@.len() - m,
    {
        match &modules[m].system {
            Some(entries) => {
                let ghost before = system;
                let r = system.collect_module_files(entries);
                has_file = has_file || r;
                proof {
                    lemma_children_smaller(before);
                    lemma_children_smaller(system);
                    assert forall|j: int|
                        0 <= j < system.children@.len() implies #[trigger] first_source(
                        system.children@[j],
                        modules@,
                        m + 1,
                    ) by {
                        if j < before.children@.len() {
                            assert(extends(before.children@[j], system.children@[j]));
                            assert(first_source(before.children@[j], modules@, m as int));
                            let (mi, k) = choose|mi: int, k: int|
                                #![trigger modules@[mi].system->0@[k]]
                                0 <= mi < m && modules@[mi].system is Some && 0 <= k
                                    < modules@[mi].system->0@.len() && fresh_from(
                                    before.children@[j],
                                    modules@[mi].system->0@[k],
                                ) && no_earlier(modules@, mi, before.children@[j].name@);
                            assert(fresh_from(system.children@[j], modules@[mi].system->0@[k]));
                        } else {
                            let k = choose|k: int|
                                #![trigger entries@[k]]
                                0 <= k < entries@.len() && fresh_from(system.children@[j], entries@[k])
                                    && !has_child(before, entries@[k].name@);
                            assert(modules@[m as int].system->0@ == entries@);
                            assert(no_earlier(modules@, m as int, system.children@[j].name@)) by {
                                assert forall|m2: int, k2: int|
                                    0 <= m2 < m && modules@[m2].system is Some && 0 <= k2
                                        < modules@[m2].system->0@.len() && (#[trigger] entry_type(
                                        modules@[m2].system->0@[k2],
                                    )) is Some implies modules@[m2].system->0@[k2].name@
                                    != system.children@[j].name@ by {
                                    assert(has_child(before, modules@[m2].system->0@[k2].name@));
                                }
                            }
                            assert(fresh_from(system.children@[j], modules@[m as int].system->0@[k]));
                        }
                    }
                    assert forall|m2: int, k: int|
                        0 <= m2 < m && modules@[m2].system is Some && 0 <= k
                            < modules@[m2].system->0@.len() && (#[trigger] entry_type(
                            modules@[m2].system->0@[k],
                        )) is Some implies has_child(
                        system,
                        modules@[m2].system->0@[k].name@,
                    ) by {
                        let name = modules@[m2].system->0@[k].name@;
                        lemma_extends_keeps_child(before, system, name);
                    }
                }
            },
            None => {
                proof {
                    assert forall|j: int|
                        0 <= j < system.children@.len() implies #[trigger] first_source(
                        system.children@[j],
                        modules@,
                        m + 1,
                    ) by {
                        assert(first_source(system.children@[j], modules@, m as int));
                        let (mi, k) = choose|mi: int, k: int|
                            #![trigger modules@[mi].system->0@[k]]
                            0 <= mi < m && modules@[mi].system is Some && 0 <= k
                                < modules@[mi].system->0@.len() && fresh_from(
                                system.children@[j],
                                modules@[mi].system->0@[k],
                            ) && no_earlier(modules@, mi, system.children@[j].name@);
                        assert(modules@[mi].system->0@[k] == modules@[mi].system->0@[k]);
                    }
                }
            },
        }
        m = m + 1;
    }
    (system, has_file)
}

/// A node that extends another keeps every child name of it.
pub proof fn lemma_extends_keeps_child(a: Node, b: Node, name: Seq<char>)
    requires
        extends(a, b),
        has_child(a, name),
    ensures
        has_child(b, name),
{
    lemma_children_smaller(a);
    lemma_children_smaller(b);
    let w = choose|w: int| 0 <= w < a.children@.len() && #[trigger] a.children@[w].name@ == name;
    assert(extends(a.children@[w], b.children@[w]));
    assert(b.children@[w].name@ == name);
}

/// Whether some facts entry for `name` says that the partition moves to the root:
/// `/<name>` is a directory and, where a symlink is required, `/system/<name>` is one.
pub open spec fn qualifies(facts: Seq<PartitionFacts>, name: Seq<char>, require_symlink: bool) -> bool {
    exists|i: int|
        0 <= i < facts.len() && #[trigger] facts[i].name@ == name && facts[i].root_is_dir && (
        !require_symlink || facts[i].system_is_symlink)
}

fn partition_qualifies(facts: &Vec<PartitionFacts>, name: &str, require_symlink: bool) -> (r: bool)
    ensures
        r == qualifies(facts@, name@, require_symlink),
{
    let mut i: usize = 0;
    while i < facts.len()
        invariant
            i <= facts@.len(),
            forall|j: int|
                0 <= j < i ==> !(#[trigger] facts@[j].name@ == name@ && facts@[j].root_is_dir && (
                !require_symlink || facts@[j].system_is_symlink)),
        decreases facts@.len() - i,
    {
        let f = &facts[i];
        if crate::text::text_eq(f.name.as_str(), name) && f.root_is_dir && (!require_symlink
            || f.system_is_symlink) {
            return true;
        }
        i = i + 1;
    }
    false
}

/// The type a node has after it moves to the root: a symlink whose target is a directory
/// becomes a directory.
pub open spec fn relocated_type(n: Node) -> NodeFileType {
    if n.file_type == NodeFileType::Symlink && n.backing_path is Some && n.backing_is_dir {
        NodeFileType::Directory
    } else {
        n.file_type
    }
}

/// Whether `c` is `orig` moved to the root: everything kept but the type, which is
/// `relocated_type(orig)`.
pub open spec fn moved_node(c: Node, orig: Node) -> bool {
    &&& c.name@ == orig.name@
    &&& c.backing_path == orig.backing_path
    &&& c.replace == orig.replace
    &&& c.skip == orig.skip
    &&& c.backing_is_dir == orig.backing_is_dir
    &&& c.children == orig.children
    &&& c.file_type == relocated_type(orig)
}

/// Whether `root` is a synthetic directory whose children all have unique names and are
/// well formed.
pub open spec fn root_shape(root: Node) -> bool {
    &&& wf(root)
    &&& root.file_type == NodeFileType::Directory
    &&& root.backing_path is None
    &&& !root.replace
    &&& !root.skip
}

/// Moves the child `name` of `system`, if the partition qualifies, to the end of the
/// children of `root`. A symlink whose target is a directory becomes a directory.
fn relocate(system: &mut Node, root: &mut Node, name: &str, require_symlink: bool, facts: &Vec<PartitionFacts>)
    requires
        wf(*old(system)),
        wf(*old(root)),
        old(root).file_type == NodeFileType::Directory,
        !has_child(*old(root), name@),
    ensures
        wf(*final(system)),
        wf(*final(root)),
        final(system).name@ == old(system).name@,
        final(system).file_type == old(system).file_type,
        final(system).backing_path == old(system).backing_path,
        final(system).replace == old(system).replace,
        final(system).skip == old(system).skip,
        final(root).name@ == old(root).name@,
        final(root).file_type == old(root).file_type,
        final(root).backing_path == old(root).backing_path,
        final(root).replace == old(root).replace,
        final(root).skip == old(root).skip,
        has_child(*final(root), name@) == (qualifies(facts@, name@, require_symlink) && has_child(
            *old(system),
            name@,
        )),
        forall|n: Seq<char>| n != name@ ==> has_child(*final(root), n) == has_child(*old(root), n),
        forall|n: Seq<char>|
            n != name@ ==> has_child(*final(system), n) == has_child(*old(system), n),
        content(*old(root)) ==> content(*final(root)),
        qualifies(facts@, name@, require_symlink) ==> !has_child(*final(system), name@),
        !(qualifies(facts@, name@, require_symlink) && has_child(*old(system), name@)) ==> (
        *final(system) == *old(system) && *final(root) == *old(root)),
        qualifies(facts@, name@, require_symlink) && has_child(*old(system), name@) ==> exists|idx: int|
            0 <= idx < old(system).children@.len() && #[trigger] old(system).children@[idx].name@
                == name@ && final(system).children@ == old(system).children@.remove(idx)
                && final(root).children@ == old(root).children@.push(final(root).children@.last())
                && moved_node(final(root).children@.last(), old(system).children@[idx]),
{
    proof {
        lemma_children_smaller(*old(system));
        lemma_children_smaller(*old(root));
    }
    if !partition_qualifies(facts, name, require_symlink) {
        return;
    }
    let key = String::from_str(name);
    match find_child(&system.children, &key) {
        Some(idx) => {
            let ghost s0 = *system;
            let ghost r0 = *root;
            let mut node = system.children.remove(idx);
            if node.file_type == NodeFileType::Symlink && node.backing_path.is_some()
                && node.backing_is_dir {
                node.file_type = NodeFileType::Directory;
            }
            let ghost moved = node;
            root.children.push(node);
            proof {
                lemma_children_smaller(*system);
                lemma_children_smaller(*root);
                lemma_children_smaller(s0.children@[idx as int]);
                lemma_children_smaller(moved);
                assert(system.children@ == s0.children@.remove(idx as int));
                assert(root.children@ == r0.children@.push(moved));
                assert(wf(s0.children@[idx as int]));
                assert(moved.children@ == s0.children@[idx as int].children@);
                assert(wf(moved));
                assert(content(moved) == content(s0.children@[idx as int]));
                assert(moved_node(root.children@.last(), s0.children@[idx as int]));
                assert(!has_child(*system, name@)) by {
                    if has_child(*system, name@) {
                        let w = choose|w: int| 0 <= w < system.children@.len() && #[trigger] system.children@[w].name@ == name@;
                        let w2 = if w < idx { w } else { w + 1 };
                        assert(system.children@[w] == s0.children@[w2]);
                        assert(w2 != idx);
                    }
                }
                assert(has_child(*root, name@)) by {
                    assert(root.children@[r0.children@.len() as int].name@ == name@);
                }
                assert forall|n: Seq<char>| n != name@ implies has_child(*root, n) == has_child(r0, n) by {
                    if has_child(*root, n) {
                        let w = choose|w: int| 0 <= w < root.children@.len() && #[trigger] root.children@[w].name@ == n;
                        assert(w < r0.children@.len());
                        assert(r0.children@[w].name@ == n);
                    }
                    if has_child(r0, n) {
                        let w = choose|w: int| 0 <= w < r0.children@.len() && #[trigger] r0.children@[w].name@ == n;
                        assert(root.children@[w].name@ == n);
                    }
                }
                assert forall|n: Seq<char>| n != name@ implies has_child(*system, n) == has_child(s0, n) by {
                    if has_child(*system, n) {
                        let w = choose|w: int| 0 <= w < system.children@.len() && #[trigger] system.children@[w].name@ == n;
                        if w < idx {
                            assert(s0.children@[w].name@ == n);
                        } else {
                            assert(s0.children@[w + 1].name@ == n);
                        }
                    }
                    if has_child(s0, n) {
                        let w = choose|w: int| 0 <= w < s0.children@.len() && #[trigger] s0.children@[w].name@ == n;
                        assert(w != idx);
                        if w < idx {
                            assert(system.children@[w].name@ == n);
                        } else {
                            assert(system.children@[w - 1].name@ == n);
                        }
                    }
                }
                assert(names_unique(root.children@)) by {
                    assert forall|a: int, b: int|
                        0 <= a < root.children@.len() && 0 <= b < root.children@.len() && a != b implies
                        root.children@[a].name@ != root.children@[b].name@ by {
                        if a == r0.children@.len() as int {
                            assert(r0.children@[b].name@ != name@);
                        } else if b == r0.children@.len() as int {
                            assert(r0.children@[a].name@ != name@);
                        }
                    }
                }
                assert(names_unique(system.children@)) by {
                    assert forall|a: int, b: int|
                        0 <= a < system.children@.len() && 0 <= b < system.children@.len() && a != b implies
                        system.children@[a].name@ != system.children@[b].name@ by {
                        let a2 = if a < idx { a } else { a + 1 };
                        let b2 = if b < idx { b } else { b + 1 };
                        assert(system.children@[a] == s0.children@[a2]);
                        assert(system.children@[b] == s0.children@[b2]);
                    }
                }
                assert forall|i: int| 0 <= i < root.children@.len() implies wf(#[trigger] root.children@[i]) by {
                    if i < r0.children@.len() {
                        assert(wf(r0.children@[i]));
                    }
                }
                assert forall|i: int| 0 <= i < system.children@.len() implies wf(#[trigger] system.children@[i]) by {
                    let i2 = if i < idx { i } else { i + 1 };
                    assert(system.children@[i] == s0.children@[i2]);
                    assert(wf(s0.children@[i2]));
                }
                if content(r0) {
                    let w = choose|w: int| 0 <= w < r0.children@.len() && child_content(#[trigger] r0.children@[w]);
                    assert(child_content(root.children@[w]));
                }
            }
        },
        None => {
            assert(!has_child(*system, name@));
        },
    }
}

/// The partitions that may move out of `system`, each with whether `/system/<name>` must
/// be a symlink for the move.
pub open spec fn builtin_moves() -> Seq<(Seq<char>, bool)> {
    seq![
        (seq!['v', 'e', 'n', 'd', 'o', 'r'], true),
        (seq!['s', 'y', 's', 't', 'e', 'm', '_', 'e', 'x', 't'], true),
        (seq!['p', 'r', 'o', 'd', 'u', 'c', 't'], true),
        (seq!['o', 'd', 'm'], false),
    ]
}

/// Whether an extra partition is handled as one: not a built-in and not `system`.
pub open spec fn extra_moves(name: Seq<char>) -> bool {
    &&& name != seq!['s', 'y', 's', 't', 'e', 'm']
    &&& forall|i: int| 0 <= i < 4 ==> name != (#[trigger] builtin_moves()[i]).0
}

/// The extra partitions that are handled as such, each without a symlink requirement.
pub open spec fn extra_cands(ex: Seq<Seq<char>>) -> Seq<(Seq<char>, bool)>
    decreases ex.len(),
{
    if ex.len() == 0 {
        seq![]
    } else if extra_moves(ex.last()) {
        extra_cands(ex.drop_last()).push((ex.last(), false))
    } else {
        extra_cands(ex.drop_last())
    }
}

/// Every partition that may move to the root, in the order they are tried: the built-ins,
/// then the extras.
pub open spec fn move_candidates(extras: Seq<String>) -> Seq<(Seq<char>, bool)> {
    builtin_moves() + extra_cands(crate::text::views(extras))
}

/// Whether one of the first `i` candidates names `n` and qualifies.
pub open spec fn moved_among(cs: Seq<(Seq<char>, bool)>, facts: Seq<PartitionFacts>, i: int, n: Seq<char>) -> bool {
    exists|c: int| 0 <= c < i && #[trigger] cs[c].0 == n && qualifies(facts, n, cs[c].1)
}

/// Whether the partition `n` moves to the root: a candidate names it and qualifies.
pub open spec fn relocates(facts: Seq<PartitionFacts>, extras: Seq<String>, n: Seq<char>) -> bool {
    moved_among(move_candidates(extras), facts, move_candidates(extras).len() as int, n)
}

/// The views of candidate pairs.
pub open spec fn cand_views(v: Seq<(String, bool)>) -> Seq<(Seq<char>, bool)> {
    v.map_values(|p: (String, bool)| (p.0@, p.1))
}

fn candidates(extras: &Vec<String>) -> (r: Vec<(String, bool)>)
    ensures
        cand_views(r@) == move_candidates(extras@),
{
    let mut r: Vec<(String, bool)> = Vec::new();
    r.push((String::from_str("vendor"), true));
    r.push((String::from_str("system_ext"), true));
    r.push((String::from_str("product"), true));
    r.push((String::from_str("odm"), false));
    proof {
        reveal_strlit("vendor");
        reveal_strlit("system_ext");
        reveal_strlit("product");
        reveal_strlit("odm");
        reveal_strlit("system");
        assert("vendor"@ =~= seq!['v', 'e', 'n', 'd', 'o', 'r']);
        assert("system_ext"@ =~= seq!['s', 'y', 's', 't', 'e', 'm', '_', 'e', 'x', 't']);
        assert("product"@ =~= seq!['p', 'r', 'o', 'd', 'u', 'c', 't']);
        assert("odm"@ =~= seq!['o', 'd', 'm']);
        assert("system"@ =~= seq!['s', 'y', 's', 't', 'e', 'm']);
        assert(cand_views(r@) =~= builtin_moves());
        assert(crate::text::views(extras@.subrange(0, 0)) =~= Seq::<Seq<char>>::empty());
        assert(builtin_moves() + extra_cands(Seq::<Seq<char>>::empty()) =~= builtin_moves());
    }
    let mut i: usize = 0;
    while i < extras.len()
        invariant
            i <= extras@.len(),
            "vendor"@ == builtin_moves()[0].0,
            "system_ext"@ == builtin_moves()[1].0,
            "product"@ == builtin_moves()[2].0,
            "odm"@ == builtin_moves()[3].0,
            "system"@ == seq!['s', 'y', 's', 't', 'e', 'm'],
            cand_views(r@) == builtin_moves() + extra_cands(crate::text::views(extras@.subrange(0, i as int))),
        decreases extras@.len() - i,
    {
        let name = extras[i].as_str();
        let ghost ex = crate::text::views(extras@.subrange(0, i + 1));
        assert(ex.drop_last() =~= crate::text::views(extras@.subrange(0, i as int)));
        assert(ex.last() == name@);
        let skip = text_eq(name, "vendor") || text_eq(name, "system_ext") || text_eq(name, "product")
            || text_eq(name, "odm") || text_eq(name, "system");
        proof {
            assert(extra_moves(name@) == !skip);
        }
        if !skip {
            let ghost before = r@;
            r.push((extras[i].clone(), false));
            assert(cand_views(r@) =~= cand_views(before).push((name@, false)));
        }
        i = i + 1;
    }
    assert(extras@.subrange(0, i as int) =~= extras@);
    r
}

/// Builds the merged root from the merged `system` node. Each candidate partition (the
/// built-ins, then the extras) that qualifies moves from `system` to the root, a symlink
/// whose target is a directory becoming a directory; `system` itself, with the nodes that
/// stay, becomes the last child of the root. Returns `None` when no module gave the tree
/// content.
#[verifier::rlimit(50)]
pub fn collect_module_files(
    system: Node,
    has_file: bool,
    facts: &Vec<PartitionFacts>,
    extras: &Vec<String>,
) -> (r: Option<Node>)
    requires
        wf(system),
        system.name@ == seq!['s', 'y', 's', 't', 'e', 'm'],
        system.file_type == NodeFileType::Directory,
        content(system) == has_file,
    ensures
        r is Some == has_file,
        r matches Some(root) ==> {
            let sys = root.children@.last();
            &&& root_shape(root)
            &&& root.name@.len() == 0
            &&& root.children@.len() >= 1
            &&& sys.name@ == system.name@ && sys.file_type == system.file_type
            &&& sys.backing_path == system.backing_path && sys.replace == system.replace
            &&& sys.skip == system.skip
            &&& forall|k: int| 0 <= k < sys.children@.len() ==> #[trigger] kept_from(sys.children@[k], system)
                && !relocates(facts@, extras@, sys.children@[k].name@)
            &&& forall|k: int| 0 <= k < root.children@.len() - 1 ==> #[trigger] moved_from(
                root.children@[k],
                system,
                move_candidates(extras@),
                facts@,
                move_candidates(extras@).len() as int,
            )
            &&& forall|j: int| 0 <= j < system.children@.len() ==> #[trigger] placed(system.children@[j], sys, root)
                && (relocates(facts@, extras@, system.children@[j].name@) ==> !has_child(sys, system.children@[j].name@))
        },
{
    if !has_file {
        return None;
    }
    let ghost s0 = system;
    let mut system = system;
    let mut root = Node::new_root("");
    let cands = candidates(extras);
    let ghost cs = cand_views(cands@);
    proof {
        reveal_strlit("");
        reveal_strlit("system");
        lemma_children_smaller(root);
        lemma_children_smaller(s0);
        assert(wf(root));
        assert(cs == move_candidates(extras@));
        assert forall|c: int| 0 <= c < cs.len() implies cs[c].0 != seq!['s', 'y', 's', 't', 'e', 'm'] by {
            if c < 4 {
                assert(cs[c] == builtin_moves()[c]);
                assert(builtin_moves()[c].0.len() != 6 || builtin_moves()[c].0[0] != 's');
            } else {
                assert(cs[c] == extra_cands(crate::text::views(extras@))[c - 4]);
                lemma_extra_cands_move(crate::text::views(extras@), c - 4);
            }
        }
        assert forall|j: int| #![trigger s0.children@[j]] 0 <= j < s0.children@.len() implies (exists|k: int| 0 <= k < system.children@.len() && system.children@[k] == #[trigger] s0.children@[j]) by {
            assert(system.children@[j] == s0.children@[j]);
        }
    }
    let mut i: usize = 0;
    proof {
        assert forall|n: Seq<char>| #[trigger] has_child(root, n) implies !has_child(system, n) by {}
        assert forall|k: int| 0 <= k < system.children@.len() implies #[trigger] kept_from(system.children@[k], s0) by {
            assert(system.children@[k] == s0.children@[k]);
        }
        assert forall|j: int| 0 <= j < s0.children@.len() implies #[trigger] placed(s0.children@[j], system, root) by {
            assert(system.children@[j] == s0.children@[j]);
        }
        assert(reloc_inv(s0, system, root, cs, facts@, 0));
    }
    while i < cands.len()
        invariant
            cs == cand_views(cands@),
            cs == move_candidates(extras@),
            forall|c: int| 0 <= c < cs.len() ==> cs[c].0 != seq!['s', 'y', 's', 't', 'e', 'm'],
            i <= cands@.len(),
            wf(system),
            wf(root),
            wf(s0),
            root_shape(root),
            root.name@.len() == 0,
            system.name@ == s0.name@,
            system.file_type == s0.file_type,
            system.backing_path == s0.backing_path,
            system.replace == s0.replace,
            system.skip == s0.skip,
            !has_child(root, seq!['s', 'y', 's', 't', 'e', 'm']),
            reloc_inv(s0, system, root, cs, facts@, i as int),
        decreases cands@.len() - i,
    {
        let name = cands[i].0.as_str();
        let req = cands[i].1;
        let ghost sys0 = system;
        let ghost root0 = root;
        proof {
            assert(cs[i as int] == (name@, req));
        }
        let present = match find_child(&root.children, &cands[i].0) {
            Some(_) => true,
            None => false,
        };
        if !present {
            relocate(&mut system, &mut root, name, req, facts);
        }
        proof {
            assert(name@ != seq!['s', 'y', 's', 't', 'e', 'm']);
            if present {
                lemma_children_smaller(root0);
                assert(has_child(root0, name@)) by {
                    let w = choose|w: int| 0 <= w < root0.children@.len() && root0.children@[w].name@ == name@;
                }
                assert(!has_child(sys0, name@));
            }
            lemma_reloc_step(s0, sys0, root0, system, root, cs, facts@, i as int, name@, req);
        }
        i = i + 1;
    }
    let ghost r0 = root;
    let ghost sys_final = system;
    root.children.push(system);
    proof {
        lemma_children_smaller(root);
        lemma_children_smaller(r0);
        assert(root.children@ == r0.children@.push(sys_final));
        assert(names_unique(root.children@)) by {
            assert forall|a: int, b: int|
                0 <= a < root.children@.len() && 0 <= b < root.children@.len() && a != b implies
                root.children@[a].name@ != root.children@[b].name@ by {
                if a == r0.children@.len() as int {
                    assert(r0.children@[b].name@ != sys_final.name@);
                } else if b == r0.children@.len() as int {
                    assert(r0.children@[a].name@ != sys_final.name@);
                }
            }
        }
        assert forall|j: int| 0 <= j < root.children@.len() implies wf(#[trigger] root.children@[j]) by {
            if j < r0.children@.len() {
                assert(wf(r0.children@[j]));
            }
        }
        assert(i as int == cs.len());
        lemma_reloc_final(s0, sys_final, r0, cs, facts@, extras@);
        assert(root.children@.last() == sys_final);
        assert forall|k: int| 0 <= k < root.children@.len() - 1 implies #[trigger] moved_from(
            root.children@[k], s0, cs, facts@, cs.len() as int) by {
            assert(root.children@[k] == r0.children@[k]);
            assert(moved_from(r0.children@[k], s0, cs, facts@, cs.len() as int));
        }
        assert forall|j: int| 0 <= j < s0.children@.len() implies #[trigger] placed(s0.children@[j], sys_final, root) by {
            assert(placed(s0.children@[j], sys_final, r0));
            if exists|k: int| #![trigger r0.children@[k]] 0 <= k < r0.children@.len() && moved_node(r0.children@[k], s0.children@[j]) {
                let k = choose|k: int| #![trigger r0.children@[k]] 0 <= k < r0.children@.len() && moved_node(r0.children@[k], s0.children@[j]);
                assert(root.children@[k] == r0.children@[k]);
            }
        }
    }
    Some(root)
}

/// Whether `c` is one of the children of `s0`, unchanged.
pub open spec fn kept_from(c: Node, s0: Node) -> bool {
    exists|j: int| #![trigger s0.children@[j]] 0 <= j < s0.children@.len() && c == s0.children@[j]
}

/// Whether `c` is a child of `s0` moved to the root, whose name one of the first `i`
/// candidates moves.
pub open spec fn moved_from(c: Node, s0: Node, cs: Seq<(Seq<char>, bool)>, facts: Seq<PartitionFacts>, i: int) -> bool {
    exists|j: int|
        #![trigger s0.children@[j]]
        0 <= j < s0.children@.len() && moved_node(c, s0.children@[j]) && moved_among(cs, facts, i, s0.children@[j].name@)
}

/// Whether `x` stays a child of `system` or stands moved among the children of `root`.
pub open spec fn placed(x: Node, system: Node, root: Node) -> bool {
    (exists|k: int| #![trigger system.children@[k]] 0 <= k < system.children@.len() && system.children@[k] == x)
    || (exists|k: int| #![trigger root.children@[k]] 0 <= k < root.children@.len() && moved_node(root.children@[k], x))
}

/// The relation between the `system` node as merged (`s0`) and the current `system` and
/// root while candidates are moved, after the first `i` candidates.
pub open spec fn reloc_inv(s0: Node, system: Node, root: Node, cs: Seq<(Seq<char>, bool)>, facts: Seq<PartitionFacts>, i: int) -> bool {
    &&& forall|k: int| 0 <= k < system.children@.len() ==> #[trigger] kept_from(system.children@[k], s0)
    &&& forall|k: int| 0 <= k < root.children@.len() ==> #[trigger] moved_from(root.children@[k], s0, cs, facts, i)
    &&& forall|j: int| 0 <= j < s0.children@.len() ==> #[trigger] placed(s0.children@[j], system, root)
    &&& forall|n: Seq<char>| #[trigger] moved_among(cs, facts, i, n) ==> !has_child(system, n)
    &&& forall|n: Seq<char>| #[trigger] has_child(root, n) ==> !has_child(system, n)
}

proof fn lemma_reloc_step(s0: Node, sys0: Node, root0: Node, system: Node, root: Node, cs: Seq<(Seq<char>, bool)>, facts: Seq<PartitionFacts>, i: int, name: Seq<char>, req: bool)
    requires
        0 <= i < cs.len(),
        cs[i] == (name, req),
        reloc_inv(s0, sys0, root0, cs, facts, i),
        (system == sys0 && root == root0 && (qualifies(facts, name, req) ==> !has_child(sys0, name)))
        || (qualifies(facts, name, req) && has_child(sys0, name) && !has_child(system, name)
            && (forall|n: Seq<char>| n != name ==> has_child(root, n) == has_child(root0, n))
            && (forall|n: Seq<char>| n != name ==> has_child(system, n) == has_child(sys0, n))
            && exists|idx: int|
                0 <= idx < sys0.children@.len() && #[trigger] sys0.children@[idx].name@ == name
                    && system.children@ == sys0.children@.remove(idx)
                    && root.children@ == root0.children@.push(root.children@.last())
                    && moved_node(root.children@.last(), sys0.children@[idx])),
    ensures
        reloc_inv(s0, system, root, cs, facts, i + 1),
{
    lemma_children_smaller(system);
    lemma_children_smaller(root);
    lemma_children_smaller(sys0);
    lemma_children_smaller(root0);
    assert forall|n: Seq<char>| moved_among(cs, facts, i, n) implies #[trigger] moved_among(cs, facts, i + 1, n) by {
        let c = choose|c: int| 0 <= c < i && #[trigger] cs[c].0 == n && qualifies(facts, n, cs[c].1);
    }
    assert forall|c: Node| #[trigger] moved_from(c, s0, cs, facts, i) implies moved_from(c, s0, cs, facts, i + 1) by {
        let j = choose|j: int| #![trigger s0.children@[j]] 0 <= j < s0.children@.len() && moved_node(c, s0.children@[j]) && moved_among(cs, facts, i, s0.children@[j].name@);
        assert(moved_among(cs, facts, i + 1, s0.children@[j].name@));
    }
    assert forall|n: Seq<char>| #[trigger] moved_among(cs, facts, i + 1, n) && !moved_among(cs, facts, i, n) implies n == name && qualifies(facts, name, req) by {
        let c = choose|c: int| 0 <= c < i + 1 && #[trigger] cs[c].0 == n && qualifies(facts, n, cs[c].1);
        assert(c == i);
    }
    if system == sys0 && root == root0 && (qualifies(facts, name, req) ==> !has_child(sys0, name)) {
        assert forall|k: int| 0 <= k < root.children@.len() implies #[trigger] moved_from(root.children@[k], s0, cs, facts, i + 1) by {
            assert(moved_from(root0.children@[k], s0, cs, facts, i));
        }
    } else {
        let idx = choose|idx: int|
            0 <= idx < sys0.children@.len() && #[trigger] sys0.children@[idx].name@ == name
                && system.children@ == sys0.children@.remove(idx)
                && root.children@ == root0.children@.push(root.children@.last())
                && moved_node(root.children@.last(), sys0.children@[idx]);
        assert(kept_from(sys0.children@[idx], s0));
        let jm = choose|j: int| #![trigger s0.children@[j]] 0 <= j < s0.children@.len() && sys0.children@[idx] == s0.children@[j];
        assert(moved_among(cs, facts, i + 1, name)) by {
            assert(cs[i].0 == name);
        }
        assert forall|k: int| 0 <= k < system.children@.len() implies #[trigger] kept_from(system.children@[k], s0) by {
            let k2 = if k < idx { k } else { k + 1 };
            assert(system.children@[k] == sys0.children@[k2]);
            assert(kept_from(sys0.children@[k2], s0));
        }
        assert forall|k: int| 0 <= k < root.children@.len() implies #[trigger] moved_from(root.children@[k], s0, cs, facts, i + 1) by {
            if k < root0.children@.len() {
                assert(root.children@[k] == root0.children@[k]);
                assert(moved_from(root0.children@[k], s0, cs, facts, i));
            } else {
                assert(root.children@[k] == root.children@.last());
                assert(moved_node(root.children@[k], s0.children@[jm]));
                assert(s0.children@[jm].name@ == name);
            }
        }
        assert forall|j: int| 0 <= j < s0.children@.len() implies #[trigger] placed(s0.children@[j], system, root) by {
            assert(placed(s0.children@[j], sys0, root0));
            if exists|k: int| #![trigger root0.children@[k]] 0 <= k < root0.children@.len() && moved_node(root0.children@[k], s0.children@[j]) {
                let k = choose|k: int| #![trigger root0.children@[k]] 0 <= k < root0.children@.len() && moved_node(root0.children@[k], s0.children@[j]);
                assert(root.children@[k] == root0.children@[k]);
            } else {
                let k = choose|k: int| #![trigger sys0.children@[k]] 0 <= k < sys0.children@.len() && sys0.children@[k] == s0.children@[j];
                if k == idx {
                    assert(root.children@[root0.children@.len() as int] == root.children@.last());
                } else if k < idx {
                    assert(system.children@[k] == s0.children@[j]);
                } else {
                    assert(system.children@[k - 1] == s0.children@[j]);
                }
            }
        }
        assert forall|n: Seq<char>| #[trigger] has_child(root, n) implies !has_child(system, n) by {
            if n != name {
                assert(has_child(root0, n));
            }
        }
    }
}

proof fn lemma_reloc_final(s0: Node, sys: Node, r0: Node, cs: Seq<(Seq<char>, bool)>, facts: Seq<PartitionFacts>, extras: Seq<String>)
    requires
        cs == move_candidates(extras),
        reloc_inv(s0, sys, r0, cs, facts, cs.len() as int),
    ensures
        forall|k: int| 0 <= k < sys.children@.len() ==> #[trigger] kept_from(sys.children@[k], s0)
            && !relocates(facts, extras, sys.children@[k].name@),
        forall|k: int| 0 <= k < r0.children@.len() ==> #[trigger] moved_from(r0.children@[k], s0, cs, facts, cs.len() as int),
        forall|j: int| 0 <= j < s0.children@.len() ==> #[trigger] placed(s0.children@[j], sys, r0)
            && (relocates(facts, extras, s0.children@[j].name@) ==> !has_child(sys, s0.children@[j].name@)),
        forall|n: Seq<char>| #[trigger] relocates(facts, extras, n) == moved_among(cs, facts, cs.len() as int, n),
{
    lemma_children_smaller(sys);
    assert forall|k: int| 0 <= k < sys.children@.len() implies #[trigger] kept_from(sys.children@[k], s0)
        && !relocates(facts, extras, sys.children@[k].name@) by {
        assert(has_child(sys, sys.children@[k].name@));
    }
}

proof fn lemma_extra_cands_move(ex: Seq<Seq<char>>, c: int)
    requires
        0 <= c < extra_cands(ex).len(),
    ensures
        extra_moves(extra_cands(ex)[c].0),
    decreases ex.len(),
{
    if ex.len() > 0 {
        let rest = extra_cands(ex.drop_last());
        if extra_moves(ex.last()) && c == rest.len() {
        } else {
            lemma_extra_cands_move(ex.drop_last(), c);
        }
    }
}

/// First wins: once a module has given a node a name, merging a later module keeps
/// that node's backing path, type and flags, and so on down its subtree.
pub proof fn first_module_wins(after_first: Node, after_later: Node, i: int)
    requires
        extends(after_first, after_later),
        0 <= i < after_first.children@.len(),
    ensures
        after_later.children@[i].name@ == after_first.children@[i].name@,
        after_later.children@[i].backing_path == after_first.children@[i].backing_path,
        after_later.children@[i].file_type == after_first.children@[i].file_type,
        after_later.children@[i].replace == after_first.children@[i].replace,
        extends(after_first.children@[i], after_later.children@[i]),
{
    lemma_children_smaller(after_first);
    lemma_children_smaller(after_later);
    assert(extends(after_first.children@[i], after_later.children@[i]));
    lemma_children_smaller(after_first.children@[i]);
}

} // verus!
