use hybrid_mount::magic::{
    collect_module_files, dir_is_replace, merge_modules, EntryKind, ModuleTree, Node, NodeFileType,
    PartitionFacts, SourceEntry,
};
use hybrid_mount::plan::{
    plan_magic_mount, should_create_tmpfs, HostEntry, HostKind, MountOp,
};

fn entry(name: &str, path: &str, kind: EntryKind, children: Vec<SourceEntry>) -> SourceEntry {
    SourceEntry {
        name: name.to_string(),
        path: path.to_string(),
        kind,
        rdev: 0,
        opaque_xattr: None,
        has_replace_file: false,
        target_is_dir: kind == EntryKind::Directory,
        children,
    }
}

fn file(name: &str, path: &str) -> SourceEntry {
    entry(name, path, EntryKind::RegularFile, vec![])
}

fn dir(name: &str, path: &str, children: Vec<SourceEntry>) -> SourceEntry {
    entry(name, path, EntryKind::Directory, children)
}

fn host(name: &str, kind: HostKind, children: Vec<HostEntry>) -> HostEntry {
    HostEntry { name: name.to_string(), kind: Some(kind), exists: true, children }
}

fn child<'a>(n: &'a Node, name: &str) -> &'a Node {
    n.children.iter().find(|c| c.name == name).expect("child present")
}

fn build(modules: Vec<ModuleTree>, facts: &Vec<PartitionFacts>, extras: &Vec<String>) -> Option<Node> {
    let (system, has_file) = merge_modules(&modules);
    collect_module_files(system, has_file, facts, extras)
}

#[test]
fn replace_marker_reads_y_or_file() {
    assert!(dir_is_replace(&Some(vec![b'y']), false));
    assert!(dir_is_replace(&None, true));
    assert!(!dir_is_replace(&Some(vec![b'n']), false));
    assert!(!dir_is_replace(&Some(vec![b'y', b'y']), false));
    assert!(!dir_is_replace(&None, false));
}

#[test]
fn new_module_makes_whiteout_from_char_device_zero() {
    let mut dev = entry("libblock.so", "/m/a/system/lib/libblock.so", EntryKind::CharDevice, vec![]);
    let n = Node::new_module(&dev).expect("whiteout node");
    assert_eq!(n.file_type, NodeFileType::Whiteout);
    assert_eq!(n.backing_path.as_deref(), Some("/m/a/system/lib/libblock.so"));
    dev.rdev = 5;
    assert!(Node::new_module(&dev).is_none());
}

#[test]
fn new_module_sets_replace_only_on_directories() {
    let mut d = dir("Foo", "/m/a/system/app/Foo", vec![]);
    d.opaque_xattr = Some(b"y".to_vec());
    assert!(Node::new_module(&d).unwrap().replace);
    let mut f = file("x", "/m/a/system/x");
    f.has_replace_file = true;
    assert!(!Node::new_module(&f).unwrap().replace);
}

#[test]
fn empty_module_set_gives_no_tree() {
    let facts = vec![];
    let extras = vec![];
    assert!(build(vec![], &facts, &extras).is_none());
    let only_dirs = ModuleTree { system: Some(vec![dir("etc", "/m/a/system/etc", vec![])]) };
    assert!(build(vec![only_dirs], &facts, &extras).is_none());
}

#[test]
fn first_module_wins_for_same_file() {
    let a = ModuleTree {
        system: Some(vec![dir("etc", "/m/a/system/etc", vec![file("hosts", "/m/a/system/etc/hosts")])]),
    };
    let b = ModuleTree {
        system: Some(vec![dir("etc", "/m/b/system/etc", vec![file("hosts", "/m/b/system/etc/hosts")])]),
    };
    let root = build(vec![a, b], &vec![], &vec![]).expect("tree");
    let system = child(&root, "system");
    let etc = child(system, "etc");
    assert_eq!(etc.backing_path.as_deref(), Some("/m/a/system/etc"));
    let hosts = child(etc, "hosts");
    assert_eq!(hosts.backing_path.as_deref(), Some("/m/a/system/etc/hosts"));
    assert_eq!(etc.children.len(), 1);
}

#[test]
fn system_only_module_keeps_root_to_system() {
    let a = ModuleTree { system: Some(vec![file("build.prop", "/m/a/system/build.prop")]) };
    let facts = vec![PartitionFacts { name: "vendor".to_string(), root_is_dir: true, system_is_symlink: true }];
    let root = build(vec![a], &facts, &vec![]).expect("tree");
    assert_eq!(root.name, "");
    assert_eq!(root.children.len(), 1);
    assert_eq!(root.children[0].name, "system");
}

#[test]
fn vendor_symlink_to_module_dir_becomes_directory_at_root() {
    let mut vendor = entry("vendor", "/m/a/system/vendor", EntryKind::Symlink, vec![]);
    vendor.target_is_dir = true;
    let a = ModuleTree { system: Some(vec![vendor, file("x", "/m/a/system/x")]) };
    let facts = vec![PartitionFacts { name: "vendor".to_string(), root_is_dir: true, system_is_symlink: true }];
    let root = build(vec![a], &facts, &vec![]).expect("tree");
    let v = child(&root, "vendor");
    assert_eq!(v.file_type, NodeFileType::Directory);
    assert!(child(&root, "system").children.iter().all(|c| c.name != "vendor"));
}

#[test]
fn vendor_stays_under_system_without_symlink() {
    let a = ModuleTree { system: Some(vec![dir("vendor", "/m/a/system/vendor", vec![file("f", "/m/a/system/vendor/f")])]) };
    let facts = vec![PartitionFacts { name: "vendor".to_string(), root_is_dir: true, system_is_symlink: false }];
    let root = build(vec![a], &facts, &vec![]).expect("tree");
    assert_eq!(root.children.len(), 1);
    child(child(&root, "system"), "vendor");
}

#[test]
fn extra_partition_moves_without_symlink() {
    let a = ModuleTree { system: Some(vec![dir("my_stock", "/m/a/system/my_stock", vec![file("f", "/m/a/system/my_stock/f")])]) };
    let facts = vec![PartitionFacts { name: "my_stock".to_string(), root_is_dir: true, system_is_symlink: false }];
    let root = build(vec![a], &facts, &vec!["my_stock".to_string(), "system".to_string()]).expect("tree");
    child(&root, "my_stock");
    assert_eq!(root.children.len(), 2);
}

fn has_op(ops: &[MountOp], f: impl Fn(&MountOp) -> bool) -> bool {
    ops.iter().any(f)
}

#[test]
fn same_file_from_two_modules_binds_first_over_host_file() {
    let a = ModuleTree {
        system: Some(vec![dir("etc", "/m/a/system/etc", vec![file("hosts", "/m/a/system/etc/hosts")])]),
    };
    let b = ModuleTree {
        system: Some(vec![dir("etc", "/m/b/system/etc", vec![file("hosts", "/m/b/system/etc/hosts")])]),
    };
    let root = build(vec![a, b], &vec![], &vec![]).expect("tree");
    let host_root = host("", HostKind::Directory, vec![host("system", HostKind::Directory, vec![
        host("etc", HostKind::Directory, vec![host("hosts", HostKind::RegularFile, vec![])]),
    ])]);
    let ops = plan_magic_mount(&root, &host_root, "/tmp/work", false);
    let binds: Vec<&MountOp> = ops.iter().filter(|o| matches!(o, MountOp::BindFile { .. })).collect();
    assert_eq!(binds.len(), 1);
    match binds[0] {
        MountOp::BindFile { source, target } => {
            assert_eq!(source, "/m/a/system/etc/hosts");
            assert_eq!(target, "/system/etc/hosts");
        }
        _ => unreachable!(),
    }
    assert!(!has_op(&ops, |o| matches!(o, MountOp::BindFile { source, .. } if source.starts_with("/m/b"))));
}

#[test]
fn opaque_directory_becomes_tmpfs_without_host_entries() {
    let mut foo = dir("Foo", "/m/a/system/app/Foo", vec![file("Foo.apk", "/m/a/system/app/Foo/Foo.apk")]);
    foo.opaque_xattr = Some(b"y".to_vec());
    let a = ModuleTree { system: Some(vec![dir("app", "/m/a/system/app", vec![foo])]) };
    let root = build(vec![a], &vec![], &vec![]).expect("tree");
    let host_root = host("", HostKind::Directory, vec![host("system", HostKind::Directory, vec![
        host("app", HostKind::Directory, vec![host("Foo", HostKind::Directory, vec![])]),
    ])]);
    let ops = plan_magic_mount(&root, &host_root, "/tmp/work", false);
    assert!(has_op(&ops, |o| matches!(o, MountOp::MakeDirAll { path } if path == "/tmp/work/system/app/Foo")));
    assert!(has_op(&ops, |o| matches!(o, MountOp::MoveMount { from, to } if from == "/tmp/work/system/app/Foo" && to == "/system/app/Foo")));
    assert!(!has_op(&ops, |o| matches!(o, MountOp::MirrorDir { host_dir, .. } if host_dir == "/system/app/Foo")));
    assert!(has_op(&ops, |o| matches!(o, MountOp::BindFile { target, .. } if target == "/tmp/work/system/app/Foo/Foo.apk")));
}

#[test]
fn whiteout_turns_parent_into_tmpfs_mirroring_siblings() {
    let dev = entry("libblock.so", "/m/a/system/lib/libblock.so", EntryKind::CharDevice, vec![]);
    let a = ModuleTree { system: Some(vec![dir("lib", "/m/a/system/lib", vec![dev])]) };
    let root = build(vec![a], &vec![], &vec![]).expect("tree");
    let host_root = host("", HostKind::Directory, vec![host("system", HostKind::Directory, vec![
        host("lib", HostKind::Directory, vec![host("libblock.so", HostKind::RegularFile, vec![])]),
    ])]);
    let ops = plan_magic_mount(&root, &host_root, "/tmp/work", false);
    assert!(has_op(&ops, |o| matches!(o, MountOp::MirrorDir { host_dir, work_dir, except }
        if host_dir == "/system/lib" && work_dir == "/tmp/work/system/lib" && except == &vec!["libblock.so".to_string()])));
    assert!(has_op(&ops, |o| matches!(o, MountOp::MoveMount { to, .. } if to == "/system/lib")));
    assert!(!has_op(&ops, |o| matches!(o, MountOp::BindFile { .. } | MountOp::CreateFile { .. })));
}

#[test]
fn whiteout_over_missing_host_entry_needs_no_tmpfs() {
    let dev = entry("gone.so", "/m/a/system/lib/gone.so", EntryKind::CharDevice, vec![]);
    let a = ModuleTree { system: Some(vec![dir("lib", "/m/a/system/lib", vec![dev])]) };
    let root = build(vec![a], &vec![], &vec![]).expect("tree");
    let lib = child(child(&root, "system"), "lib");
    let host_lib = host("lib", HostKind::Directory, vec![]);
    assert!(!should_create_tmpfs(lib, Some(&host_lib), false));
    let host_root = host("", HostKind::Directory, vec![host("system", HostKind::Directory, vec![host_lib])]);
    let ops = plan_magic_mount(&root, &host_root, "/tmp/work", false);
    assert!(ops.is_empty());
}

#[test]
fn new_file_needs_tmpfs_and_synthetic_parent_refuses() {
    let a = ModuleTree { system: Some(vec![dir("bin", "/m/a/system/bin", vec![file("tool", "/m/a/system/bin/tool")])]) };
    let root = build(vec![a], &vec![], &vec![]).expect("tree");
    let bin = child(child(&root, "system"), "bin");
    let host_bin = host("bin", HostKind::Directory, vec![]);
    assert!(should_create_tmpfs(bin, Some(&host_bin), false));
    let system = child(&root, "system");
    assert!(!should_create_tmpfs(system, None, false));
    assert!(should_create_tmpfs(system, None, true));
}

#[test]
fn each_leaf_gives_one_bind_or_symlink() {
    let link = entry("sh", "/m/a/system/bin/sh", EntryKind::Symlink, vec![]);
    let a = ModuleTree {
        system: Some(vec![dir("bin", "/m/a/system/bin", vec![file("tool", "/m/a/system/bin/tool"), link])]),
    };
    let root = build(vec![a], &vec![], &vec![]).expect("tree");
    let host_root = host("", HostKind::Directory, vec![host("system", HostKind::Directory, vec![
        host("bin", HostKind::Directory, vec![host("sh", HostKind::Symlink, vec![])]),
    ])]);
    let ops = plan_magic_mount(&root, &host_root, "/tmp/work", true);
    let leaves = ops.iter().filter(|o| matches!(o, MountOp::BindFile { .. } | MountOp::CloneSymlink { .. })).count();
    assert_eq!(leaves, 2);
    assert!(has_op(&ops, |o| matches!(o, MountOp::CloneSymlink { source, target } if source == "/m/a/system/bin/sh" && target == "/tmp/work/system/bin/sh")));
    assert!(has_op(&ops, |o| matches!(o, MountOp::CreateFile { path } if path == "/tmp/work/system/bin/tool")));
    assert!(!has_op(&ops, |o| matches!(o, MountOp::MarkUnmountable { .. })));
}

#[test]
fn best_effort_operations() {
    assert!(MountOp::MakePrivate { path: "/a".to_string() }.is_best_effort());
    assert!(MountOp::RemountReadOnly { path: "/a".to_string() }.is_best_effort());
    assert!(!MountOp::MoveMount { from: "/a".to_string(), to: "/b".to_string() }.is_best_effort());
}
