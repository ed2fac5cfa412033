use hybrid_mount::config::{parse_mode_line, parse_module_modes, partitions_from_text, Config, ModeTable};
use hybrid_mount::inventory::{scan, ModuleDirEntry};
use hybrid_mount::router::{classify, promote_failed, ActiveModule};
use hybrid_mount::storage::{
    not_mounted_json, parse_runtime_state, setup_next, setup_start, storage_report, usage_bytes,
    RuntimeState, SetupStep, StorageError, StorageHandle, StorageMode, StorageReport,
};
use hybrid_mount::sync::{
    all_partitions, copy_path_context, live_counterpart, perform_sync, should_wipe, SyncModule,
};
use hybrid_mount::magic::{EntryKind, SourceEntry};
use hybrid_mount::sync::{sync_dir, CopyOp};
use hybrid_mount::storage::{select_temp_dir, ScopedKptrRestrict};

fn module_dir(name: &str) -> ModuleDirEntry {
    ModuleDirEntry {
        name: name.to_string(),
        path: format!("/data/adb/modules/{}", name),
        is_dir: true,
        has_disable: false,
        has_remove: false,
        has_skip_mount: false,
    }
}

#[test]
fn default_config_values() {
    let c = Config::default();
    assert_eq!(c.moduledir, "/data/adb/modules/");
    assert_eq!(c.mountsource, "HybridMount");
    assert!(c.tempdir.is_none());
    assert!(!c.verbose && !c.force_ext4 && !c.enable_nuke);
    assert!(c.partitions.is_empty());
}

#[test]
fn cli_values_override_config() {
    let mut c = Config::default();
    c.partitions = vec!["mi_ext".to_string()];
    c.merge_with_cli(Some("/m".to_string()), None, Some("Src".to_string()), false, vec![]);
    assert_eq!(c.moduledir, "/m");
    assert_eq!(c.mountsource, "Src");
    assert_eq!(c.partitions, vec!["mi_ext".to_string()]);
    assert!(!c.verbose);
    c.merge_with_cli(None, Some("/t".to_string()), None, true, vec!["my_stock".to_string()]);
    assert_eq!(c.tempdir.as_deref(), Some("/t"));
    assert!(c.verbose);
    assert_eq!(c.partitions, vec!["my_stock".to_string()]);
}

#[test]
fn partitions_from_comma_string() {
    assert_eq!(partitions_from_text(" mi_ext, my_stock,,  "), vec!["mi_ext".to_string(), "my_stock".to_string()]);
    assert!(partitions_from_text("").is_empty());
}

#[test]
fn mode_file_lines_and_lowercase() {
    assert_eq!(parse_mode_line(" a = MAGIC "), Some(("a".to_string(), "MAGIC".to_string())));
    assert_eq!(parse_mode_line("  # a=magic"), None);
    assert_eq!(parse_mode_line("novalue"), None);
    assert_eq!(parse_mode_line("k=v=w"), Some(("k".to_string(), "v=w".to_string())));
    let t = parse_module_modes("# comment\nfoo = MAGIC\r\nbar=overlay\nfoo=Auto\n");
    assert_eq!(t.mode_for("foo"), "auto");
    assert_eq!(t.mode_for("bar"), "overlay");
    assert_eq!(t.mode_for("baz"), "auto");
    let t2 = parse_module_modes("foo = MAGIC");
    assert_eq!(t2.mode_for("foo"), "magic");
}

#[test]
fn scan_keeps_enabled_modules_in_descending_order() {
    let mut disabled = module_dir("dis");
    disabled.has_disable = true;
    let mut removed = module_dir("rem");
    removed.has_remove = true;
    let mut skipped = module_dir("skp");
    skipped.has_skip_mount = true;
    let mut file = module_dir("file");
    file.is_dir = false;
    let entries = vec![
        module_dir("alpha"),
        module_dir("meta-hybrid"),
        module_dir("lost+found"),
        module_dir(".git"),
        disabled,
        removed,
        skipped,
        file,
        module_dir("zeta"),
        module_dir("mid"),
    ];
    let modes = parse_module_modes("mid=magic\n");
    let ms = scan(&entries, &modes);
    let ids: Vec<&str> = ms.iter().map(|m| m.id.as_str()).collect();
    assert_eq!(ids, vec!["zeta", "mid", "alpha"]);
    assert_eq!(ms[1].mode, "magic");
    assert_eq!(ms[0].mode, "auto");
    assert_eq!(ms[2].source_path, "/data/adb/modules/alpha");
}

#[test]
fn scan_of_nothing_is_empty() {
    assert!(scan(&vec![], &ModeTable::new()).is_empty());
}

fn active(id: &str, mode: &str, parts: &[&str]) -> ActiveModule {
    ActiveModule {
        id: id.to_string(),
        content_path: format!("/mnt/{}", id),
        mode: mode.to_string(),
        partition_dirs: parts.iter().map(|p| p.to_string()).collect(),
    }
}

#[test]
fn router_splits_overlay_and_magic() {
    let modules = vec![
        active("a", "auto", &["system", "vendor"]),
        active("b", "magic", &["system"]),
        active("c", "overlay", &[]),
    ];
    let parts = all_partitions(&vec![]);
    let r = classify(&modules, &parts);
    assert_eq!(r.magic, vec!["/mnt/b".to_string()]);
    let system = r.overlay.iter().find(|l| l.partition == "system").unwrap();
    assert_eq!(system.modules, vec!["/mnt/a".to_string()]);
    let vendor = r.overlay.iter().find(|l| l.partition == "vendor").unwrap();
    assert_eq!(vendor.modules, vec!["/mnt/a".to_string()]);
    for l in &r.overlay {
        assert!(!l.modules.contains(&"/mnt/c".to_string()));
        for m in &l.modules {
            assert!(!r.magic.contains(m));
        }
    }
}

#[test]
fn overlay_failure_promotes_modules_to_magic() {
    let modules = vec![active("a", "auto", &["system"])];
    let parts = all_partitions(&vec![]);
    let mut r = classify(&modules, &parts);
    let system = r.overlay.iter().find(|l| l.partition == "system").unwrap().modules.clone();
    assert_eq!(system, vec!["/mnt/a".to_string()]);
    assert!(r.magic.is_empty());
    promote_failed(&mut r.magic, &system);
    assert_eq!(r.magic, vec!["/mnt/a".to_string()]);
    promote_failed(&mut r.magic, &system);
    assert_eq!(r.magic.len(), 1);
}

#[test]
fn partition_union_keeps_builtins_first() {
    let p = all_partitions(&vec!["mi_ext".to_string(), "vendor".to_string(), "mi_ext".to_string()]);
    assert_eq!(p, vec!["system", "vendor", "product", "system_ext", "odm", "oem", "mi_ext"]);
}

#[test]
fn storage_falls_back_to_ext4_when_xattr_probe_fails() {
    let mut s = setup_start(false);
    assert_eq!(s, SetupStep::MountTmpfs);
    s = setup_next(s, true);
    assert_eq!(s, SetupStep::ProbeXattr);
    s = setup_next(s, false);
    assert_eq!(s, SetupStep::DetachTmpfs);
    s = setup_next(s, true);
    assert_eq!(s, SetupStep::CheckImage);
    s = setup_next(s, true);
    assert_eq!(s, SetupStep::MountImage);
    s = setup_next(s, true);
    assert_eq!(s, SetupStep::RepairRoot);
    s = setup_next(s, true);
    assert_eq!(s, SetupStep::Ready(StorageMode::Ext4));
    let h = StorageHandle::new("/mnt".to_string(), StorageMode::Ext4);
    assert_eq!(h.mode, "ext4");
}

#[test]
fn storage_tmpfs_when_probe_succeeds() {
    let s = setup_next(setup_next(setup_start(false), true), true);
    assert_eq!(s, SetupStep::Ready(StorageMode::Tmpfs));
    assert_eq!(StorageMode::Tmpfs.name(), "tmpfs");
}

#[test]
fn forced_ext4_without_image_is_unavailable() {
    let s = setup_start(true);
    assert_eq!(s, SetupStep::CheckImage);
    assert_eq!(setup_next(s, false), SetupStep::Failed(StorageError::StorageUnavailable));
    assert_eq!(setup_next(SetupStep::MountImage, false), SetupStep::Failed(StorageError::ImageMountFailed));
    assert_eq!(setup_next(SetupStep::RepairRoot, false), SetupStep::Failed(StorageError::RootRepairFailed));
}

#[test]
fn storage_query_before_mount() {
    assert!(matches!(storage_report(&None, false), StorageReport::NotMounted));
    assert_eq!(not_mounted_json(), "{\"error\":\"Not mounted\"}");
    let st = RuntimeState { mount_point: "/mnt/x".to_string(), storage_mode: String::new() };
    assert!(matches!(storage_report(&Some(st), false), StorageReport::NotMounted));
    let st = RuntimeState { mount_point: "/mnt/x".to_string(), storage_mode: String::new() };
    match storage_report(&Some(st), true) {
        StorageReport::Usage { path, fs_type } => {
            assert_eq!(path, "/mnt/x");
            assert_eq!(fs_type, "unknown");
        }
        _ => panic!("expected usage"),
    }
}

#[test]
fn runtime_state_text_round_trip() {
    let st = RuntimeState { mount_point: "/data/adb/meta-hybrid/mnt".to_string(), storage_mode: "ext4".to_string() };
    let text = st.to_text();
    assert_eq!(text, "mount_point=/data/adb/meta-hybrid/mnt\nstorage_mode=ext4\n");
    let back = parse_runtime_state(&text).unwrap();
    assert_eq!(back.mount_point, st.mount_point);
    assert_eq!(back.storage_mode, "ext4");
    assert!(parse_runtime_state("storage_mode=tmpfs\n").is_none());
    assert_eq!(parse_runtime_state("mount_point=/a\n").unwrap().storage_mode, "");
}

#[test]
fn usage_numbers() {
    assert_eq!(usage_bytes(4096, 100, 40), (409600, 245760));
    assert_eq!(usage_bytes(4096, 10, 20), (40960, 0));
}

fn tree(name: &str, kind: EntryKind, children: Vec<SourceEntry>) -> SourceEntry {
    SourceEntry {
        name: name.to_string(),
        path: format!("/src/{}", name),
        kind,
        rdev: 0,
        opaque_xattr: None,
        has_replace_file: false,
        target_is_dir: false,
        children,
    }
}

#[test]
fn sync_copies_only_modules_with_partition_files() {
    let full = SyncModule {
        id: "full".to_string(),
        source_path: "/data/adb/modules/full".to_string(),
        partitions: vec![tree("system", EntryKind::Directory, vec![tree("etc", EntryKind::Directory, vec![tree("f", EntryKind::RegularFile, vec![])])])],
    };
    let empty = SyncModule {
        id: "empty".to_string(),
        source_path: "/data/adb/modules/empty".to_string(),
        partitions: vec![tree("system", EntryKind::Directory, vec![tree("etc", EntryKind::Directory, vec![])])],
    };
    let other = SyncModule {
        id: "other".to_string(),
        source_path: "/data/adb/modules/other".to_string(),
        partitions: vec![tree("webroot", EntryKind::Directory, vec![tree("f", EntryKind::RegularFile, vec![])])],
    };
    let jobs = perform_sync(&vec![full, empty, other], "/mnt");
    assert_eq!(jobs.len(), 1);
    assert_eq!(jobs[0].id, "full");
    assert_eq!(jobs[0].source, "/data/adb/modules/full");
    assert_eq!(jobs[0].target, "/mnt/full");
}

#[test]
fn label_follows_live_counterpart() {
    assert_eq!(copy_path_context(true, &Some("u:object_r:vendor_file:s0".to_string())), "u:object_r:vendor_file:s0");
    assert_eq!(copy_path_context(false, &Some("u:object_r:vendor_file:s0".to_string())), "u:object_r:system_file:s0");
    assert_eq!(copy_path_context(true, &None), "u:object_r:system_file:s0");
    assert_eq!(live_counterpart("/mnt/a", "/mnt/a/system/bin/app"), "/system/bin/app");
    assert_eq!(live_counterpart("/mnt/a/", "/mnt/a/system"), "/system");
}

#[test]
fn wipe_spares_reserved_entries() {
    assert!(!should_wipe("lost+found"));
    assert!(!should_wipe("meta-hybrid"));
    assert!(should_wipe("some_module"));
}

#[test]
fn copy_plan_covers_every_entry_once() {
    let root = tree("a", EntryKind::Directory, vec![
        tree("system", EntryKind::Directory, vec![
            tree("f", EntryKind::RegularFile, vec![]),
            tree("l", EntryKind::Symlink, vec![]),
        ]),
        tree("module.prop", EntryKind::RegularFile, vec![]),
    ]);
    let ops = sync_dir("/data/adb/modules/a", "/mnt/a", &root);
    assert_eq!(ops.len(), 5);
    assert!(matches!(&ops[0], CopyOp::EnsureDir { source, target } if source == "/data/adb/modules/a" && target == "/mnt/a"));
    assert!(matches!(&ops[1], CopyOp::EnsureDir { target, .. } if target == "/mnt/a/system"));
    assert!(matches!(&ops[2], CopyOp::CopyFile { source, target } if source == "/data/adb/modules/a/system/f" && target == "/mnt/a/system/f"));
    assert!(matches!(&ops[3], CopyOp::CopySymlink { target, .. } if target == "/mnt/a/system/l"));
    assert!(matches!(&ops[4], CopyOp::CopyFile { target, .. } if target == "/mnt/a/module.prop"));
}

#[test]
fn temp_dir_and_kptr_value() {
    assert_eq!(select_temp_dir(), "/data/adb/meta-hybrid/run/workdir");
    assert_eq!(ScopedKptrRestrict::new(Some("1\n".to_string())).original, "1");
    assert_eq!(ScopedKptrRestrict::new(None).original, "2");
}
