use hybrid_mount::nuke::{kernel_short_text, nuke_arguments, select_lkm, symbol_usable};
use hybrid_mount::modules::{
    decimal_text, description_line, module_info, read_prop, rewrite_description, sort_by_name,
};
use hybrid_mount::overlay::{
    child_mount_points, lowerdir_config, overlay_attempts, overlay_child_action, relative_to,
    ChildAction, LowerFacts, OverlayAttempt,
};
use hybrid_mount::text::{path_join, split_char, text_lines, trim_text};

#[test]
fn trimming_and_splitting() {
    assert_eq!(trim_text(" \t a b \n"), "a b");
    assert_eq!(trim_text("\u{3000}x\u{a0}"), "x");
    assert_eq!(split_char("a,,b", ','), vec!["a", "", "b"]);
    assert_eq!(text_lines("a\r\nb\n\nc"), vec!["a", "b", "", "c"]);
    assert!(text_lines("").is_empty());
    assert_eq!(text_lines("x\n"), vec!["x"]);
}

#[test]
fn joining_paths() {
    assert_eq!(path_join("/", "system"), "/system");
    assert_eq!(path_join("/system", "etc"), "/system/etc");
    assert_eq!(path_join("/tmp/work", ""), "/tmp/work");
    assert_eq!(path_join("/a", "/b"), "/b");
}

#[test]
fn lowerdir_lists_modules_then_stock() {
    let l = vec!["/mnt/a/system".to_string(), "/mnt/b/system".to_string()];
    assert_eq!(lowerdir_config(&l, "."), "/mnt/a/system:/mnt/b/system:.");
    assert_eq!(lowerdir_config(&vec![], "/system"), "/system");
}

#[test]
fn overlay_attempt_ladder() {
    let l = vec!["/mnt/a/system".to_string()];
    let a = overlay_attempts(&l, "/system", &None, &Some("/w".to_string()));
    assert_eq!(a.len(), 4);
    match &a[0] {
        OverlayAttempt::NewApi { lowerdir, upperdir, workdir, override_creds } => {
            assert_eq!(lowerdir, "/mnt/a/system:/system");
            assert!(upperdir.is_none() && workdir.is_none());
            assert!(*override_creds);
        }
        _ => panic!(),
    }
    assert!(matches!(&a[1], OverlayAttempt::NewApi { override_creds: false, .. }));
    match (&a[2], &a[3]) {
        (OverlayAttempt::Legacy { data: d1 }, OverlayAttempt::Legacy { data: d2 }) => {
            assert_eq!(d1, "lowerdir=/mnt/a/system:/system,override_creds=off");
            assert_eq!(d2, "lowerdir=/mnt/a/system:/system");
        }
        _ => panic!(),
    }
    let b = overlay_attempts(&l, ".", &Some("/u".to_string()), &Some("/w".to_string()));
    match &b[2] {
        OverlayAttempt::Legacy { data } => assert_eq!(data, "lowerdir=/mnt/a/system:.,upperdir=/u,workdir=/w,override_creds=off"),
        _ => panic!(),
    }
}

#[test]
fn child_mounts_sorted_unique_and_below_root() {
    let mounts: Vec<String> = ["/system/lib", "/", "/system", "/system_ext", "/system/app", "/system/lib", "/vendor"]
        .iter().map(|s| s.to_string()).collect();
    assert_eq!(child_mount_points("/system", &mounts), vec!["/system/app", "/system/lib"]);
    assert_eq!(relative_to("/system", "/system/app"), "/app");
}

#[test]
fn child_actions() {
    let none = vec![LowerFacts { dir: "/mnt/a/system/app".to_string(), exists: false, is_dir: false }];
    assert!(matches!(overlay_child_action(&none, true), ChildAction::BindStock));
    let dirs = vec![
        LowerFacts { dir: "/mnt/a/system/app".to_string(), exists: true, is_dir: true },
        LowerFacts { dir: "/mnt/b/system/app".to_string(), exists: false, is_dir: false },
    ];
    match overlay_child_action(&dirs, true) {
        ChildAction::Overlay { lower_dirs } => assert_eq!(lower_dirs, vec!["/mnt/a/system/app".to_string()]),
        _ => panic!(),
    }
    assert!(matches!(overlay_child_action(&dirs, false), ChildAction::Skip));
    let blocked = vec![LowerFacts { dir: "/mnt/a/system/app".to_string(), exists: true, is_dir: false }];
    assert!(matches!(overlay_child_action(&blocked, true), ChildAction::Skip));
}

#[test]
fn module_prop_reading() {
    let text = "id=x\nname=Fancy Module\nversion=v1.2\nnamex=no\n";
    assert_eq!(read_prop(text, "name").as_deref(), Some("Fancy Module"));
    assert_eq!(read_prop(text, "author"), None);
    let info = module_info(&"x".to_string(), &Some(text.to_string()), &"magic".to_string());
    assert_eq!(info.name, "Fancy Module");
    assert_eq!(info.version, "v1.2");
    assert_eq!(info.author, "");
    assert_eq!(info.mode, "magic");
    let bare = module_info(&"y".to_string(), &None, &"auto".to_string());
    assert_eq!(bare.name, "y");
}

#[test]
fn listing_sorted_by_name_stably() {
    let mk = |id: &str, name: &str| module_info(&id.to_string(), &Some(format!("name={}\n", name)), &"auto".to_string());
    let sorted = sort_by_name(vec![mk("1", "b"), mk("2", "a"), mk("3", "b"), mk("4", "A")]);
    let ids: Vec<&str> = sorted.iter().map(|i| i.id.as_str()).collect();
    assert_eq!(ids, vec!["4", "2", "1", "3"]);
}

#[test]
fn description_rewrite_and_line() {
    assert_eq!(decimal_text(0), "0");
    assert_eq!(decimal_text(1203), "1203");
    let line = description_line("tmpfs", false, 3, 1);
    assert_eq!(line, "description=\u{1F60B} \u{8FD0}\u{884C}\u{4E2D}\u{55B5}\u{FF5E} (Tmpfs) \u{1F43E} | Overlay: 3 | Magic: 1");
    let ext = description_line("ext4", true, 0, 12);
    assert!(ext.contains("(Ext4)"));
    assert!(ext.ends_with("| Magic: 12 | \u{8089}\u{57AB}: \u{5F00}\u{542F} \u{2728}"));
    let out = rewrite_description("id=x\ndescription=old\nname=n", "description=new");
    assert_eq!(out, "id=x\ndescription=new\nname=n");
}

#[test]
fn kernel_module_choice() {
    assert_eq!(kernel_short_text("5.10.198-android12-9").as_deref(), Some("5.10"));
    assert_eq!(kernel_short_text("6"), None);
    let names: Vec<String> = ["nuke-5.15-android13.ko", "nuke-5.10-android11.ko", "nuke-5.10-android12.ko"]
        .iter().map(|s| s.to_string()).collect();
    assert_eq!(select_lkm(&names, "5.10", "12"), Some(2));
    assert_eq!(select_lkm(&names, "5.10", "14"), Some(1));
    assert_eq!(select_lkm(&names, "5.10", ""), Some(1));
    assert_eq!(select_lkm(&names, "4.19", "12"), None);
    assert!(!symbol_usable(""));
    assert!(!symbol_usable("0x0000000000000000"));
    assert!(symbol_usable("0xffffffc0081a2b3c"));
    let (a, b) = nuke_arguments("/mnt", "0x1");
    assert_eq!(a, "mount_point=/mnt");
    assert_eq!(b, "symaddr=0x1");
}
