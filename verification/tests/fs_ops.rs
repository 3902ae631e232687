use std::path::{Path, PathBuf};

use flyo::config::Config;
use flyo::fs_ops::{
    confine, extension_for, is_listed, listing, resolve, resolve_for, sort_entries, trash_entry_name, within_root_for, DirItem,
    Entry, FsError,
};

fn cfg_in(root: &Path) -> Config {
    Config {
        root: root.to_string_lossy().to_string(),
        ..Config::default()
    }
}

fn listed(names: &[(&str, bool)], show_hidden: bool) -> Vec<String> {
    let items: Vec<DirItem> = names
        .iter()
        .map(|(n, d)| DirItem { name: n.to_string(), is_dir: *d, len: 10, mtime: 0 })
        .collect();
    listing(items, show_hidden).into_iter().map(|e| e.name).collect()
}

#[test]
fn resolve_normalises_leading_slash() {
    let root = PathBuf::from("/tmp/flyo-fs-test-res1");
    let cfg = cfg_in(&root);
    assert_eq!(PathBuf::from(resolve(&cfg, "/foo").unwrap()), root.join("foo"));
    assert_eq!(PathBuf::from(resolve(&cfg, "foo").unwrap()), root.join("foo"));
    assert_eq!(PathBuf::from(resolve(&cfg, "/").unwrap()), root);
}

#[test]
fn resolve_rejects_dotdot() {
    let root = PathBuf::from("/tmp/flyo-fs-test-res2");
    let cfg = cfg_in(&root);
    assert!(matches!(resolve(&cfg, "/../etc/passwd"), Err(FsError::Traversal)));
    assert!(matches!(resolve(&cfg, "foo/../../bar"), Err(FsError::Traversal)));
}

#[test]
fn list_dir_hides_hidden_and_trash_by_default() {
    let names = listed(&[("visible.txt", false), (".secret", false), (".Trash", true)], false);
    assert_eq!(names, vec!["visible.txt"]);
}

#[test]
fn list_dir_shows_hidden_when_allowed_but_never_trash() {
    let names = listed(&[("v.txt", false), (".secret", false), (".Trash", true)], true);
    assert!(names.contains(&".secret".to_string()));
    assert!(names.contains(&"v.txt".to_string()));
    assert!(!names.contains(&".Trash".to_string()), "trash must never be listed");
}

#[test]
fn list_dir_orders_directories_first_then_alphabetical() {
    let names = listed(&[("zfile.txt", false), ("adir", true), ("bfile.txt", false)], false);
    assert_eq!(names, vec!["adir", "bfile.txt", "zfile.txt"]);
}

#[test]
fn delete_moves_into_trash_with_unique_name() {
    let name = trash_entry_name(0x5f3e1a2b, "k3x9q0ab", Some("a.txt"));
    assert!(name.starts_with('.'));
    assert!(name.ends_with(".a.txt"), "trash entry name = {name}");
    assert_eq!(name, ".5f3e1a2b.k3x9q0ab.a.txt");
}

#[test]
fn same_second_deletes_get_different_names() {
    let a = trash_entry_name(7, "aaaaaaaa", Some("a.txt"));
    let b = trash_entry_name(7, "aaaaaaab", Some("a.txt"));
    assert_ne!(a, b);
    assert_eq!(trash_entry_name(255, "t0000000", None), ".ff.t0000000.unnamed");
}

#[test]
fn resolve_skips_empty_and_dot_components() {
    let cfg = cfg_in(Path::new("/srv/share/"));
    assert_eq!(resolve(&cfg, "//a/./b//c/").unwrap(), "/srv/share/a/b/c");
    assert_eq!(resolve(&cfg, "").unwrap(), "/srv/share/");
    let cfg = cfg_in(Path::new("/srv/share"));
    assert_eq!(resolve(&cfg, "x").unwrap(), "/srv/share/x");
    assert_eq!(resolve(&cfg, "a/..b/c").unwrap(), "/srv/share/a/..b/c");
    assert!(matches!(resolve(&cfg, "a/b/.."), Err(FsError::Traversal)));
}

#[test]
fn sorting_ignores_case_and_is_stable() {
    let names = listed(&[("b", false), ("A", false), ("a", false), ("Dir", true), ("c", true)], false);
    assert_eq!(names, vec!["c", "Dir", "A", "a", "b"]);
    let names = listed(&[("a", false), ("A", false)], false);
    assert_eq!(names, vec!["a", "A"]);
}

#[test]
fn unicode_names_sort_by_their_lowercase_form() {
    let names = listed(&[("Éclair", false), ("écrou", false), ("zèbre", false)], false);
    assert_eq!(names, vec!["zèbre", "Éclair", "écrou"]);
}

#[test]
fn directory_entries_report_size_zero() {
    assert_eq!(Entry::new("d".into(), true, 4096, 1).size, 0);
    assert_eq!(Entry::new("f".into(), false, 4096, 1).size, 4096);
    let mut v = vec![Entry::new("b".into(), false, 1, 1), Entry::new("a".into(), true, 1, 1)];
    sort_entries(&mut v);
    assert_eq!(v[0].name, "a");
    assert!(is_listed("x", false) && !is_listed(".x", false) && !is_listed(".Trash", true));
}

#[test]
fn nameless_paths_go_to_the_trash_as_unnamed() {
    assert_eq!(trash_entry_name(0, "t", None), ".0.t.unnamed");
}

#[test]
fn fs_errors_map_to_statuses_and_messages() {
    assert_eq!(FsError::Traversal.status(), 400);
    assert_eq!(FsError::NotFound.status(), 404);
    assert_eq!(FsError::NotADirectory.status(), 400);
    assert_eq!(FsError::NotAFile.status(), 400);
    assert_eq!(FsError::AlreadyExists.status(), 409);
    assert_eq!(FsError::Io("disk".into()).status(), 500);
    assert_eq!(FsError::Traversal.message(), "path is outside the share root");
    assert_eq!(FsError::NotFound.message(), "not found");
    assert_eq!(FsError::NotADirectory.message(), "not a directory");
    assert_eq!(FsError::NotAFile.message(), "not a regular file");
    assert_eq!(FsError::AlreadyExists.message(), "already exists");
    assert_eq!(FsError::Io("disk".into()).message(), "io error: disk");
}

#[test]
fn resolve_rejects_drive_prefix() {
    let cfg = cfg_in(Path::new("D:\\my share"));
    assert!(matches!(resolve_for(&cfg, "C:\\Windows", true), Err(FsError::Traversal)));
    assert!(matches!(resolve_for(&cfg, "/c:/x", true), Err(FsError::Traversal)));
    assert!(matches!(resolve_for(&cfg, "a\\D:b", true), Err(FsError::Traversal)));
}

#[test]
fn windows_rules_split_at_backslashes() {
    let cfg = cfg_in(Path::new("D:\\share\\"));
    assert!(matches!(resolve_for(&cfg, "..\\x", true), Err(FsError::Traversal)));
    assert!(matches!(resolve_for(&cfg, "a\\..\\..\\b", true), Err(FsError::Traversal)));
    assert!(matches!(resolve_for(&cfg, "\\\\server\\share\\f", true), Err(FsError::Traversal)));
    assert_eq!(resolve_for(&cfg, "a\\b/c", true).unwrap(), "D:\\share\\a/b/c");
    assert_eq!(resolve_for(&cfg, "\\a", true).unwrap(), "D:\\share\\a");
}

#[test]
fn other_systems_keep_backslashes_in_names() {
    let cfg = cfg_in(Path::new("/srv"));
    assert_eq!(resolve_for(&cfg, "..\\x", false).unwrap(), "/srv/..\\x");
    assert_eq!(resolve_for(&cfg, "C:\\Windows", false).unwrap(), "/srv/C:\\Windows");
    assert!(matches!(resolve_for(&cfg, "a/../b", false), Err(FsError::Traversal)));
}

#[test]
fn links_out_of_the_root_are_refused() {
    assert!(within_root_for("/srv/share", "/srv/share", false));
    assert!(within_root_for("/srv/share", "/srv/share/a/b", false));
    assert!(!within_root_for("/srv/share", "/srv/shared/a", false));
    assert!(!within_root_for("/srv/share", "/etc/passwd", false));
    assert!(within_root_for("/", "/etc", false));
    assert!(within_root_for("C:\\share", "C:\\share\\a", true));
    assert!(!within_root_for("C:\\share", "C:\\share\\a", false));
    assert!(confine("/srv/share", "/srv/share/x").is_ok());
    assert!(matches!(confine("/srv/share", "/etc"), Err(FsError::Traversal)));
}

#[test]
fn listing_filters_then_orders() {
    let item = |n: &str, d: bool| DirItem { name: n.to_string(), is_dir: d, len: 7, mtime: 3 };
    let out = listing(
        vec![item("b.txt", false), item(".Trash", true), item("Zdir", true), item(".h", false), item("A.txt", false)],
        false,
    );
    let names: Vec<&str> = out.iter().map(|e| e.name.as_str()).collect();
    assert_eq!(names, vec!["Zdir", "A.txt", "b.txt"]);
    assert_eq!(out[0].size, 0);
    assert_eq!(out[1].size, 7);
    let all = listing(vec![item(".h", false), item(".Trash", true)], true);
    assert_eq!(all.len(), 1);
    assert_eq!(all[0].name, ".h");
}

#[test]
fn extensions_follow_path_extension() {
    let ext = |p: &str, w: bool| extension_for(p, w).map(|v| v.into_iter().collect::<String>());
    assert_eq!(ext("a/b.tar.gz", false).as_deref(), Some("gz"));
    assert_eq!(ext("/srv/.bashrc", false), None);
    assert_eq!(ext("a.", false).as_deref(), Some(""));
    assert_eq!(ext("a/..", false), None);
    assert_eq!(ext("dir.d/", false).as_deref(), Some("d"));
    assert_eq!(ext("a/./", false), None);
    assert_eq!(ext("x\\.png", false).as_deref(), Some("png"));
    assert_eq!(ext("x\\.png", true), None);
    assert_eq!(ext("C:x.png", true).as_deref(), Some("png"));
    assert_eq!(ext("\\\\srv\\share", true), None);
    assert_eq!(ext("\\\\srv\\share\\f.txt", true).as_deref(), Some("txt"));
    for p in ["a/b.tar.gz", "/srv/.bashrc", "a.", "a/..", "dir.d/", "a/./", "x\\.png", "", "/", "..", "a.b/c"] {
        let std_ext = std::path::Path::new(p).extension().map(|e| e.to_string_lossy().to_string());
        assert_eq!(ext(p, false), std_ext, "{p}");
    }
}
