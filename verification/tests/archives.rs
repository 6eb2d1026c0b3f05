use rua::tar_check::{
    archive_kind, common_suffix_length, summarize_archive, tar_menu_action, ArchiveKind,
    TarEntry, TarMenuAction,
};
use rua::install_plan::{move_resolution, MoveResolution, CROSS_DEVICE_ERRNO};

fn suffix(files: &[&str], whitelist: &[&str], expected: usize) {
    let files: Vec<String> = files.iter().map(|s| s.to_string()).collect();
    let wl: Vec<String> = whitelist.iter().map(|s| s.to_string()).collect();
    assert_eq!(common_suffix_length(&files, &wl), expected);
}

#[test]
fn test_all() {
    suffix(&["a-1.pkg.tar", "b-1.pkg.tar"], &["a"], 10);
    suffix(&["a-1.pkg.tar", "bbbb-1.pkg.tar"], &["a", "dinosaur"], 10);
    suffix(&["a-x-1.pkg.tar", "b-x-1.pkg.tar"], &["a-x"], 10);
    suffix(&["a-x-1.pkg.tar", "b-x-1.pkg.tar"], &["a"], 12);
}

#[test]
fn archive_kind_follows_the_suffix() {
    assert!(matches!(archive_kind("p.pkg.tar"), Some(ArchiveKind::Plain)));
    assert!(matches!(archive_kind("p.pkg.tar.xz"), Some(ArchiveKind::Xz)));
    assert!(matches!(archive_kind("p.pkg.tar.lzma"), Some(ArchiveKind::Xz)));
    assert!(matches!(archive_kind("p.pkg.tar.gz"), Some(ArchiveKind::Gz)));
    assert!(matches!(archive_kind("p.pkg.tar.gzip"), Some(ArchiveKind::Gz)));
    assert!(matches!(archive_kind("p.pkg.tar.zst"), Some(ArchiveKind::Zstd)));
    assert!(matches!(archive_kind("p.pkg.tar.zstd"), Some(ArchiveKind::Zstd)));
    assert!(archive_kind("p.zip").is_none());
}

fn entry(path: &str, mode: u32) -> TarEntry {
    TarEntry { path: path.to_string(), mode }
}

#[test]
fn summary_classifies_entries() {
    let entries = vec![
        entry("usr/", 0o755),
        entry("usr/bin/tool", 0o755),
        entry("usr/share/doc", 0o644),
        entry("usr/bin/odd", 0o4755),
        entry(".INSTALL", 0o644),
    ];
    let s = summarize_archive(&entries);
    assert_eq!(s.all_files, vec!["usr/bin/tool", "usr/share/doc", "usr/bin/odd"]);
    assert_eq!(s.executable_files, vec!["usr/bin/tool", "usr/bin/odd"]);
    assert_eq!(s.suid_files, vec!["usr/bin/odd"]);
    assert!(s.has_install);
}

#[test]
fn archive_without_executables_still_offers_accepting() {
    let entries = vec![entry("usr/share/doc/readme", 0o644)];
    let s = summarize_archive(&entries);
    assert!(s.suid_files.is_empty());
    assert!(s.executable_files.is_empty());
    assert!(!s.has_install);
    // accepting stays available, the unavailable listings ask again
    assert!(matches!(tar_menu_action("o", s.has_install, !s.suid_files.is_empty()), TarMenuAction::Accept));
    assert!(matches!(tar_menu_action("s", s.has_install, !s.suid_files.is_empty()), TarMenuAction::AskAgain));
    assert!(matches!(tar_menu_action("i", s.has_install, !s.suid_files.is_empty()), TarMenuAction::AskAgain));
    assert!(matches!(tar_menu_action("q", s.has_install, !s.suid_files.is_empty()), TarMenuAction::Quit));
    assert!(matches!(tar_menu_action("l", s.has_install, !s.suid_files.is_empty()), TarMenuAction::ListAll));
}

#[test]
fn cross_device_rename_falls_back_to_copying() {
    assert!(matches!(move_resolution(None), MoveResolution::Done));
    assert!(matches!(move_resolution(Some(CROSS_DEVICE_ERRNO)), MoveResolution::CopyThenRemove));
    assert!(matches!(move_resolution(Some(2)), MoveResolution::Fail));
}
