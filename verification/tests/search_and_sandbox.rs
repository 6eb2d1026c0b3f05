use rua::action_search::contains_keyword;
use rua::wrapped::{build_args, makepkg_env_overrides, srcinfo_args};

#[test]
fn keywords_match_name_or_description_case_insensitively() {
    assert!(contains_keyword("RipGrep", &None, "grep"));
    assert!(contains_keyword("tool", &Some("Fast Search".to_string()), "search"));
    assert!(!contains_keyword("tool", &Some("unrelated".to_string()), "grep"));
    assert!(!contains_keyword("tool", &None, "grep"));
}

#[test]
fn every_staging_variable_points_at_the_work_directory() {
    let env = makepkg_env_overrides("/tmp/workdir");
    let keys: Vec<&str> = env.iter().map(|(k, _)| k.as_str()).collect();
    assert_eq!(keys, vec!["PKGDEST", "SRCDEST", "SRCPKGDEST", "LOGDEST", "BUILDDIR"]);
    assert!(env.iter().all(|(_, v)| v == "/tmp/workdir"));
}

#[test]
fn build_arguments_follow_the_flags() {
    let (offline, args) = build_args(true, false);
    assert!(offline);
    assert_eq!(args, vec!["makepkg"]);
    let (_, args) = build_args(false, true);
    assert_eq!(args, vec!["makepkg", "--force"]);
    assert_eq!(srcinfo_args(), vec!["makepkg", "--holdver", "--printsrcinfo"]);
}

#[test]
fn install_requests_carry_the_right_arguments() {
    let req = rua::pacman::ensure_aur_packages_installed(vec!["a.pkg.tar".to_string()], true);
    assert_eq!(req.base_args, vec!["-U", "--asdeps"]);
    assert_eq!(req.packages, vec!["a.pkg.tar"]);
    let req = rua::pacman::ensure_aur_packages_installed(vec![], false);
    assert_eq!(req.base_args, vec!["-U"]);
    let req = rua::pacman::ensure_pacman_packages_installed(vec!["gcc".to_string()]);
    assert_eq!(req.base_args, vec!["-S", "--asdeps", "--needed"]);
}
