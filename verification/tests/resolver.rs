use rua::to_install::{DepClass, DepthEntry, PkgInfo, ToInstall};

fn info(name: &str, base: &str, deps: &[&str]) -> PkgInfo {
    PkgInfo::new(
        name.to_string(),
        base.to_string(),
        deps.iter().map(|d| d.to_string()).collect(),
    )
}

fn depth_of(t: &ToInstall, name: &str) -> Option<usize> {
    t.depths().iter().find(|e| e.name == name).map(|e| e.depth)
}

#[test]
fn resolver_walks_the_chain_deeper() {
    // roots ["x"]; x depends on y, y on z, z on nothing
    let mut t = ToInstall::new(&vec!["x".to_string()]);
    let q = t.add_package_classified(info("x", "x", &["y"]), vec![DepClass::Remote]);
    assert_eq!(q, vec!["y".to_string()]);
    let q = t.add_package_classified(info("y", "y", &["z"]), vec![DepClass::Remote]);
    assert_eq!(q, vec!["z".to_string()]);
    let q = t.add_package_classified(info("z", "z", &[]), vec![]);
    assert!(q.is_empty());

    assert_eq!(depth_of(&t, "x"), Some(0));
    assert_eq!(depth_of(&t, "y"), Some(1));
    assert_eq!(depth_of(&t, "z"), Some(2));
    assert!(t.pacman_deps().is_empty());
    assert_eq!(t.infos().len(), 3);
    assert!(t.not_found().is_empty());
}

#[test]
fn installable_dependencies_go_to_pacman() {
    let mut t = ToInstall::new(&vec!["x".to_string()]);
    let q = t.add_package_classified(info("x", "x", &["gcc"]), vec![DepClass::Installable]);
    assert!(q.is_empty());
    assert_eq!(t.pacman_deps(), &vec!["gcc".to_string()]);
    assert_eq!(depth_of(&t, "gcc"), None);
}

#[test]
fn installed_dependencies_are_skipped() {
    let mut t = ToInstall::new(&vec!["x".to_string()]);
    let q = t.add_package_classified(info("x", "x", &["glibc"]), vec![DepClass::Installed]);
    assert!(q.is_empty());
    assert!(t.pacman_deps().is_empty());
    assert_eq!(depth_of(&t, "glibc"), None);
}

#[test]
fn self_dependency_is_not_queued_again() {
    let mut t = ToInstall::new(&vec!["x".to_string()]);
    let q = t.add_package_classified(info("x", "x", &["x"]), vec![DepClass::Remote]);
    assert!(q.is_empty());
    assert_eq!(t.infos().len(), 1);
}

#[test]
fn queued_packages_without_info_are_reported_missing() {
    let mut t = ToInstall::new(&vec!["x".to_string()]);
    let q = t.add_package_classified(info("x", "x", &["lost"]), vec![DepClass::Remote]);
    assert_eq!(q, vec!["lost".to_string()]);
    assert_eq!(t.not_found(), vec!["lost".to_string()]);
}

#[test]
fn deeper_path_wins_for_shared_dependencies() {
    let mut t = ToInstall::new(&vec!["a".to_string()]);
    t.add_package_classified(info("a", "a", &["b", "c"]), vec![DepClass::Remote, DepClass::Remote]);
    t.add_package_classified(info("c", "c", &["b"]), vec![DepClass::Remote]);
    // b was first reached at depth 1, then again below c (depth 1)
    assert_eq!(depth_of(&t, "b"), Some(2));
}

#[test]
fn depth_rows_are_plain_pairs() {
    let e = DepthEntry { name: "n".to_string(), depth: 7 };
    assert_eq!(e.name, "n");
    assert_eq!(e.depth, 7);
}
