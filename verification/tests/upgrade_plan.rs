use rua::action_upgrade::{classify_upgrade, pkg_is_devel, upgrade_prompt, UpgradeClass, UpgradePrompt};

#[test]
fn devel_names_end_in_a_vcs_suffix() {
    assert!(pkg_is_devel("tool-git"));
    assert!(pkg_is_devel("tool-hg"));
    assert!(pkg_is_devel("tool-svn-compat"));
    assert!(!pkg_is_devel("tool"));
    assert!(!pkg_is_devel("git"));
    assert!(!pkg_is_devel("tool-git-"));
    assert!(!pkg_is_devel("gitar"));
}

#[test]
fn classification_follows_versions_and_ignores() {
    assert_eq!(classify_upgrade("a", true, true, false, false), UpgradeClass::Outdated);
    assert_eq!(classify_upgrade("a", true, true, false, true), UpgradeClass::Ignored);
    assert_eq!(classify_upgrade("a", true, false, false, false), UpgradeClass::UpToDate);
    assert_eq!(classify_upgrade("a-git", true, false, true, false), UpgradeClass::Outdated);
    assert_eq!(classify_upgrade("a", false, false, false, false), UpgradeClass::Nonexistent);
    assert_eq!(classify_upgrade("a", false, false, false, true), UpgradeClass::Ignored);
}

#[test]
fn planner_with_everything_current_does_not_prompt() {
    assert_eq!(upgrade_prompt(true, true), UpgradePrompt::AllUpToDate);
    assert_eq!(upgrade_prompt(true, false), UpgradePrompt::NothingToUpgrade);
    assert_eq!(upgrade_prompt(false, true), UpgradePrompt::Ask);
    assert_eq!(upgrade_prompt(false, false), UpgradePrompt::Ask);
}
