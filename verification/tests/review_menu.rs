use rua::reviewing::{autobuild_input, rebuild_warning_needed, review_step, ReviewAction};

#[test]
fn unmerged_state_offers_merge_and_reverse_diff() {
    assert!(matches!(review_step(false, "d"), ReviewAction::ShowDiff { reverse: true }));
    assert!(matches!(review_step(false, "m"), ReviewAction::MergeUpstream));
    assert!(matches!(review_step(false, "t"), ReviewAction::OpenShell));
    assert!(matches!(review_step(false, "s"), ReviewAction::AskAgain));
    assert!(matches!(review_step(false, "o"), ReviewAction::AskAgain));
}

#[test]
fn merged_state_offers_check_and_accept() {
    assert!(matches!(review_step(true, "d"), ReviewAction::ShowDiff { reverse: false }));
    assert!(matches!(review_step(true, "s"), ReviewAction::Shellcheck));
    assert!(matches!(review_step(true, "o"), ReviewAction::Accept));
    assert!(matches!(review_step(true, "m"), ReviewAction::AskAgain));
    assert!(matches!(review_step(true, "x"), ReviewAction::AskAgain));
}

#[test]
fn autobuild_merges_then_accepts() {
    assert_eq!(autobuild_input(false), "m");
    assert_eq!(autobuild_input(true), "o");
}

#[test]
fn rebuild_warning_when_merged_with_build_dir() {
    assert!(rebuild_warning_needed(true, true));
    assert!(!rebuild_warning_needed(true, false));
    assert!(!rebuild_warning_needed(false, true));
}
