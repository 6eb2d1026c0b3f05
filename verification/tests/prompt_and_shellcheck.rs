use rua::pacman::{install_loop_step, InstallLoopAction};
use rua::wrapped::{shellcheck_stdin, shellcheck_target};

#[test]
fn prompt_steps_follow_the_answer() {
    assert_eq!(install_loop_step("s", true), InstallLoopAction::Done);
    assert_eq!(install_loop_step("s", false), InstallLoopAction::Recheck);
    assert_eq!(install_loop_step("m", false), InstallLoopAction::Recheck);
    assert_eq!(install_loop_step("x", false), InstallLoopAction::Stop);
    assert_eq!(install_loop_step("", false), InstallLoopAction::AskAgain);
    assert_eq!(install_loop_step("q", true), InstallLoopAction::AskAgain);
}

#[test]
fn the_placeholder_is_replaced_everywhere() {
    assert_eq!(shellcheck_stdin("a %PKGBUILD% b", "X=1"), "a X=1 b");
    assert_eq!(shellcheck_stdin("%PKGBUILD%%PKGBUILD%", "-"), "--");
    assert_eq!(shellcheck_stdin("no placeholder", "X=1"), "no placeholder");
    assert_eq!(shellcheck_stdin("", "X=1"), "");
}

#[test]
fn the_check_target_follows_the_argument() {
    assert_eq!(shellcheck_target(&None, false), "/dev/stdin");
    assert_eq!(shellcheck_target(&Some("/tmp/d".to_string()), true), "/tmp/d/PKGBUILD");
    assert_eq!(shellcheck_target(&Some("/tmp/f".to_string()), false), "/tmp/f");
}
