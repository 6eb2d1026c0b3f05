use rua::terminal_util::escape_bash_arg;
use rua::srcinfo_to_pkgbuild::escape_value;

#[test]
fn escapes_plain_text_by_quoting() {
    assert_eq!(escape_bash_arg("abc"), "'abc'");
    assert_eq!(escape_bash_arg(""), "''");
}

#[test]
fn escapes_quotes_by_splicing() {
    assert_eq!(escape_bash_arg("it's"), "'it'\\''s'");
    assert_eq!(escape_bash_arg("'"), "''\\'''");
}

#[test]
fn escape_value_leaves_quotes_spliced() {
    assert_eq!(escape_value("a'b"), "a'\\''b");
    assert_eq!(escape_value("plain"), "plain");
}
