use portwatch::name_clean::clean_process_name;

#[test]
fn clean_resolves_escaped_spaces_and_backslashes() {
    // The escaped-space token becomes a space; a lone backslash is
    // stripped without leaving one behind.
    assert_eq!(clean_process_name("foo\\x20bar\\baz"), "foo barbaz");
    assert_eq!(clean_process_name("foo\\x20bar\\x20baz"), "foo bar baz");
}

#[test]
fn clean_of_clean_name_is_unchanged() {
    let once = clean_process_name("foo\\x20bar\\baz");
    let twice = clean_process_name(&once);
    assert_eq!(twice, once);
}

#[test]
fn clean_leaves_plain_name_alone() {
    assert_eq!(clean_process_name("nginx"), "nginx");
}

#[test]
fn clean_trims_surrounding_whitespace() {
    assert_eq!(clean_process_name("  node\t"), "node");
}

#[test]
fn clean_of_only_escapes_is_empty() {
    assert_eq!(clean_process_name(" \\x20 "), "");
    assert_eq!(clean_process_name("\\\\"), "");
}
