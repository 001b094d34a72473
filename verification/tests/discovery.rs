use mdlib::is_file_hidden;
use mdlib::is_file_markdown;

#[test]
fn dotfiles_are_hidden() {
    assert!(is_file_hidden(&String::from(".notes.md")));
    assert!(!is_file_hidden(&String::from("notes.md")));
    assert!(!is_file_hidden(&String::from("")));
}

#[test]
fn markdown_extensions_are_recognized() {
    assert!(is_file_markdown(&String::from("a.md")));
    assert!(is_file_markdown(&String::from("notes.markdown")));
    assert!(is_file_markdown(&String::from("a.mdown")));
    assert!(is_file_markdown(&String::from("a.mkdn")));
    assert!(is_file_markdown(&String::from("a.mkd")));
}

#[test]
fn extension_match_is_case_sensitive() {
    assert!(!is_file_markdown(&String::from("readme.MD")));
    assert!(!is_file_markdown(&String::from("readme.Md")));
}

#[test]
fn other_extensions_are_excluded() {
    assert!(!is_file_markdown(&String::from("notes.txt")));
    assert!(!is_file_markdown(&String::from("notes")));
    assert!(!is_file_markdown(&String::from("notes.")));
    assert!(!is_file_markdown(&String::from("md")));
}

#[test]
fn leading_dot_alone_is_no_extension() {
    assert!(!is_file_markdown(&String::from(".md")));
    assert!(is_file_markdown(&String::from(".foo.md")));
}

#[test]
fn only_the_last_dot_counts() {
    assert!(is_file_markdown(&String::from("a.txt.md")));
    assert!(!is_file_markdown(&String::from("a.md.txt")));
}
