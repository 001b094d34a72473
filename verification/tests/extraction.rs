use mdlib::get_tags_from_line;

fn extract(marker: &str, line: &str) -> Vec<String> {
    get_tags_from_line(&String::from(marker), &String::from(line))
}

#[test]
fn two_hash_tags() {
    assert_eq!(extract("#", "`#tag1 #tag2`"), vec!["tag1", "tag2"]);
}

#[test]
fn marker_absent_from_tokens() {
    assert_eq!(extract("$", "`foo bar`"), vec!["foo", "bar"]);
}

#[test]
fn plain_prose_yields_nothing() {
    assert_eq!(extract("#", "just some prose"), Vec::<String>::new());
}

#[test]
fn empty_line_yields_nothing() {
    assert_eq!(extract("#", ""), Vec::<String>::new());
}

#[test]
fn trailing_newline_is_ignored() {
    assert_eq!(extract("#", "`#x #y`\n"), vec!["x", "y"]);
}

#[test]
fn content_after_closing_backtick_is_ignored() {
    assert_eq!(extract("#", "`#x` and a title"), vec!["x"]);
}

#[test]
fn unclosed_backtick_yields_nothing() {
    assert_eq!(extract("#", "`#x"), Vec::<String>::new());
}

#[test]
fn empty_span_yields_nothing() {
    assert_eq!(extract("#", "``"), Vec::<String>::new());
}

#[test]
fn disallowed_character_breaks_the_match() {
    assert_eq!(extract("#", "`a!b`"), Vec::<String>::new());
}

#[test]
fn consecutive_spaces_keep_empty_tokens() {
    assert_eq!(extract("#", "`#a  #b`"), vec!["a", "", "b"]);
}

#[test]
fn marker_only_tokens_become_empty() {
    assert_eq!(extract("#", "`# `"), vec!["", ""]);
}

#[test]
fn marker_is_removed_everywhere_in_a_token() {
    assert_eq!(extract("#", "`#a#b`"), vec!["ab"]);
}

#[test]
fn empty_marker_removes_nothing() {
    assert_eq!(extract("", "`#a b`"), vec!["#a", "b"]);
}

#[test]
fn allowed_punctuation_is_preserved() {
    assert_eq!(extract("#", "`a-b_c9 X`"), vec!["a-b_c9", "X"]);
}
