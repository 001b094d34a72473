use mdlib::ScannedFile;
use mdlib::get_files_with_tag;
use mdlib::get_tags;
use mdlib::get_tags_from_line;

fn scanned(name: &str, path: &str, first_line: &str) -> ScannedFile {
    ScannedFile {
        name: String::from(name),
        path: String::from(path),
        first_line: String::from(first_line),
    }
}

fn docs_scan() -> Vec<ScannedFile> {
    vec![
        scanned("a.md", "/docs/a.md", "`#x #y`"),
        scanned("b.md", "/docs/b.md", "`#y`"),
    ]
}

#[test]
fn empty_scan_yields_no_tags() {
    let files: Vec<ScannedFile> = Vec::new();
    assert_eq!(get_tags(&files, &String::from("#")), Vec::<String>::new());
}

#[test]
fn files_without_tag_lines_contribute_nothing() {
    let files = vec![scanned("a.md", "/d/a.md", "no tags here")];
    assert_eq!(get_tags(&files, &String::from("#")), Vec::<String>::new());
}

#[test]
fn all_tags_are_sorted_and_deduplicated() {
    let files = vec![
        scanned("a.md", "/d/a.md", "`#b #a`"),
        scanned("b.md", "/d/b.md", "`#b`"),
    ];
    assert_eq!(get_tags(&files, &String::from("#")), vec!["a", "b"]);
}

#[test]
fn scenario_docs_all_tags() {
    assert_eq!(get_tags(&docs_scan(), &String::from("#")), vec!["x", "y"]);
}

#[test]
fn scenario_docs_files_with_shared_tag() {
    let root = String::from("/docs");
    let marker = String::from("#");
    let records = get_files_with_tag(&root, &String::from("y"), &marker, &docs_scan());
    assert_eq!(records.len(), 2);
    assert_eq!(records[0].name, "a.md");
    assert_eq!(records[0].local_path, "a.md");
    assert_eq!(records[0].tags, vec!["x", "y"]);
    assert_eq!(records[1].name, "b.md");
    assert_eq!(records[1].local_path, "b.md");
    assert_eq!(records[1].tags, vec!["y"]);
}

#[test]
fn scenario_docs_files_with_single_tag() {
    let root = String::from("/docs");
    let marker = String::from("#");
    let records = get_files_with_tag(&root, &String::from("x"), &marker, &docs_scan());
    assert_eq!(records.len(), 1);
    assert_eq!(records[0].name, "a.md");
    assert_eq!(records[0].tags, vec!["x", "y"]);
}

#[test]
fn listing_twice_yields_identical_output() {
    let marker = String::from("#");
    let first = get_tags(&docs_scan(), &marker);
    let second = get_tags(&docs_scan(), &marker);
    assert_eq!(first, second);
}

#[test]
fn containment_matches_extraction() {
    let root = String::from("/d");
    let marker = String::from("#");
    let tag = String::from("x");
    let files = vec![
        scanned("a.md", "/d/a.md", "`#x #y`"),
        scanned("b.md", "/d/b.md", "`#y`"),
        scanned("c.md", "/d/c.md", "prose"),
        scanned("d.md", "/d/d.md", "`#xx`"),
    ];
    let records = get_files_with_tag(&root, &tag, &marker, &files);
    for f in &files {
        let tags = get_tags_from_line(&marker, &f.first_line);
        let listed = records.iter().any(|r| r.name == f.name);
        assert_eq!(listed, tags.contains(&tag));
    }
}

#[test]
fn tag_match_is_exact_not_substring() {
    let root = String::from("/d");
    let marker = String::from("#");
    let files = vec![scanned("a.md", "/d/a.md", "`#xx`")];
    let records = get_files_with_tag(&root, &String::from("x"), &marker, &files);
    assert!(records.is_empty());
    let records = get_files_with_tag(&root, &String::from("xx"), &marker, &files);
    assert_eq!(records.len(), 1);
}

#[test]
fn local_path_strips_root_and_separator() {
    let root = String::from("/docs");
    let marker = String::from("#");
    let files = vec![scanned("c.md", "/docs/sub/c.md", "`#t`")];
    let records = get_files_with_tag(&root, &String::from("t"), &marker, &files);
    assert_eq!(records[0].local_path, "sub/c.md");
}

#[test]
fn empty_tag_can_be_queried() {
    let root = String::from("/d");
    let marker = String::from("#");
    let files = vec![scanned("a.md", "/d/a.md", "`# `")];
    let records = get_files_with_tag(&root, &String::from(""), &marker, &files);
    assert_eq!(records.len(), 1);
    assert_eq!(records[0].tags, vec!["", ""]);
}
