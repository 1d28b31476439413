use mdview_core::entry::FileEntry;
use mdview_core::entry::RawEntry;
use mdview_core::listing::list_entries;

fn raw(name: &str, is_dir: bool) -> RawEntry {
    RawEntry {
        name: name.to_string(),
        path: format!("/base/{name}"),
        is_dir,
    }
}

fn names(entries: &[FileEntry]) -> Vec<String> {
    entries.iter().map(|e| e.name.clone()).collect()
}

#[test]
fn sort_order_scenario() {
    let snapshot = vec![
        raw("b.md", false),
        raw("A", true),
        raw("c.txt", false),
        raw("a.png", false),
        raw(".hidden", false),
    ];
    let listed = list_entries(snapshot);
    assert_eq!(names(&listed), vec!["A", "b.md", "c.txt", "a.png"]);
    assert!(listed[0].is_dir);
    assert!(!listed[0].is_md);
    assert!(listed[1].is_md);
    assert!(listed[2].is_md);
    assert!(!listed[3].is_md);
}

#[test]
fn hidden_entries_never_listed() {
    let snapshot = vec![
        raw(".git", true),
        raw(".config", false),
        raw("visible.md", false),
        raw(".hidden.md", false),
    ];
    let listed = list_entries(snapshot);
    assert_eq!(names(&listed), vec!["visible.md"]);
    for e in &listed {
        assert!(!e.name.starts_with('.'));
    }
}

#[test]
fn empty_snapshot_lists_empty() {
    let listed = list_entries(Vec::new());
    assert!(listed.is_empty());
}

#[test]
fn names_compare_case_insensitively() {
    let snapshot = vec![raw("b.md", false), raw("C.md", false), raw("A.md", false)];
    let listed = list_entries(snapshot);
    assert_eq!(names(&listed), vec!["A.md", "b.md", "C.md"]);
}

#[test]
fn equal_keys_keep_scan_order() {
    let mut first = raw("a.md", false);
    first.path = "/base/one/a.md".to_string();
    let mut second = raw("A.md", false);
    second.path = "/base/two/A.md".to_string();
    let listed = list_entries(vec![first, second]);
    assert_eq!(names(&listed), vec!["a.md", "A.md"]);
    assert_eq!(listed[0].path, "/base/one/a.md");
    assert_eq!(listed[1].path, "/base/two/A.md");
}

#[test]
fn directories_precede_markdown_and_others() {
    let snapshot = vec![
        raw("z.png", false),
        raw("y.md", false),
        raw("x", true),
        raw("w.markdown", false),
        raw("v", false),
    ];
    let listed = list_entries(snapshot);
    assert_eq!(names(&listed), vec!["x", "w.markdown", "y.md", "v", "z.png"]);
}

#[test]
fn directory_with_markdown_name_ranks_as_directory() {
    let snapshot = vec![raw("a", true), raw("notes.md", true), raw("b.md", false)];
    let listed = list_entries(snapshot);
    assert_eq!(names(&listed), vec!["a", "notes.md", "b.md"]);
    assert!(listed[1].is_dir);
    assert!(!listed[1].is_md);
}

#[test]
fn listing_keeps_paths_and_flags() {
    let snapshot = vec![raw("docs", true), raw("README.MD", false)];
    let listed = list_entries(snapshot);
    assert_eq!(listed.len(), 2);
    assert_eq!(listed[0].name, "docs");
    assert_eq!(listed[0].path, "/base/docs");
    assert!(listed[0].is_dir);
    assert_eq!(listed[1].name, "README.MD");
    assert_eq!(listed[1].path, "/base/README.MD");
    assert!(!listed[1].is_dir);
    assert!(listed[1].is_md);
}
