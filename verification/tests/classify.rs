use mdview_core::entry::classify;
use mdview_core::entry::extension_of;
use mdview_core::entry::is_hidden;
use mdview_core::entry::RawEntry;

fn raw(name: &str, is_dir: bool) -> RawEntry {
    RawEntry {
        name: name.to_string(),
        path: format!("/base/{name}"),
        is_dir,
    }
}

#[test]
fn uppercase_extension_is_markdown_like() {
    let entry = classify(raw("README.MD", false)).unwrap();
    assert!(entry.is_md);
}

#[test]
fn mixed_case_txt_is_markdown_like() {
    let entry = classify(raw("Notes.Txt", false)).unwrap();
    assert!(entry.is_md);
}

#[test]
fn markdown_extension_is_markdown_like() {
    let entry = classify(raw("guide.markdown", false)).unwrap();
    assert!(entry.is_md);
}

#[test]
fn unrecognized_extension_is_not_markdown_like() {
    let entry = classify(raw("photo.png", false)).unwrap();
    assert!(!entry.is_md);
}

#[test]
fn missing_extension_is_not_markdown_like() {
    let entry = classify(raw("Makefile", false)).unwrap();
    assert!(!entry.is_md);
}

#[test]
fn trailing_dot_is_not_markdown_like() {
    let entry = classify(raw("odd.", false)).unwrap();
    assert!(!entry.is_md);
}

#[test]
fn last_extension_decides() {
    let entry = classify(raw("archive.md.gz", false)).unwrap();
    assert!(!entry.is_md);
    let entry = classify(raw("archive.gz.md", false)).unwrap();
    assert!(entry.is_md);
}

#[test]
fn directory_is_not_markdown_like() {
    let entry = classify(raw("notes.md", true)).unwrap();
    assert!(entry.is_dir);
    assert!(!entry.is_md);
}

#[test]
fn hidden_name_classifies_to_nothing() {
    assert!(classify(raw(".hidden", false)).is_none());
    assert!(classify(raw(".git", true)).is_none());
}

#[test]
fn classify_passes_fields_through() {
    let entry = classify(raw("a.md", false)).unwrap();
    assert_eq!(entry.name, "a.md");
    assert_eq!(entry.path, "/base/a.md");
    assert!(!entry.is_dir);
    assert!(entry.is_md);
}

#[test]
fn extension_is_the_part_after_the_last_dot() {
    assert_eq!(extension_of("archive.tar.gz"), Some("gz"));
    assert_eq!(extension_of("a.md"), Some("md"));
    assert_eq!(extension_of("odd."), Some(""));
    assert_eq!(extension_of("Makefile"), None);
    assert_eq!(extension_of(""), None);
}

#[test]
fn hidden_means_leading_dot() {
    assert!(is_hidden(".profile"));
    assert!(!is_hidden("profile"));
    assert!(!is_hidden(""));
    assert!(!is_hidden("a.b"));
}
