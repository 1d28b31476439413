use mdview_core::messages::listing_failure_message;
use mdview_core::messages::read_failure_message;

#[test]
fn read_failure_embeds_cause() {
    let m = read_failure_message("No such file or directory (os error 2)");
    assert_eq!(m, "Failed to read file: No such file or directory (os error 2)");
    assert!(!m.is_empty());
}

#[test]
fn read_failure_is_nonempty_even_without_cause() {
    let m = read_failure_message("");
    assert_eq!(m, "Failed to read file: ");
    assert!(!m.is_empty());
}

#[test]
fn listing_failure_embeds_cause() {
    let m = listing_failure_message("Not a directory (os error 20)");
    assert_eq!(m, "Failed to read directory: Not a directory (os error 20)");
    assert!(!m.is_empty());
}
