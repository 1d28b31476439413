use mdview_core::launch::LaunchPath;

#[test]
fn no_argument_means_no_initial_file() {
    let state = LaunchPath::init(None, false);
    assert_eq!(state.get(), None);
}

#[test]
fn directory_argument_means_no_initial_file() {
    let state = LaunchPath::init(Some("/tmp".to_string()), false);
    assert_eq!(state.get(), None);
}

#[test]
fn regular_file_argument_is_kept() {
    let state = LaunchPath::init(Some("/home/u/notes.md".to_string()), true);
    assert_eq!(state.get(), Some("/home/u/notes.md".to_string()));
}

#[test]
fn query_is_idempotent() {
    let state = LaunchPath::init(Some("/home/u/notes.md".to_string()), true);
    let first = state.get();
    let second = state.get();
    assert_eq!(first, second);
    assert_eq!(second, Some("/home/u/notes.md".to_string()));

    let empty = LaunchPath::init(None, false);
    assert_eq!(empty.get(), None);
    assert_eq!(empty.get(), None);
}
