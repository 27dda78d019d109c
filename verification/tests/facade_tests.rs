use sandbox_fs::manager::attributes_of_item_at_path;
use sandbox_fs::manager::change_current_directory_path;
use sandbox_fs::manager::contents_at_path;
use sandbox_fs::manager::contents_of_directory_at_path;
use sandbox_fs::manager::copy_item_at_path;
use sandbox_fs::manager::create_directory_at_path;
use sandbox_fs::manager::create_directory_legacy;
use sandbox_fs::manager::create_file_at_path;
use sandbox_fs::manager::current_directory_path;
use sandbox_fs::manager::directory_contents_at_path;
use sandbox_fs::manager::file_exists_at_path;
use sandbox_fs::manager::file_exists_at_path_is_directory;
use sandbox_fs::manager::remove_item_at_path;
use sandbox_fs::manager::State;
use sandbox_fs::outcome::Unsupported;
use sandbox_fs::storage::Fs;

#[test]
fn nonexistent_path_does_not_exist() {
    let fs = Fs::new("/a");
    assert!(!file_exists_at_path(&fs, Some("/nonexistent")));
}

#[test]
fn null_path_short_circuits_to_false() {
    let fs = Fs::new("/a");
    assert!(!file_exists_at_path(&fs, None));
    assert_eq!(file_exists_at_path_is_directory(&fs, None), (false, false));
}

#[test]
fn missing_path_reports_not_a_regular_file() {
    let fs = Fs::new("/a");
    // is-directory is NOT(regular file), so a missing path reports (false, true).
    assert_eq!(file_exists_at_path_is_directory(&fs, Some("/missing")), (false, true));
}

#[test]
fn create_directory_with_intermediates_then_exists() {
    let mut fs = Fs::new("/a");
    assert!(file_exists_at_path(&fs, Some("/a")));
    let created = create_directory_at_path(&mut fs, Some("/a/b"), true, false);
    assert_eq!(created, Ok(true));
    assert_eq!(file_exists_at_path_is_directory(&fs, Some("/a/b")), (true, true));
}

#[test]
fn copy_of_missing_source_signals_unsupported_failure() {
    let mut fs = Fs::new("/a");
    assert_eq!(create_directory_at_path(&mut fs, Some("/a/b"), true, false), Ok(true));
    let r = copy_item_at_path(&mut fs, Some("/a/b/f.txt"), Some("/a/c.txt"));
    assert_eq!(r, Err(Unsupported::CopyFailure));
    assert!(!file_exists_at_path(&fs, Some("/a/c.txt")));
}

#[test]
fn create_file_then_exists_and_not_directory() {
    let mut fs = Fs::new("/a");
    let created = create_file_at_path(&mut fs, Some("/a/f.txt"), None, false);
    assert_eq!(created, Ok(true));
    assert!(file_exists_at_path(&fs, Some("/a/f.txt")));
    assert_eq!(file_exists_at_path_is_directory(&fs, Some("/a/f.txt")), (true, false));
    assert_eq!(attributes_of_item_at_path(&fs, Some("/a/f.txt")).file_size, 0);
}

#[test]
fn create_file_does_not_overwrite_an_existing_file() {
    let mut fs = Fs::new("/a");
    let first = create_file_at_path(&mut fs, Some("/a/f.txt"), Some(b"hello".to_vec()), false);
    assert_eq!(first, Ok(true));
    let second = create_file_at_path(&mut fs, Some("/a/f.txt"), Some(b"bye".to_vec()), false);
    assert_eq!(second, Ok(true));
    assert_eq!(contents_at_path(&fs, "/a/f.txt"), Some(b"hello".to_vec()));
}

#[test]
fn create_file_over_a_directory_fails() {
    let mut fs = Fs::new("/a");
    let r = create_file_at_path(&mut fs, Some("/a"), None, false);
    assert_eq!(r, Ok(false));
}

#[test]
fn create_file_with_attributes_is_unsupported() {
    let mut fs = Fs::new("/a");
    let r = create_file_at_path(&mut fs, Some("/a/f.txt"), None, true);
    assert_eq!(r, Err(Unsupported::Attributes));
    assert!(!file_exists_at_path(&fs, Some("/a/f.txt")));
}

#[test]
fn create_directory_without_intermediates_is_unsupported() {
    let mut fs = Fs::new("/a");
    let r = create_directory_at_path(&mut fs, Some("/a/b"), false, false);
    assert_eq!(r, Err(Unsupported::Intermediates));
}

#[test]
fn legacy_create_directory_shape_creates_the_same_directory() {
    let mut fs = Fs::new("/a");
    let r = create_directory_legacy(&mut fs, false, true, Some("/a/legacy"));
    assert_eq!(r, Ok(true));
    assert_eq!(file_exists_at_path_is_directory(&fs, Some("/a/legacy")), (true, true));
}

#[test]
fn remove_file_then_gone() {
    let mut fs = Fs::new("/a");
    assert_eq!(create_file_at_path(&mut fs, Some("/a/f.txt"), None, false), Ok(true));
    assert_eq!(remove_item_at_path(&mut fs, Some("/a/f.txt"), false), Ok(true));
    assert!(!file_exists_at_path(&fs, Some("/a/f.txt")));
}

#[test]
fn remove_failure_without_error_out_parameter_is_false() {
    let mut fs = Fs::new("/a");
    assert_eq!(remove_item_at_path(&mut fs, Some("/a/missing"), false), Ok(false));
}

#[test]
fn remove_failure_with_error_out_parameter_is_unsupported() {
    let mut fs = Fs::new("/a");
    let r = remove_item_at_path(&mut fs, Some("/a/missing"), true);
    assert_eq!(r, Err(Unsupported::ErrorObject));
}

#[test]
fn remove_of_nonempty_directory_fails() {
    let mut fs = Fs::new("/a");
    assert_eq!(create_file_at_path(&mut fs, Some("/a/f.txt"), None, false), Ok(true));
    assert_eq!(remove_item_at_path(&mut fs, Some("/a"), false), Ok(false));
    assert!(file_exists_at_path(&fs, Some("/a/f.txt")));
}

#[test]
fn copy_file_copies_the_bytes() {
    let mut fs = Fs::new("/a");
    assert_eq!(
        create_file_at_path(&mut fs, Some("/a/src.txt"), Some(b"payload".to_vec()), false),
        Ok(true)
    );
    assert_eq!(copy_item_at_path(&mut fs, Some("/a/src.txt"), Some("/a/dst.txt")), Ok(true));
    assert_eq!(contents_at_path(&fs, "/a/dst.txt"), Some(b"payload".to_vec()));
    assert_eq!(contents_at_path(&fs, "/a/src.txt"), Some(b"payload".to_vec()));
}

#[test]
fn attributes_report_the_file_size() {
    let mut fs = Fs::new("/a");
    assert_eq!(
        create_file_at_path(&mut fs, Some("/a/f.txt"), Some(b"12345".to_vec()), false),
        Ok(true)
    );
    assert_eq!(attributes_of_item_at_path(&fs, Some("/a/f.txt")).file_size, 5);
}

#[test]
fn attributes_of_missing_item_report_size_zero() {
    let fs = Fs::new("/a");
    assert_eq!(attributes_of_item_at_path(&fs, Some("/a/missing")).file_size, 0);
    assert_eq!(attributes_of_item_at_path(&fs, None).file_size, 0);
}

#[test]
fn working_directory_starts_at_the_root_and_can_move() {
    let mut fs = Fs::new("/a");
    assert_eq!(current_directory_path(&fs), "/");
    assert!(change_current_directory_path(&mut fs, Some("/a")));
    assert_eq!(current_directory_path(&fs), "/a");
    assert_eq!(create_file_at_path(&mut fs, Some("rel.txt"), None, false), Ok(true));
    assert!(file_exists_at_path(&fs, Some("/a/rel.txt")));
}

#[test]
fn change_to_missing_or_file_directory_fails_silently() {
    let mut fs = Fs::new("/a");
    assert!(!change_current_directory_path(&mut fs, Some("/missing")));
    assert_eq!(create_file_at_path(&mut fs, Some("/a/f.txt"), None, false), Ok(true));
    assert!(!change_current_directory_path(&mut fs, Some("/a/f.txt")));
    assert!(!change_current_directory_path(&mut fs, None));
    assert_eq!(current_directory_path(&fs), "/");
}

#[test]
fn parent_segments_cannot_escape_the_sandbox() {
    let mut fs = Fs::new("/a");
    assert_eq!(
        create_file_at_path(&mut fs, Some("/../../escape.txt"), None, false),
        Ok(true)
    );
    // The escape was clamped at the sandbox root.
    assert!(file_exists_at_path(&fs, Some("/escape.txt")));
}

#[test]
fn directory_contents_list_each_child_once() {
    let mut fs = Fs::new("/a");
    assert_eq!(create_file_at_path(&mut fs, Some("/a/x.txt"), None, false), Ok(true));
    assert_eq!(create_file_at_path(&mut fs, Some("/a/y.txt"), None, false), Ok(true));
    let names = directory_contents_at_path(&fs, Some("/a")).unwrap();
    assert_eq!(names.len(), 2);
    assert!(names.contains(&"x.txt".to_string()));
    assert!(names.contains(&"y.txt".to_string()));
}

#[test]
fn directory_contents_of_missing_directory_is_the_sentinel() {
    let fs = Fs::new("/a");
    assert_eq!(directory_contents_at_path(&fs, Some("/missing")), None);
    assert_eq!(directory_contents_at_path(&fs, None), None);
}

#[test]
fn contents_of_directory_with_error_requested_signals_unsupported() {
    let fs = Fs::new("/a");
    let r = contents_of_directory_at_path(&fs, Some("/missing"), true);
    assert_eq!(r, Err(Unsupported::ErrorObject));
    let quiet = contents_of_directory_at_path(&fs, Some("/missing"), false);
    assert_eq!(quiet, Ok(None));
}

#[test]
fn removing_the_working_directory_fails() {
    let mut fs = Fs::new("/a");
    assert!(change_current_directory_path(&mut fs, Some("/a")));
    assert_eq!(remove_item_at_path(&mut fs, Some("/a"), false), Ok(false));
    assert!(file_exists_at_path(&fs, Some("/a")));
}

#[test]
fn creating_a_directory_over_a_file_fails() {
    let mut fs = Fs::new("/a");
    assert_eq!(create_file_at_path(&mut fs, Some("/a/f"), None, false), Ok(true));
    assert_eq!(create_directory_at_path(&mut fs, Some("/a/f/sub"), true, false), Ok(false));
    assert_eq!(create_directory_at_path(&mut fs, Some("/a/f"), true, false), Ok(false));
    // Creating a directory that already exists succeeds (intermediates semantics).
    assert_eq!(create_directory_at_path(&mut fs, Some("/a"), true, false), Ok(true));
}

#[test]
fn default_manager_is_created_once_and_reused() {
    let mut state = State::new();
    let first = state.default_manager(7);
    let second = state.default_manager(9);
    assert_eq!(first, 7);
    assert_eq!(second, first);
}

#[test]
fn default_state_holds_no_instance() {
    let mut state = State::default();
    assert_eq!(state.default_manager(42), 42);
}
