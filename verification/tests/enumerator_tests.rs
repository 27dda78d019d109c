use sandbox_fs::manager::create_file_at_path;
use sandbox_fs::manager::enumerator_at_path;
use sandbox_fs::path::path_to_string;
use sandbox_fs::storage::Fs;

#[test]
fn enumerator_hands_out_exactly_n_entries_then_the_sentinel() {
    let mut fs = Fs::new("/a");
    assert_eq!(create_file_at_path(&mut fs, Some("/a/one"), None, false), Ok(true));
    assert_eq!(create_file_at_path(&mut fs, Some("/a/two"), None, false), Ok(true));
    assert_eq!(create_file_at_path(&mut fs, Some("/a/three"), None, false), Ok(true));
    let mut e = enumerator_at_path(&fs, Some("/a")).unwrap();
    let mut yielded: Vec<String> = Vec::new();
    for _ in 0..3 {
        let item = e.next_object().unwrap();
        assert!(!item.absolute);
        yielded.push(path_to_string(&item));
    }
    assert_eq!(yielded.len(), 3);
    assert!(yielded.contains(&"one".to_string()));
    assert!(yielded.contains(&"two".to_string()));
    assert!(yielded.contains(&"three".to_string()));
    // The fourth and every later pull yield the terminal sentinel.
    assert!(e.next_object().is_none());
    assert!(e.next_object().is_none());
}

#[test]
fn enumeration_is_recursive_over_the_subtree() {
    let mut fs = Fs::new("/a");
    assert_eq!(create_file_at_path(&mut fs, Some("/a/sub/f"), None, false), Ok(false));
    assert_eq!(
        sandbox_fs::manager::create_directory_at_path(&mut fs, Some("/a/sub"), true, false),
        Ok(true)
    );
    assert_eq!(create_file_at_path(&mut fs, Some("/a/sub/f"), None, false), Ok(true));
    let mut e = enumerator_at_path(&fs, Some("/a")).unwrap();
    let mut yielded: Vec<String> = Vec::new();
    while let Some(item) = e.next_object() {
        yielded.push(path_to_string(&item));
    }
    assert_eq!(yielded.len(), 2);
    assert!(yielded.contains(&"sub".to_string()));
    assert!(yielded.contains(&"sub/f".to_string()));
}

#[test]
fn enumerator_snapshot_ignores_later_additions() {
    let mut fs = Fs::new("/a");
    assert_eq!(create_file_at_path(&mut fs, Some("/a/before"), None, false), Ok(true));
    let mut e = enumerator_at_path(&fs, Some("/a")).unwrap();
    assert_eq!(create_file_at_path(&mut fs, Some("/a/after"), None, false), Ok(true));
    let mut yielded: Vec<String> = Vec::new();
    while let Some(item) = e.next_object() {
        yielded.push(path_to_string(&item));
    }
    assert_eq!(yielded, vec!["before".to_string()]);
    // A fresh enumeration does observe the addition.
    let mut e2 = enumerator_at_path(&fs, Some("/a")).unwrap();
    let mut later: Vec<String> = Vec::new();
    while let Some(item) = e2.next_object() {
        later.push(path_to_string(&item));
    }
    assert_eq!(later.len(), 2);
    assert!(later.contains(&"after".to_string()));
}

#[test]
fn enumerator_of_missing_directory_is_the_sentinel() {
    let fs = Fs::new("/a");
    assert!(enumerator_at_path(&fs, Some("/missing")).is_none());
    assert!(enumerator_at_path(&fs, None).is_none());
}
