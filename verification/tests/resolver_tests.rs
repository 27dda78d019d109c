use sandbox_fs::outcome::Unsupported;
use sandbox_fs::path::parse_path;
use sandbox_fs::path::path_to_string;
use sandbox_fs::path::resolve_against;
use sandbox_fs::resolver::resolve_domain;
use sandbox_fs::resolver::NSHomeDirectory;
use sandbox_fs::resolver::NSSearchPathForDirectoriesInDomains;
use sandbox_fs::resolver::NSTemporaryDirectory;
use sandbox_fs::resolver::NS_APPLICATION_DIRECTORY;
use sandbox_fs::resolver::NS_APPLICATION_SUPPORT_DIRECTORY;
use sandbox_fs::resolver::NS_DOCUMENT_DIRECTORY;
use sandbox_fs::resolver::NS_DOCUMENT_DIRECTORY_ALIAS;
use sandbox_fs::resolver::NS_USER_DOMAIN_MASK;
use sandbox_fs::storage::Fs;

fn home_segments(home: &str) -> Vec<String> {
    let parsed = parse_path(home);
    let base: Vec<String> = Vec::new();
    resolve_against(&base, &parsed)
}

#[test]
fn documents_directory_resolves_under_home() {
    let fs = Fs::new("/home/app");
    let dirs =
        NSSearchPathForDirectoriesInDomains(&fs, NS_DOCUMENT_DIRECTORY, NS_USER_DOMAIN_MASK, true)
            .unwrap();
    assert_eq!(dirs.len(), 1);
    assert_eq!(dirs[0], "/home/app/Documents");
}

#[test]
fn document_alias_resolves_to_same_documents_path() {
    let fs = Fs::new("/home/app");
    let via_alias = NSSearchPathForDirectoriesInDomains(
        &fs,
        NS_DOCUMENT_DIRECTORY_ALIAS,
        NS_USER_DOMAIN_MASK,
        true,
    )
    .unwrap();
    let via_document =
        NSSearchPathForDirectoriesInDomains(&fs, NS_DOCUMENT_DIRECTORY, NS_USER_DOMAIN_MASK, true)
            .unwrap();
    assert_eq!(via_alias, via_document);
}

#[test]
fn application_support_resolves_under_home() {
    let fs = Fs::new("/home/app");
    let dirs = NSSearchPathForDirectoriesInDomains(
        &fs,
        NS_APPLICATION_SUPPORT_DIRECTORY,
        NS_USER_DOMAIN_MASK,
        true,
    )
    .unwrap();
    assert_eq!(dirs, vec!["/home/app/Library/Application Support".to_string()]);
}

#[test]
fn application_directory_is_fixed() {
    let fs = Fs::new("/home/app");
    let dirs = NSSearchPathForDirectoriesInDomains(
        &fs,
        NS_APPLICATION_DIRECTORY,
        NS_USER_DOMAIN_MASK,
        true,
    )
    .unwrap();
    assert_eq!(dirs, vec!["/Applications".to_string()]);
}

#[test]
fn resolution_is_deterministic() {
    let home = home_segments("/home/app");
    let first = resolve_domain(&home, NS_DOCUMENT_DIRECTORY, NS_USER_DOMAIN_MASK, true).unwrap();
    let second = resolve_domain(&home, NS_DOCUMENT_DIRECTORY, NS_USER_DOMAIN_MASK, true).unwrap();
    assert_eq!(first, second);
}

#[test]
fn unsupported_domain_mask_is_a_configuration_error() {
    let home = home_segments("/home/app");
    let r = resolve_domain(&home, NS_DOCUMENT_DIRECTORY, 2, true);
    assert_eq!(r, Err(Unsupported::Configuration));
}

#[test]
fn unexpanded_tilde_is_a_configuration_error() {
    let home = home_segments("/home/app");
    let r = resolve_domain(&home, NS_DOCUMENT_DIRECTORY, NS_USER_DOMAIN_MASK, false);
    assert_eq!(r, Err(Unsupported::Configuration));
}

#[test]
fn unknown_directory_identifier_is_unsupported() {
    let home = home_segments("/home/app");
    let r = resolve_domain(&home, 3, NS_USER_DOMAIN_MASK, true);
    assert_eq!(r, Err(Unsupported::Directory));
}

#[test]
fn home_directory_renders_as_guest_string() {
    let fs = Fs::new("/home/app");
    assert_eq!(NSHomeDirectory(&fs), "/home/app");
}

#[test]
fn temporary_directory_is_tmp_under_home() {
    let fs = Fs::new("/home/app");
    assert_eq!(NSTemporaryDirectory(&fs), "/home/app/tmp");
}

#[test]
fn parse_and_render_round_trip() {
    let p = parse_path("/home//app/");
    assert!(p.absolute);
    assert_eq!(path_to_string(&p), "/home/app");
    let rel = parse_path("a/b");
    assert!(!rel.absolute);
    assert_eq!(path_to_string(&rel), "a/b");
}

#[test]
fn parent_segments_are_clamped_at_the_root() {
    let base: Vec<String> = Vec::new();
    let p = parse_path("/../../etc/secret");
    let resolved = resolve_against(&base, &p);
    assert_eq!(resolved, vec!["etc".to_string(), "secret".to_string()]);
    let q = parse_path("/a/./b/../c");
    let resolved_q = resolve_against(&base, &q);
    assert_eq!(resolved_q, vec!["a".to_string(), "c".to_string()]);
}
