use dots::classify::classify_symlink;
use dots::config::Config;
use dots::paths::{config_path, system_path};

fn test_config() -> Config {
    Config {
        default_subdir: b"common".to_vec(),
        files_path: b"/files".to_vec(),
        list_paths: vec![b"/".to_vec()],
        ignore_paths: vec![],
        root: false,
    }
}

fn home() -> Vec<u8> {
    b"/home/u".to_vec()
}

fn hostname() -> Vec<u8> {
    b"myhost".to_vec()
}

#[test]
fn managed_symlink_under_default_subdir_is_reported() {
    // A symlink at the identifier's system path, pointing at its place in
    // the files store, comes back as the identifier with the default
    // subdirectory elided.
    let r = classify_symlink(
        &b"/a/b".to_vec(),
        &b"/files/common/a/b".to_vec(),
        &test_config(),
        &home(),
        &hostname(),
    );
    assert_eq!(r, Some(b"/a/b".to_vec()));
}

#[test]
fn round_trip_of_identifier() {
    // Resolve an identifier both ways, pretend the symlink exists, and the
    // scan reproduces the identifier verbatim.
    let id = b"/x/y".to_vec();
    let location = system_path(&id, &home()).unwrap();
    let target = config_path(&id, &test_config(), &home(), &hostname());
    let r = classify_symlink(&location, &target, &test_config(), &home(), &hostname());
    assert_eq!(r, Some(id));
}

#[test]
fn hostname_prefix_is_substituted() {
    let r = classify_symlink(
        &b"/z".to_vec(),
        &b"/files/myhost/z".to_vec(),
        &test_config(),
        &home(),
        &hostname(),
    );
    assert_eq!(r, Some(b"{hostname}/z".to_vec()));
}

#[test]
fn home_is_substituted_once_per_occurrence() {
    let r = classify_symlink(
        &b"/home/u/home/u".to_vec(),
        &b"/files/common/home/u/home/u".to_vec(),
        &test_config(),
        &home(),
        &hostname(),
    );
    assert_eq!(r, Some(b"/{home}/{home}".to_vec()));
}

#[test]
fn home_in_middle_is_substituted() {
    let r = classify_symlink(
        &b"/home/u/.bashrc".to_vec(),
        &b"/files/common/home/u/.bashrc".to_vec(),
        &test_config(),
        &home(),
        &hostname(),
    );
    assert_eq!(r, Some(b"/{home}/.bashrc".to_vec()));
}

#[test]
fn unrelated_symlink_into_store_is_rejected() {
    // The target lies under the store, but the recomputed system path is
    // not the symlink's own location.
    let r = classify_symlink(
        &b"/a/b".to_vec(),
        &b"/files/common/x/y".to_vec(),
        &test_config(),
        &home(),
        &hostname(),
    );
    assert_eq!(r, None);
}

#[test]
fn symlink_outside_store_is_rejected() {
    let r = classify_symlink(
        &b"/a/b".to_vec(),
        &b"/elsewhere/common/a/b".to_vec(),
        &test_config(),
        &home(),
        &hostname(),
    );
    assert_eq!(r, None);
}

#[test]
fn store_prefix_must_match_whole_component() {
    // "/filesx" shares the text "/files" but not the component.
    let r = classify_symlink(
        &b"/a/b".to_vec(),
        &b"/filesx/common/a/b".to_vec(),
        &test_config(),
        &home(),
        &hostname(),
    );
    assert_eq!(r, None);
}

#[test]
fn store_path_without_separator_is_rejected() {
    // The target's store path has no slash, so it has no system path and
    // cannot have been created by the tool.
    let r = classify_symlink(
        &b"/a".to_vec(),
        &b"/files/loneentry".to_vec(),
        &test_config(),
        &home(),
        &hostname(),
    );
    assert_eq!(r, None);
}
