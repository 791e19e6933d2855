use dots::config::Config;
use dots::paths::{config_path, system_path, PathError};

fn test_config() -> Config {
    Config {
        default_subdir: b"common".to_vec(),
        files_path: b"/files".to_vec(),
        list_paths: vec![b"/".to_vec()],
        ignore_paths: vec![],
        root: false,
    }
}

fn home() -> Vec<u8> {
    b"/home/u".to_vec()
}

fn hostname() -> Vec<u8> {
    b"myhost".to_vec()
}

#[test]
fn system_path_relative_drops_subdir() {
    let r = system_path(&b"common/a/b".to_vec(), &home()).unwrap();
    assert_eq!(r, b"/a/b".to_vec());
}

#[test]
fn system_path_absolute_is_kept() {
    let r = system_path(&b"/etc/hosts".to_vec(), &home()).unwrap();
    assert_eq!(r, b"/etc/hosts".to_vec());
}

#[test]
fn system_path_substitutes_home() {
    // The placeholder expands to the home directory without its leading
    // slash, and the cut happens at the first slash of the unexpanded text.
    let r = system_path(&b"common/{home}/.bashrc".to_vec(), &home()).unwrap();
    assert_eq!(r, b"/home/u/.bashrc".to_vec());
}

#[test]
fn system_path_substitutes_home_in_absolute() {
    let r = system_path(&b"/{home}/.bashrc".to_vec(), &home()).unwrap();
    assert_eq!(r, b"/home/u/.bashrc".to_vec());
}

#[test]
fn system_path_without_separator_is_an_error() {
    let r = system_path(&b"justonename".to_vec(), &home());
    assert_eq!(r, Err(PathError::NoSeparator));
}

#[test]
fn system_path_empty_is_an_error() {
    let r = system_path(&b"".to_vec(), &home());
    assert_eq!(r, Err(PathError::NoSeparator));
}

#[test]
fn system_path_shrinking_substitution_is_an_error() {
    // "{home}" stands before the first slash and expands to something
    // shorter than itself, so the cut position falls past the end.
    let r = system_path(&b"x{home}x{home}x/y".to_vec(), &b"/u".to_vec());
    assert_eq!(r, Err(PathError::SeparatorPastEnd));
}

#[test]
fn config_path_absolute_gets_default_subdir() {
    let r = config_path(&b"/x/y".to_vec(), &test_config(), &home(), &hostname());
    assert_eq!(r, b"/files/common/x/y".to_vec());
}

#[test]
fn config_path_root_alone() {
    let r = config_path(&b"/".to_vec(), &test_config(), &home(), &hostname());
    assert_eq!(r, b"/files/common".to_vec());
}

#[test]
fn config_path_hostname_placeholder() {
    let r = config_path(&b"{hostname}/conf".to_vec(), &test_config(), &home(), &hostname());
    assert_eq!(r, b"/files/myhost/conf".to_vec());
}

#[test]
fn config_path_home_placeholder() {
    let r = config_path(&b"{home}/rc".to_vec(), &test_config(), &home(), &hostname());
    assert_eq!(r, b"/files/home/u/rc".to_vec());
}

#[test]
fn config_path_absolute_then_home_placeholder() {
    let r = config_path(&b"/{home}/rc".to_vec(), &test_config(), &home(), &hostname());
    assert_eq!(r, b"/files/common/home/u/rc".to_vec());
}

#[test]
fn config_path_plain_relative_is_appended() {
    let r = config_path(&b"other/x".to_vec(), &test_config(), &home(), &hostname());
    assert_eq!(r, b"/files/other/x".to_vec());
}

#[test]
fn config_path_home_not_leading_is_kept() {
    // `{home}` is only a placeholder as a leading component.
    let r = config_path(&b"common/{home}/rc".to_vec(), &test_config(), &home(), &hostname());
    assert_eq!(r, b"/files/common/{home}/rc".to_vec());
}
