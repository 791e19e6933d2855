use dots::compare::{
    compare_chunk, compare_link_targets, compare_metadata, ChunkStep, CompareStep, FileKind,
    MetaInfo, PathDiff,
};
use dots::config::{parse_answer, parse_config, ConfigError};

#[test]
fn parse_full_config() {
    let text = b"files_path = /files\ndefault_subdir = common\nlist_paths = /a, /b\nignore_paths = /a/skip\nroot".to_vec();
    let cfg = parse_config(&text).unwrap();
    assert_eq!(cfg.files_path, b"/files".to_vec());
    assert_eq!(cfg.default_subdir, b"common".to_vec());
    assert_eq!(cfg.list_paths, vec![b"/a".to_vec(), b"/b".to_vec()]);
    assert_eq!(cfg.ignore_paths, vec![b"/a/skip".to_vec()]);
    assert!(cfg.root);
}

#[test]
fn parse_minimal_config() {
    let cfg = parse_config(&b"default_subdir = common".to_vec()).unwrap();
    assert_eq!(cfg.default_subdir, b"common".to_vec());
    assert_eq!(cfg.files_path, b"".to_vec());
    assert!(cfg.list_paths.is_empty());
    assert!(cfg.ignore_paths.is_empty());
    assert!(!cfg.root);
}

#[test]
fn parse_accumulates_list_lines() {
    let text = b"default_subdir = c\nlist_paths = /a\nlist_paths = /b,/c".to_vec();
    let cfg = parse_config(&text).unwrap();
    assert_eq!(cfg.list_paths, vec![b"/a".to_vec(), b"/b".to_vec(), b"/c".to_vec()]);
}

#[test]
fn parse_handles_crlf_lines() {
    let text = b"default_subdir = common\r\nroot\r\n".to_vec();
    let cfg = parse_config(&text).unwrap();
    assert_eq!(cfg.default_subdir, b"common".to_vec());
    assert!(cfg.root);
}

#[test]
fn parse_root_with_equals_sign() {
    let cfg = parse_config(&b"default_subdir = c\nroot = yes".to_vec()).unwrap();
    assert!(cfg.root);
}

#[test]
fn unknown_entry_is_refused() {
    let r = parse_config(&b"bogus = 1".to_vec());
    assert_eq!(r.unwrap_err(), ConfigError::UnknownEntry(b"bogus".to_vec()));
}

#[test]
fn unknown_key_is_refused() {
    let r = parse_config(&b"default_subdir = c\nhello".to_vec());
    assert_eq!(r.unwrap_err(), ConfigError::UnknownKey(b"hello".to_vec()));
}

#[test]
fn blank_line_is_refused() {
    let r = parse_config(&b"default_subdir = c\n\nroot".to_vec());
    assert_eq!(r.unwrap_err(), ConfigError::UnknownKey(b"".to_vec()));
}

#[test]
fn empty_file_is_refused() {
    let r = parse_config(&b"".to_vec());
    assert_eq!(r.unwrap_err(), ConfigError::MissingDefaultSubdir);
}

#[test]
fn missing_default_subdir_is_refused() {
    let r = parse_config(&b"files_path = /files".to_vec());
    assert_eq!(r.unwrap_err(), ConfigError::MissingDefaultSubdir);
}

#[test]
fn empty_default_subdir_is_refused() {
    let r = parse_config(&b"default_subdir =   ".to_vec());
    assert_eq!(r.unwrap_err(), ConfigError::MissingDefaultSubdir);
}

#[test]
fn answers_for_yes() {
    assert_eq!(parse_answer(&b"y".to_vec()), Some(true));
    assert_eq!(parse_answer(&b"Y".to_vec()), Some(true));
    assert_eq!(parse_answer(&b"yes".to_vec()), Some(true));
    assert_eq!(parse_answer(&b"Yes".to_vec()), Some(true));
    assert_eq!(parse_answer(&b"  yes \n".to_vec()), Some(true));
}

#[test]
fn answers_for_no() {
    assert_eq!(parse_answer(&b"n".to_vec()), Some(false));
    assert_eq!(parse_answer(&b"N".to_vec()), Some(false));
    assert_eq!(parse_answer(&b"no".to_vec()), Some(false));
    assert_eq!(parse_answer(&b"No".to_vec()), Some(false));
    assert_eq!(parse_answer(&b"no\n".to_vec()), Some(false));
}

#[test]
fn other_answers_ask_again() {
    assert_eq!(parse_answer(&b"maybe".to_vec()), None);
    assert_eq!(parse_answer(&b"".to_vec()), None);
    assert_eq!(parse_answer(&b"YES".to_vec()), None);
    assert_eq!(parse_answer(&b"nope".to_vec()), None);
}

fn meta(kind: FileKind, len: u64, mode: u32) -> MetaInfo {
    MetaInfo { kind, len, mode }
}

#[test]
fn metadata_file_type_differs_first() {
    let r = compare_metadata(&meta(FileKind::File, 1, 0o644), &meta(FileKind::Dir, 2, 0o755));
    assert_eq!(r, CompareStep::Differs(PathDiff::FileType));
}

#[test]
fn metadata_length_differs_second() {
    let r = compare_metadata(&meta(FileKind::File, 1, 0o644), &meta(FileKind::File, 2, 0o755));
    assert_eq!(r, CompareStep::Differs(PathDiff::Length));
}

#[test]
fn metadata_permissions_differ_third() {
    let r = compare_metadata(&meta(FileKind::File, 1, 0o644), &meta(FileKind::File, 1, 0o755));
    assert_eq!(r, CompareStep::Differs(PathDiff::Permissions));
}

#[test]
fn equal_symlinks_need_their_targets() {
    let r = compare_metadata(&meta(FileKind::Symlink, 4, 0o777), &meta(FileKind::Symlink, 4, 0o777));
    assert_eq!(r, CompareStep::CheckSymlinkTargets);
}

#[test]
fn equal_files_need_their_contents() {
    let r = compare_metadata(&meta(FileKind::File, 4, 0o644), &meta(FileKind::File, 4, 0o644));
    assert_eq!(r, CompareStep::CheckContents);
}

#[test]
fn equal_directories_are_equal() {
    let r = compare_metadata(&meta(FileKind::Dir, 4, 0o755), &meta(FileKind::Dir, 4, 0o755));
    assert_eq!(r, CompareStep::Equal);
}

#[test]
fn link_targets_compare_byte_for_byte() {
    assert_eq!(compare_link_targets(&b"/files/a".to_vec(), &b"/files/a".to_vec()), None);
    assert_eq!(
        compare_link_targets(&b"/files/a".to_vec(), &b"/files/b".to_vec()),
        Some(PathDiff::SymlinkTarget)
    );
}

#[test]
fn chunk_comparison_verdicts() {
    assert_eq!(
        compare_chunk(&b"abc".to_vec(), &b"ab".to_vec()),
        ChunkStep::Differs(PathDiff::ContentLength)
    );
    assert_eq!(compare_chunk(&b"".to_vec(), &b"".to_vec()), ChunkStep::Done);
    assert_eq!(
        compare_chunk(&b"abc".to_vec(), &b"abd".to_vec()),
        ChunkStep::Differs(PathDiff::Content)
    );
    assert_eq!(compare_chunk(&b"abc".to_vec(), &b"abc".to_vec()), ChunkStep::More);
}
