use dots::config::Config;
use dots::queue::{WorkQueue, WorkerBuffer};
use dots::scan::{scan, scan_complete, walk_dir, DirTree, EntryInfo, EntryKind, SymlinkInfo};

fn test_config() -> Config {
    Config {
        default_subdir: b"common".to_vec(),
        files_path: b"/files".to_vec(),
        list_paths: vec![b"/".to_vec()],
        ignore_paths: vec![b"/skip".to_vec()],
        root: false,
    }
}

fn home() -> Vec<u8> {
    b"/home/u".to_vec()
}

fn hostname() -> Vec<u8> {
    b"myhost".to_vec()
}

fn link(path: &[u8], target: &[u8]) -> SymlinkInfo {
    SymlinkInfo { path: path.to_vec(), target: target.to_vec() }
}

/// A root with one managed symlink, one unrelated symlink, an ignored
/// subtree holding a managed symlink, and a nested subtree with another
/// managed symlink.
fn sample_tree() -> DirTree {
    DirTree {
        path: b"/".to_vec(),
        symlinks: vec![
            link(b"/a/b", b"/files/common/a/b"),
            link(b"/odd", b"/somewhere/else"),
        ],
        subdirs: vec![
            DirTree {
                path: b"/skip".to_vec(),
                symlinks: vec![link(b"/hidden", b"/files/common/hidden")],
                subdirs: vec![],
            },
            DirTree {
                path: b"/deep".to_vec(),
                symlinks: vec![],
                subdirs: vec![DirTree {
                    path: b"/deep/er".to_vec(),
                    symlinks: vec![link(b"/z", b"/files/myhost/z")],
                    subdirs: vec![],
                }],
            },
        ],
    }
}

fn run_scan(workers: usize) -> Vec<Vec<u8>> {
    let mut out = scan(vec![sample_tree()], workers, &test_config(), &home(), &hostname());
    out.sort();
    out
}

#[test]
fn scan_reports_managed_links_and_skips_ignored() {
    let out = run_scan(1);
    assert_eq!(out, vec![b"/a/b".to_vec(), b"{hostname}/z".to_vec()]);
}

#[test]
fn scan_output_is_independent_of_worker_count() {
    // The same tree scanned with one worker and with several yields the
    // same set of reports.
    let one = run_scan(1);
    let four = run_scan(4);
    let twelve = run_scan(12);
    assert_eq!(one, four);
    assert_eq!(one, twelve);
}

#[test]
fn scan_of_tree_without_managed_links_is_silent() {
    // Completeness of silence: no symlink points into the store, so the
    // scan terminates with no output.
    let tree = DirTree {
        path: b"/".to_vec(),
        symlinks: vec![link(b"/odd", b"/elsewhere/x")],
        subdirs: vec![DirTree {
            path: b"/sub".to_vec(),
            symlinks: vec![],
            subdirs: vec![],
        }],
    };
    let out = scan(vec![tree], 3, &test_config(), &home(), &hostname());
    assert!(out.is_empty());
}

#[test]
fn scan_handles_multiple_roots() {
    let roots = vec![
        DirTree {
            path: b"/etc".to_vec(),
            symlinks: vec![link(b"/a/b", b"/files/common/a/b")],
            subdirs: vec![],
        },
        DirTree {
            path: b"/opt".to_vec(),
            symlinks: vec![link(b"/c/d", b"/files/common/c/d")],
            subdirs: vec![],
        },
    ];
    let mut out = scan(roots, 2, &test_config(), &home(), &hostname());
    out.sort();
    assert_eq!(out, vec![b"/a/b".to_vec(), b"/c/d".to_vec()]);
}

#[test]
fn scan_of_empty_forest_is_silent() {
    let out = scan(vec![], 2, &test_config(), &home(), &hostname());
    assert!(out.is_empty());
}

#[test]
fn symlink_directly_under_ignored_dir_is_never_reported() {
    let tree = DirTree {
        path: b"/".to_vec(),
        symlinks: vec![],
        subdirs: vec![DirTree {
            path: b"/skip".to_vec(),
            symlinks: vec![link(b"/a/b", b"/files/common/a/b")],
            subdirs: vec![],
        }],
    };
    let out = scan(vec![tree], 2, &test_config(), &home(), &hostname());
    assert!(out.is_empty());
}

#[test]
fn walk_dir_classifies_and_filters() {
    let entries = vec![
        EntryInfo { path: b"/a/b".to_vec(), kind: EntryKind::Symlink(b"/files/common/a/b".to_vec()) },
        EntryInfo { path: b"/plain".to_vec(), kind: EntryKind::Other },
        EntryInfo { path: b"/skip".to_vec(), kind: EntryKind::Dir },
        EntryInfo { path: b"/go".to_vec(), kind: EntryKind::Dir },
        EntryInfo { path: b"/odd".to_vec(), kind: EntryKind::Symlink(b"/elsewhere".to_vec()) },
    ];
    let (reports, subdirs) = walk_dir(&entries, &test_config(), &home(), &hostname());
    assert_eq!(reports, vec![b"/a/b".to_vec()]);
    assert_eq!(subdirs, vec![b"/go".to_vec()]);
}

#[test]
fn queue_pop_is_lifo() {
    let mut q: WorkQueue<u64> = WorkQueue::new(2);
    q.push(0, 1);
    q.push(0, 2);
    q.push(1, 9);
    assert_eq!(q.pop(0), Some(2));
    assert_eq!(q.pop(0), Some(1));
    assert_eq!(q.pop(0), None);
    assert_eq!(q.pop(1), Some(9));
}

#[test]
fn steal_prefers_unwaited_buffer() {
    // Buffer 1 is non-empty but waited on; buffer 2 is non-empty with no
    // waiter, so it is the immediate candidate.
    let q = WorkQueue::<u64> {
        bufs: vec![
            WorkerBuffer { items: vec![], waiting: 0 },
            WorkerBuffer { items: vec![10], waiting: 1 },
            WorkerBuffer { items: vec![20], waiting: 0 },
        ],
    };
    assert_eq!(q.steal_target(0), Some(2));
}

#[test]
fn steal_picks_least_contended_buffer() {
    let q = WorkQueue::<u64> {
        bufs: vec![
            WorkerBuffer { items: vec![], waiting: 0 },
            WorkerBuffer { items: vec![10], waiting: 3 },
            WorkerBuffer { items: vec![20], waiting: 2 },
            WorkerBuffer { items: vec![], waiting: 0 },
        ],
    };
    assert_eq!(q.steal_target(0), Some(2));
}

#[test]
fn steal_takes_newest_item_of_donor() {
    let mut q: WorkQueue<u64> = WorkQueue::new(3);
    q.push(1, 5);
    q.push(1, 6);
    assert_eq!(q.steal(0), Some(6));
    assert_eq!(q.steal(0), Some(5));
    assert_eq!(q.steal(0), None);
}

#[test]
fn steal_finds_nothing_among_empty_buffers() {
    let q: WorkQueue<u64> = WorkQueue::new(4);
    assert_eq!(q.steal_target(2), None);
}

#[test]
fn completion_needs_empty_queue_and_no_pending_walk() {
    assert!(scan_complete(0, 0));
    assert!(!scan_complete(1, 0));
    assert!(!scan_complete(0, 3));
    assert!(!scan_complete(2, 3));
}
