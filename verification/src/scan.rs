//! The scan core: walking directory listings, deciding what to report and
//! what to descend into, and draining a whole directory forest through the
//! work queue until nothing is pending anywhere.

use vstd::prelude::*;

use crate::bytes::{eq_bytes, suffix_from};
use crate::classify::{classify_symlink, spec_classify};
use crate::config::{Config, ConfigV};
use crate::queue::{WorkQueue, WorkerBuffer};
use vstd::multiset::Multiset;
use vstd::seq_lib::lemma_multiset_commutative;

verus! {

/// A symlink found in a directory: where it stands and where it points.
pub struct SymlinkInfo {
    pub path: Vec<u8>,
    pub target: Vec<u8>,
}

/// What one directory entry is, as far as the scan cares.
pub enum EntryKind {
    /// A symlink, with its target.
    Symlink(Vec<u8>),
    /// A directory.
    Dir,
    /// Anything else: a plain file, a socket, an unreadable entry.
    Other,
}

/// One entry of a directory listing.
pub struct EntryInfo {
    pub path: Vec<u8>,
    pub kind: EntryKind,
}

/// A directory with everything below it: the scan's model of a finite
/// filesystem subtree.
pub struct DirTree {
    pub path: Vec<u8>,
    pub symlinks: Vec<SymlinkInfo>,
    pub subdirs: Vec<DirTree>,
}

/// The reports of a run of symlinks, in order.
pub open spec fn link_reports(
    links: Seq<SymlinkInfo>,
    cfg: ConfigV,
    home: Seq<u8>,
    hostname: Seq<u8>,
) -> Seq<Seq<u8>>
    decreases links.len(),
{
    if links.len() == 0 {
        Seq::empty()
    } else {
        (match spec_classify(links[0].path@, links[0].target@, cfg, home, hostname) {
            Some(r) => seq![r],
            None => Seq::empty(),
        }) + link_reports(links.subrange(1, links.len() as int), cfg, home, hostname)
    }
}

/// The reports of a whole subtree: its own symlinks, then everything below,
/// except below ignored directories.
pub open spec fn tree_reports(
    t: DirTree,
    cfg: ConfigV,
    home: Seq<u8>,
    hostname: Seq<u8>,
) -> Seq<Seq<u8>>
    decreases t,
{
    link_reports(t.symlinks@, cfg, home, hostname) + children_reports(
        t.subdirs@,
        cfg,
        home,
        hostname,
    )
}

/// The reports of a run of discovered subdirectories: an ignored one is
/// never entered, so it contributes nothing.
pub open spec fn children_reports(
    ts: Seq<DirTree>,
    cfg: ConfigV,
    home: Seq<u8>,
    hostname: Seq<u8>,
) -> Seq<Seq<u8>>
    decreases ts,
{
    if ts.len() == 0 {
        Seq::empty()
    } else {
        (if cfg.ignore_paths.contains(ts[0].path@) {
            Seq::empty()
        } else {
            tree_reports(ts[0], cfg, home, hostname)
        }) + children_reports(ts.subrange(1, ts.len() as int), cfg, home, hostname)
    }
}

/// The reports of a run of scan roots: a root is always entered, whether or
/// not it is ignored.
pub open spec fn forest_reports(
    ts: Seq<DirTree>,
    cfg: ConfigV,
    home: Seq<u8>,
    hostname: Seq<u8>,
) -> Seq<Seq<u8>>
    decreases ts.len(),
{
    if ts.len() == 0 {
        Seq::empty()
    } else {
        tree_reports(ts[0], cfg, home, hostname) + forest_reports(
            ts.subrange(1, ts.len() as int),
            cfg,
            home,
            hostname,
        )
    }
}

/// How many directories a subtree holds, itself included.
pub open spec fn tree_nodes(t: DirTree) -> nat
    decreases t,
{
    1 + forest_nodes(t.subdirs@)
}

/// How many directories a run of subtrees holds.
pub open spec fn forest_nodes(ts: Seq<DirTree>) -> nat
    decreases ts,
{
    if ts.len() == 0 {
        0nat
    } else {
        tree_nodes(ts[0]) + forest_nodes(ts.subrange(1, ts.len() as int))
    }
}

/// The reports of the decisions that one directory listing gives rise to.
pub open spec fn entries_reports(
    entries: Seq<EntryInfo>,
    cfg: ConfigV,
    home: Seq<u8>,
    hostname: Seq<u8>,
) -> Seq<Seq<u8>>
    decreases entries.len(),
{
    if entries.len() == 0 {
        Seq::empty()
    } else {
        (match entries[0].kind {
            EntryKind::Symlink(target) => match spec_classify(
                entries[0].path@,
                target@,
                cfg,
                home,
                hostname,
            ) {
                Some(r) => seq![r],
                None => Seq::empty(),
            },
            _ => Seq::empty(),
        }) + entries_reports(entries.subrange(1, entries.len() as int), cfg, home, hostname)
    }
}

/// The subdirectories that one directory listing tells the scan to enter:
/// every directory entry that is not ignored, in order.
pub open spec fn entries_subdirs(entries: Seq<EntryInfo>, ignore: Seq<Seq<u8>>) -> Seq<Seq<u8>>
    decreases entries.len(),
{
    if entries.len() == 0 {
        Seq::empty()
    } else {
        (match entries[0].kind {
            EntryKind::Dir => if ignore.contains(entries[0].path@) {
                Seq::empty()
            } else {
                seq![entries[0].path@]
            },
            _ => Seq::empty(),
        }) + entries_subdirs(entries.subrange(1, entries.len() as int), ignore)
    }
}

/// Whether `p` is one of the paths in `v`.
pub fn contains_path(v: &Vec<Vec<u8>>, p: &Vec<u8>) -> (r: bool)
    ensures
        r == v.deep_view().contains(p@),
{
    proof {
        assert(forall|i: int|
            0 <= i < v@.len() ==> #[trigger] v.deep_view()[i] =~= v@[i]@);
    }
    let mut i: usize = 0;
    while i < v.len()
        invariant
            i <= v@.len(),
            forall|j: int| 0 <= j < i ==> v@[j]@ != p@,
            forall|j: int| 0 <= j < v@.len() ==> #[trigger] v.deep_view()[j] == v@[j]@,
        decreases v@.len() - i,
    {
        if eq_bytes(&v[i], p) {
            assert(v.deep_view()[i as int] == p@);
            return true;
        }
        i += 1;
    }
    assert(forall|j: int| 0 <= j < v.deep_view().len() ==> v.deep_view()[j] != p@);
    false
}

/// Reads one directory's listing and decides everything about it: which
/// symlinks to report, and which subdirectories to scan next. Unreadable
/// entries, handed in as `Other`, are skipped.
pub fn walk_dir(
    entries: &Vec<EntryInfo>,
    cfg: &Config,
    home: &Vec<u8>,
    hostname: &Vec<u8>,
) -> (r: (Vec<Vec<u8>>, Vec<Vec<u8>>))
    requires
        home@.len() >= 1,
    ensures
        r.0.deep_view() == entries_reports(entries@, cfg@, home@, hostname@),
        r.1.deep_view() == entries_subdirs(entries@, cfg@.ignore_paths),
{
    let mut reports: Vec<Vec<u8>> = Vec::new();
    let mut subdirs: Vec<Vec<u8>> = Vec::new();
    let mut i: usize = 0;
    proof {
        assert(entries@.skip(0) =~= entries@);
        assert(reports.deep_view() =~= Seq::<Seq<u8>>::empty());
        assert(subdirs.deep_view() =~= Seq::<Seq<u8>>::empty());
    }
    while i < entries.len()
        invariant
            i <= entries@.len(),
            home@.len() >= 1,
            reports.deep_view() + entries_reports(entries@.skip(i as int), cfg@, home@, hostname@)
                == entries_reports(entries@, cfg@, home@, hostname@),
            subdirs.deep_view() + entries_subdirs(entries@.skip(i as int), cfg@.ignore_paths)
                == entries_subdirs(entries@, cfg@.ignore_paths),
        decreases entries@.len() - i,
    {
        let ghost rest = entries@.skip(i as int);
        proof {
            assert(rest[0] == entries@[i as int]);
            assert(rest.subrange(1, rest.len() as int) =~= entries@.skip(i + 1));
        }
        let e = &entries[i];
        match &e.kind {
            EntryKind::Symlink(target) => {
                match classify_symlink(&e.path, target, cfg, home, hostname) {
                    Some(rep) => {
                        let ghost repv = rep@;
                        proof {
                            assert(rep.deep_view() =~= repv);
                        }
                        let ghost old_reports = reports.deep_view();
                        reports.push(rep);
                        proof {
                            assert(reports.deep_view() =~= old_reports.push(repv));
                            assert(old_reports.push(repv) + entries_reports(
                                entries@.skip(i + 1),
                                cfg@,
                                home@,
                                hostname@,
                            ) =~= old_reports + (seq![repv] + entries_reports(
                                entries@.skip(i + 1),
                                cfg@,
                                home@,
                                hostname@,
                            )));
                        }
                    },
                    None => {
                        proof {
                            assert(Seq::<Seq<u8>>::empty() + entries_reports(
                                entries@.skip(i + 1),
                                cfg@,
                                home@,
                                hostname@,
                            ) =~= entries_reports(entries@.skip(i + 1), cfg@, home@, hostname@));
                        }
                    },
                }
                proof {
                    assert(Seq::<Seq<u8>>::empty() + entries_subdirs(
                        entries@.skip(i + 1),
                        cfg@.ignore_paths,
                    ) =~= entries_subdirs(entries@.skip(i + 1), cfg@.ignore_paths));
                }
            },
            EntryKind::Dir => {
                if !contains_path(&cfg.ignore_paths, &e.path) {
                    let ghost old_subdirs = subdirs.deep_view();
                    let p = suffix_from(&e.path, 0);
                    proof {
                        assert(p@ =~= e.path@);
                        assert(p.deep_view() =~= e.path@);
                    }
                    subdirs.push(p);
                    proof {
                        assert(subdirs.deep_view() =~= old_subdirs.push(e.path@));
                        assert(old_subdirs.push(e.path@) + entries_subdirs(
                            entries@.skip(i + 1),
                            cfg@.ignore_paths,
                        ) =~= old_subdirs + (seq![e.path@] + entries_subdirs(
                            entries@.skip(i + 1),
                            cfg@.ignore_paths,
                        )));
                    }
                } else {
                    proof {
                        assert(Seq::<Seq<u8>>::empty() + entries_subdirs(
                            entries@.skip(i + 1),
                            cfg@.ignore_paths,
                        ) =~= entries_subdirs(entries@.skip(i + 1), cfg@.ignore_paths));
                    }
                }
                proof {
                    assert(Seq::<Seq<u8>>::empty() + entries_reports(
                        entries@.skip(i + 1),
                        cfg@,
                        home@,
                        hostname@,
                    ) =~= entries_reports(entries@.skip(i + 1), cfg@, home@, hostname@));
                }
            },
            EntryKind::Other => {
                proof {
                    assert(Seq::<Seq<u8>>::empty() + entries_reports(
                        entries@.skip(i + 1),
                        cfg@,
                        home@,
                        hostname@,
                    ) =~= entries_reports(entries@.skip(i + 1), cfg@, home@, hostname@));
                    assert(Seq::<Seq<u8>>::empty() + entries_subdirs(
                        entries@.skip(i + 1),
                        cfg@.ignore_paths,
                    ) =~= entries_subdirs(entries@.skip(i + 1), cfg@.ignore_paths));
                }
            },
        }
        i += 1;
    }
    proof {
        assert(entries@.skip(entries@.len() as int) =~= Seq::<EntryInfo>::empty());
        assert(reports.deep_view() + Seq::<Seq<u8>>::empty() =~= reports.deep_view());
        assert(subdirs.deep_view() + Seq::<Seq<u8>>::empty() =~= subdirs.deep_view());
    }
    (reports, subdirs)
}

/// The reports still pending in the buffers of a queue of subtrees.
pub open spec fn bufs_reports(
    bs: Seq<WorkerBuffer<DirTree>>,
    cfg: ConfigV,
    home: Seq<u8>,
    hostname: Seq<u8>,
) -> Seq<Seq<u8>>
    decreases bs.len(),
{
    if bs.len() == 0 {
        Seq::empty()
    } else {
        forest_reports(bs[0].items@, cfg, home, hostname) + bufs_reports(
            bs.subrange(1, bs.len() as int),
            cfg,
            home,
            hostname,
        )
    }
}

/// How many directories the buffers of a queue of subtrees still hold.
pub open spec fn bufs_nodes(bs: Seq<WorkerBuffer<DirTree>>) -> nat
    decreases bs.len(),
{
    if bs.len() == 0 {
        0nat
    } else {
        forest_nodes(bs[0].items@) + bufs_nodes(bs.subrange(1, bs.len() as int))
    }
}

/// Reports and node counts of a forest distribute over concatenation.
pub proof fn lemma_forest_concat(
    a: Seq<DirTree>,
    b: Seq<DirTree>,
    cfg: ConfigV,
    home: Seq<u8>,
    hostname: Seq<u8>,
)
    ensures
        forest_reports(a + b, cfg, home, hostname) == forest_reports(a, cfg, home, hostname)
            + forest_reports(b, cfg, home, hostname),
        forest_nodes(a + b) == forest_nodes(a) + forest_nodes(b),
    decreases a.len(),
{
    if a.len() == 0 {
        assert(a + b =~= b);
        assert(Seq::<Seq<u8>>::empty() + forest_reports(b, cfg, home, hostname) =~= forest_reports(
            b,
            cfg,
            home,
            hostname,
        ));
    } else {
        let ab = a + b;
        assert(ab[0] == a[0]);
        assert(ab.subrange(1, ab.len() as int) =~= a.subrange(1, a.len() as int) + b);
        lemma_forest_concat(a.subrange(1, a.len() as int), b, cfg, home, hostname);
        assert(tree_reports(a[0], cfg, home, hostname) + (forest_reports(
            a.subrange(1, a.len() as int),
            cfg,
            home,
            hostname,
        ) + forest_reports(b, cfg, home, hostname)) =~= (tree_reports(a[0], cfg, home, hostname)
            + forest_reports(a.subrange(1, a.len() as int), cfg, home, hostname)) + forest_reports(
            b,
            cfg,
            home,
            hostname,
        ));
    }
}

/// Appending one subtree to a forest appends its reports and its nodes.
pub proof fn lemma_forest_push(
    ts: Seq<DirTree>,
    t: DirTree,
    cfg: ConfigV,
    home: Seq<u8>,
    hostname: Seq<u8>,
)
    ensures
        forest_reports(ts.push(t), cfg, home, hostname) == forest_reports(ts, cfg, home, hostname)
            + tree_reports(t, cfg, home, hostname),
        forest_nodes(ts.push(t)) == forest_nodes(ts) + tree_nodes(t),
{
    assert(ts.push(t) =~= ts + seq![t]);
    lemma_forest_concat(ts, seq![t], cfg, home, hostname);
    assert(seq![t].subrange(1, 1) =~= Seq::<DirTree>::empty());
    assert(forest_reports(Seq::<DirTree>::empty(), cfg, home, hostname)
        == Seq::<Seq<u8>>::empty());
    assert(forest_nodes(Seq::<DirTree>::empty()) == 0);
    assert(tree_reports(t, cfg, home, hostname) + Seq::<Seq<u8>>::empty() =~= tree_reports(
        t,
        cfg,
        home,
        hostname,
    ));
}

/// Appending one discovered subdirectory to a run of children appends its
/// contribution: nothing if it is ignored, its reports otherwise.
pub proof fn lemma_children_push(
    ts: Seq<DirTree>,
    t: DirTree,
    cfg: ConfigV,
    home: Seq<u8>,
    hostname: Seq<u8>,
)
    ensures
        children_reports(ts.push(t), cfg, home, hostname) == children_reports(
            ts,
            cfg,
            home,
            hostname,
        ) + (if cfg.ignore_paths.contains(t.path@) {
            Seq::<Seq<u8>>::empty()
        } else {
            tree_reports(t, cfg, home, hostname)
        }),
    decreases ts.len(),
{
    let head = if cfg.ignore_paths.contains(t.path@) {
        Seq::<Seq<u8>>::empty()
    } else {
        tree_reports(t, cfg, home, hostname)
    };
    if ts.len() == 0 {
        assert(ts.push(t)[0] == t);
        assert(ts.push(t).subrange(1, 1) =~= Seq::<DirTree>::empty());
        assert(children_reports(Seq::<DirTree>::empty(), cfg, home, hostname)
            == Seq::<Seq<u8>>::empty());
        assert(head + Seq::<Seq<u8>>::empty() =~= head);
        assert(Seq::<Seq<u8>>::empty() + head =~= head);
    } else {
        let p = ts.push(t);
        assert(p[0] == ts[0]);
        assert(p.subrange(1, p.len() as int) =~= ts.subrange(1, ts.len() as int).push(t));
        lemma_children_push(ts.subrange(1, ts.len() as int), t, cfg, home, hostname);
        let h0 = if cfg.ignore_paths.contains(ts[0].path@) {
            Seq::<Seq<u8>>::empty()
        } else {
            tree_reports(ts[0], cfg, home, hostname)
        };
        assert(h0 + (children_reports(ts.subrange(1, ts.len() as int), cfg, home, hostname) + head)
            =~= (h0 + children_reports(ts.subrange(1, ts.len() as int), cfg, home, hostname))
            + head);
    }
}

/// Buffer runs whose items agree pairwise pend the same reports and hold
/// the same number of directories.
pub proof fn lemma_bufs_itemwise(
    bs1: Seq<WorkerBuffer<DirTree>>,
    bs2: Seq<WorkerBuffer<DirTree>>,
    cfg: ConfigV,
    home: Seq<u8>,
    hostname: Seq<u8>,
)
    requires
        bs1.len() == bs2.len(),
        forall|k: int| 0 <= k < bs1.len() ==> bs1[k].items@ == bs2[k].items@,
    ensures
        bufs_reports(bs1, cfg, home, hostname) == bufs_reports(bs2, cfg, home, hostname),
        bufs_nodes(bs1) == bufs_nodes(bs2),
    decreases bs1.len(),
{
    if bs1.len() > 0 {
        let t1 = bs1.subrange(1, bs1.len() as int);
        let t2 = bs2.subrange(1, bs2.len() as int);
        assert(forall|k: int| 0 <= k < t1.len() ==> t1[k].items@ == t2[k].items@) by {
            assert(forall|k: int|
                0 <= k < t1.len() ==> t1[k] == bs1[k + 1] && t2[k] == bs2[k + 1]);
        }
        lemma_bufs_itemwise(t1, t2, cfg, home, hostname);
    }
}

/// Pushing one subtree into one buffer adds exactly its reports, as a
/// multiset, and exactly its directories to the pending count.
pub proof fn lemma_bufs_push_effect(
    bs1: Seq<WorkerBuffer<DirTree>>,
    bs2: Seq<WorkerBuffer<DirTree>>,
    j: int,
    t: DirTree,
    cfg: ConfigV,
    home: Seq<u8>,
    hostname: Seq<u8>,
)
    requires
        bs1.len() == bs2.len(),
        0 <= j < bs1.len(),
        forall|k: int| 0 <= k < bs1.len() && k != j ==> bs1[k].items@ == bs2[k].items@,
        bs2[j].items@ == bs1[j].items@.push(t),
    ensures
        bufs_reports(bs2, cfg, home, hostname).to_multiset() == bufs_reports(
            bs1,
            cfg,
            home,
            hostname,
        ).to_multiset().add(tree_reports(t, cfg, home, hostname).to_multiset()),
        bufs_nodes(bs2) == bufs_nodes(bs1) + tree_nodes(t),
    decreases bs1.len(),
{
    let tr = tree_reports(t, cfg, home, hostname);
    let t1 = bs1.subrange(1, bs1.len() as int);
    let t2 = bs2.subrange(1, bs2.len() as int);
    let h1 = forest_reports(bs1[0].items@, cfg, home, hostname);
    let h2 = forest_reports(bs2[0].items@, cfg, home, hostname);
    lemma_multiset_commutative(h1, bufs_reports(t1, cfg, home, hostname));
    lemma_multiset_commutative(h2, bufs_reports(t2, cfg, home, hostname));
    if j == 0 {
        lemma_forest_push(bs1[0].items@, t, cfg, home, hostname);
        lemma_multiset_commutative(h1, tr);
        assert(forall|k: int| 0 <= k < t1.len() ==> t1[k].items@ == t2[k].items@) by {
            assert(forall|k: int|
                0 <= k < t1.len() ==> t1[k] == bs1[k + 1] && t2[k] == bs2[k + 1]);
        }
        lemma_bufs_itemwise(t1, t2, cfg, home, hostname);
        assert(h2.to_multiset() == h1.to_multiset().add(tr.to_multiset()));
        assert(h1.to_multiset().add(tr.to_multiset()).add(
            bufs_reports(t1, cfg, home, hostname).to_multiset(),
        ) =~= h1.to_multiset().add(bufs_reports(t1, cfg, home, hostname).to_multiset()).add(
            tr.to_multiset(),
        ));
    } else {
        assert(bs1[0].items@ == bs2[0].items@);
        assert(forall|k: int|
            0 <= k < t1.len() && k != j - 1 ==> t1[k].items@ == t2[k].items@) by {
            assert(forall|k: int|
                0 <= k < t1.len() ==> t1[k] == bs1[k + 1] && t2[k] == bs2[k + 1]);
        }
        assert(t1[j - 1] == bs1[j] && t2[j - 1] == bs2[j]);
        lemma_bufs_push_effect(t1, t2, j - 1, t, cfg, home, hostname);
        assert(h1.to_multiset().add(
            bufs_reports(t1, cfg, home, hostname).to_multiset().add(tr.to_multiset()),
        ) =~= h1.to_multiset().add(bufs_reports(t1, cfg, home, hostname).to_multiset()).add(
            tr.to_multiset(),
        ));
    }
}

/// A queue whose buffers are all empty pends nothing.
pub proof fn lemma_bufs_empty(
    bs: Seq<WorkerBuffer<DirTree>>,
    cfg: ConfigV,
    home: Seq<u8>,
    hostname: Seq<u8>,
)
    requires
        forall|k: int| 0 <= k < bs.len() ==> bs[k].items@.len() == 0,
    ensures
        bufs_reports(bs, cfg, home, hostname) == Seq::<Seq<u8>>::empty(),
        bufs_nodes(bs) == 0,
    decreases bs.len(),
{
    if bs.len() > 0 {
        let t = bs.subrange(1, bs.len() as int);
        assert(forall|k: int| 0 <= k < t.len() ==> t[k] == bs[k + 1]);
        lemma_bufs_empty(t, cfg, home, hostname);
        assert(Seq::<Seq<u8>>::empty() + Seq::<Seq<u8>>::empty() =~= Seq::<Seq<u8>>::empty());
    }
}

/// Adding the reports of nothing changes nothing.
proof fn lemma_add_empty_reports(m: Multiset<Seq<u8>>)
    ensures
        m.add(Seq::<Seq<u8>>::empty().to_multiset()) == m,
{
    vstd::seq_lib::to_multiset_len(Seq::<Seq<u8>>::empty());
    assert(m.add(Seq::<Seq<u8>>::empty().to_multiset()) =~= m);
}

/// Takes one directory of the model apart: the reports of its own symlinks,
/// and the subdirectories the scan must still enter, every ignored one
/// dropped.
fn process_tree(t: DirTree, cfg: &Config, home: &Vec<u8>, hostname: &Vec<u8>) -> (r: (
    Vec<Vec<u8>>,
    Vec<DirTree>,
))
    requires
        home@.len() >= 1,
    ensures
        r.0.deep_view() == link_reports(t.symlinks@, cfg@, home@, hostname@),
        forest_reports(r.1@, cfg@, home@, hostname@).to_multiset() == children_reports(
            t.subdirs@,
            cfg@,
            home@,
            hostname@,
        ).to_multiset(),
        forest_nodes(r.1@) <= forest_nodes(t.subdirs@),
{
    let ghost t0 = t;
    let DirTree { path: _, symlinks, subdirs } = t;
    let mut subs = subdirs;
    proof {
        assert(symlinks@ == t0.symlinks@);
        assert(subs@ == t0.subdirs@);
    }
    let mut found: Vec<Vec<u8>> = Vec::new();
    let mut i: usize = 0;
    proof {
        assert(symlinks@.skip(0) =~= symlinks@);
        assert(found.deep_view() =~= Seq::<Seq<u8>>::empty());
    }
    while i < symlinks.len()
        invariant
            i <= symlinks@.len(),
            home@.len() >= 1,
            found.deep_view() + link_reports(symlinks@.skip(i as int), cfg@, home@, hostname@)
                == link_reports(symlinks@, cfg@, home@, hostname@),
        decreases symlinks@.len() - i,
    {
        let ghost rest = symlinks@.skip(i as int);
        proof {
            assert(rest[0] == symlinks@[i as int]);
            assert(rest.subrange(1, rest.len() as int) =~= symlinks@.skip(i + 1));
        }
        let s = &symlinks[i];
        match classify_symlink(&s.path, &s.target, cfg, home, hostname) {
            Some(rep) => {
                let ghost repv = rep@;
                proof {
                    assert(rep.deep_view() =~= repv);
                }
                let ghost old_found = found.deep_view();
                found.push(rep);
                proof {
                    assert(found.deep_view() =~= old_found.push(repv));
                    assert(old_found.push(repv) + link_reports(
                        symlinks@.skip(i + 1),
                        cfg@,
                        home@,
                        hostname@,
                    ) =~= old_found + (seq![repv] + link_reports(
                        symlinks@.skip(i + 1),
                        cfg@,
                        home@,
                        hostname@,
                    )));
                }
            },
            None => {
                proof {
                    assert(Seq::<Seq<u8>>::empty() + link_reports(
                        symlinks@.skip(i + 1),
                        cfg@,
                        home@,
                        hostname@,
                    ) =~= link_reports(symlinks@.skip(i + 1), cfg@, home@, hostname@));
                }
            },
        }
        i += 1;
    }
    proof {
        assert(symlinks@.skip(symlinks@.len() as int) =~= Seq::<SymlinkInfo>::empty());
        assert(found.deep_view() + Seq::<Seq<u8>>::empty() =~= found.deep_view());
    }
    let mut kept: Vec<DirTree> = Vec::new();
    proof {
        assert(kept@ =~= Seq::<DirTree>::empty());
        assert(forest_reports(kept@, cfg@, home@, hostname@) == Seq::<Seq<u8>>::empty());
        assert(forest_nodes(kept@) == 0);
        lemma_add_empty_reports(
            children_reports(t0.subdirs@, cfg@, home@, hostname@).to_multiset(),
        );
        assert(children_reports(subs@, cfg@, home@, hostname@).to_multiset().add(
            forest_reports(kept@, cfg@, home@, hostname@).to_multiset(),
        ) == children_reports(t0.subdirs@, cfg@, home@, hostname@).to_multiset());
    }
    while subs.len() > 0
        invariant
            children_reports(subs@, cfg@, home@, hostname@).to_multiset().add(
                forest_reports(kept@, cfg@, home@, hostname@).to_multiset(),
            ) == children_reports(t0.subdirs@, cfg@, home@, hostname@).to_multiset(),
            forest_nodes(kept@) + forest_nodes(subs@) <= forest_nodes(t0.subdirs@),
        decreases subs@.len(),
    {
        let ghost pre_subs = subs@;
        if let Some(sub) = subs.pop() {
            let ghost subg = sub;
            let ghost head = if cfg@.ignore_paths.contains(subg.path@) {
                Seq::<Seq<u8>>::empty()
            } else {
                tree_reports(subg, cfg@, home@, hostname@)
            };
            proof {
                assert(pre_subs =~= subs@.push(subg));
                lemma_children_push(subs@, subg, cfg@, home@, hostname@);
                lemma_multiset_commutative(
                    children_reports(subs@, cfg@, home@, hostname@),
                    head,
                );
                lemma_forest_push(subs@, subg, cfg@, home@, hostname@);
            }
            if !contains_path(&cfg.ignore_paths, &sub.path) {
                let ghost pre_kept = kept@;
                kept.push(sub);
                proof {
                    assert(kept@ =~= pre_kept.push(subg));
                    lemma_forest_push(pre_kept, subg, cfg@, home@, hostname@);
                    lemma_multiset_commutative(
                        forest_reports(pre_kept, cfg@, home@, hostname@),
                        tree_reports(subg, cfg@, home@, hostname@),
                    );
                    assert(children_reports(subs@, cfg@, home@, hostname@).to_multiset().add(
                        forest_reports(kept@, cfg@, home@, hostname@).to_multiset(),
                    ) =~= children_reports(pre_subs, cfg@, home@, hostname@).to_multiset().add(
                        forest_reports(pre_kept, cfg@, home@, hostname@).to_multiset(),
                    ));
                }
            } else {
                proof {
                    lemma_add_empty_reports(
                        children_reports(subs@, cfg@, home@, hostname@).to_multiset(),
                    );
                    assert(children_reports(subs@, cfg@, home@, hostname@).to_multiset().add(
                        forest_reports(kept@, cfg@, home@, hostname@).to_multiset(),
                    ) =~= children_reports(pre_subs, cfg@, home@, hostname@).to_multiset().add(
                        forest_reports(kept@, cfg@, home@, hostname@).to_multiset(),
                    ));
                }
            }
        }
    }
    proof {
        assert(subs@ =~= Seq::<DirTree>::empty());
        assert(children_reports(Seq::<DirTree>::empty(), cfg@, home@, hostname@)
            == Seq::<Seq<u8>>::empty());
        assert(forest_nodes(Seq::<DirTree>::empty()) == 0);
        lemma_add_empty_reports(forest_reports(kept@, cfg@, home@, hostname@).to_multiset());
        assert(Seq::<Seq<u8>>::empty().to_multiset().add(
            forest_reports(kept@, cfg@, home@, hostname@).to_multiset(),
        ) =~= forest_reports(kept@, cfg@, home@, hostname@).to_multiset().add(
            Seq::<Seq<u8>>::empty().to_multiset(),
        ));
    }
    (found, kept)
}

/// Scans a forest of directory subtrees, as a pool of `workers` buffers
/// drained by turns: every subtree that any buffer ever holds is taken out
/// exactly once, its symlinks are classified, and its surviving
/// subdirectories go back into the pool, until no buffer holds anything.
///
/// The result carries, as a multiset, exactly the reports of the forest:
/// nothing is lost, nothing is reported twice, and the outcome does not
/// depend on the number of workers.
pub fn scan(
    roots: Vec<DirTree>,
    workers: usize,
    cfg: &Config,
    home: &Vec<u8>,
    hostname: &Vec<u8>,
) -> (out: Vec<Vec<u8>>)
    requires
        workers >= 1,
        home@.len() >= 1,
    ensures
        out.deep_view().to_multiset() == forest_reports(
            roots@,
            cfg@,
            home@,
            hostname@,
        ).to_multiset(),
{
    let ghost total = forest_reports(roots@, cfg@, home@, hostname@).to_multiset();
    let mut q: WorkQueue<DirTree> = WorkQueue::new(workers);
    proof {
        assert forall|k: int| 0 <= k < q.bufs@.len() implies q.bufs@[k].items@.len() == 0 by {
            assert(q.items_of(k).len() == 0);
        }
        lemma_bufs_empty(q.bufs@, cfg@, home@, hostname@);
    }
    let mut pending = roots;
    let mut w: usize = 0;
    proof {
        lemma_add_empty_reports(total);
        assert(forest_reports(pending@, cfg@, home@, hostname@).to_multiset().add(
            bufs_reports(q.bufs@, cfg@, home@, hostname@).to_multiset(),
        ) == total);
    }
    while pending.len() > 0
        invariant
            workers >= 1,
            w < workers,
            q.num_workers() == workers,
            forest_reports(pending@, cfg@, home@, hostname@).to_multiset().add(
                bufs_reports(q.bufs@, cfg@, home@, hostname@).to_multiset(),
            ) == total,
        decreases pending@.len(),
    {
        let ghost pre_pending = pending@;
        if let Some(t) = pending.pop() {
            let ghost tg = t;
            let ghost pre_bufs = q.bufs@;
            proof {
                assert(pre_pending =~= pending@.push(tg));
                lemma_forest_push(pending@, tg, cfg@, home@, hostname@);
                lemma_multiset_commutative(
                    forest_reports(pending@, cfg@, home@, hostname@),
                    tree_reports(tg, cfg@, home@, hostname@),
                );
            }
            q.push(w, t);
            proof {
                lemma_bufs_push_effect(pre_bufs, q.bufs@, w as int, tg, cfg@, home@, hostname@);
                assert(forest_reports(pending@, cfg@, home@, hostname@).to_multiset().add(
                    bufs_reports(q.bufs@, cfg@, home@, hostname@).to_multiset(),
                ) =~= forest_reports(pre_pending, cfg@, home@, hostname@).to_multiset().add(
                    bufs_reports(pre_bufs, cfg@, home@, hostname@).to_multiset(),
                ));
            }
        }
        w = if w + 1 < workers {
            w + 1
        } else {
            0
        };
    }
    proof {
        assert(pending@ =~= Seq::<DirTree>::empty());
        assert(forest_reports(Seq::<DirTree>::empty(), cfg@, home@, hostname@)
            == Seq::<Seq<u8>>::empty());
    }
    let mut out: Vec<Vec<u8>> = Vec::new();
    proof {
        assert(out.deep_view() =~= Seq::<Seq<u8>>::empty());
        vstd::seq_lib::to_multiset_len(Seq::<Seq<u8>>::empty());
        assert(out.deep_view().to_multiset().add(
            bufs_reports(q.bufs@, cfg@, home@, hostname@).to_multiset(),
        ) =~= Seq::<Seq<u8>>::empty().to_multiset().add(
            bufs_reports(q.bufs@, cfg@, home@, hostname@).to_multiset(),
        ));
        assert(Seq::<Seq<u8>>::empty().to_multiset().add(
            bufs_reports(q.bufs@, cfg@, home@, hostname@).to_multiset(),
        ) =~= bufs_reports(q.bufs@, cfg@, home@, hostname@).to_multiset());
    }
    let mut turn: usize = 0;
    loop
        invariant
            workers >= 1,
            turn < workers,
            home@.len() >= 1,
            q.num_workers() == workers,
            out.deep_view().to_multiset().add(
                bufs_reports(q.bufs@, cfg@, home@, hostname@).to_multiset(),
            ) == total,
        ensures
            out.deep_view().to_multiset() == total,
        decreases bufs_nodes(q.bufs@),
    {
        let ghost loop_bufs = q.bufs@;
        let own = q.pop(turn);
        let ghost q_after_pop = q;
        let got = match own {
            Some(t) => Some(t),
            None => q.steal(turn),
        };
        match got {
            None => {
                proof {
                    assert forall|k: int| 0 <= k < q.bufs@.len() implies q.bufs@[k].items@.len()
                        == 0 by {
                        if k == turn {
                            assert(q_after_pop.items_of(turn as int).len() == 0);
                        } else {
                            assert(!q_after_pop.donor_ok(turn as int, k));
                            assert(q_after_pop.items_of(k).len() == 0);
                        }
                    }
                    lemma_bufs_empty(q.bufs@, cfg@, home@, hostname@);
                    assert(forall|k: int|
                        0 <= k < loop_bufs.len() ==> loop_bufs[k].items@ == q.bufs@[k].items@);
                    lemma_bufs_itemwise(loop_bufs, q.bufs@, cfg@, home@, hostname@);
                    lemma_add_empty_reports(out.deep_view().to_multiset());
                }
                break;
            },
            Some(t) => {
                let ghost tg = t;
                let ghost got_bufs = q.bufs@;
                proof {
                    if own is Some {
                        assert(loop_bufs[turn as int].items@ == got_bufs[
                            turn as int
                        ].items@.push(tg)) by {
                            assert(loop_bufs[turn as int].items@.drop_last() == got_bufs[
                                turn as int
                            ].items@);
                            assert(loop_bufs[turn as int].items@ =~= loop_bufs[
                                turn as int
                            ].items@.drop_last().push(loop_bufs[turn as int].items@.last()));
                        }
                        lemma_bufs_push_effect(
                            got_bufs,
                            loop_bufs,
                            turn as int,
                            tg,
                            cfg@,
                            home@,
                            hostname@,
                        );
                    } else {
                        let j = choose|j: int|
                            {
                                &&& #[trigger] q_after_pop.is_steal_choice(turn as int, j)
                                &&& tg == q_after_pop.items_of(j).last()
                                &&& got_bufs == q_after_pop.bufs@.update(
                                    j,
                                    WorkerBuffer {
                                        items: got_bufs[j].items,
                                        waiting: q_after_pop.bufs@[j].waiting,
                                    },
                                )
                                &&& got_bufs[j].items@ == q_after_pop.items_of(j).drop_last()
                                &&& got_bufs[j].waiting == q_after_pop.bufs@[j].waiting
                            };
                        assert(q_after_pop.items_of(j) =~= got_bufs[j].items@.push(tg)) by {
                            assert(q_after_pop.items_of(j).len() > 0);
                        }
                        assert(forall|k: int|
                            0 <= k < got_bufs.len() && k != j ==> got_bufs[k]
                                == q_after_pop.bufs@[k]);
                        lemma_bufs_push_effect(
                            got_bufs,
                            q_after_pop.bufs@,
                            j,
                            tg,
                            cfg@,
                            home@,
                            hostname@,
                        );
                        assert(forall|k: int|
                            0 <= k < loop_bufs.len() ==> loop_bufs[k].items@
                                == q_after_pop.bufs@[k].items@);
                        lemma_bufs_itemwise(loop_bufs, q_after_pop.bufs@, cfg@, home@, hostname@);
                    }
                    assert(bufs_reports(loop_bufs, cfg@, home@, hostname@).to_multiset()
                        == bufs_reports(got_bufs, cfg@, home@, hostname@).to_multiset().add(
                        tree_reports(tg, cfg@, home@, hostname@).to_multiset(),
                    ));
                    assert(bufs_nodes(loop_bufs) == bufs_nodes(got_bufs) + tree_nodes(tg));
                    lemma_multiset_commutative(
                        link_reports(tg.symlinks@, cfg@, home@, hostname@),
                        children_reports(tg.subdirs@, cfg@, home@, hostname@),
                    );
                }
                let (mut found, mut kept) = process_tree(t, cfg, home, hostname);
                let ghost found_dv = found.deep_view();
                let ghost out_pre = out.deep_view();
                out.append(&mut found);
                proof {
                    assert(out.deep_view() =~= out_pre + found_dv);
                    lemma_multiset_commutative(out_pre, found_dv);
                    assert(out.deep_view().to_multiset().add(
                        bufs_reports(q.bufs@, cfg@, home@, hostname@).to_multiset(),
                    ).add(forest_reports(kept@, cfg@, home@, hostname@).to_multiset())
                        =~= out_pre.to_multiset().add(
                        bufs_reports(loop_bufs, cfg@, home@, hostname@).to_multiset(),
                    ));
                    assert(bufs_nodes(q.bufs@) + forest_nodes(kept@) < bufs_nodes(loop_bufs));
                }
                while kept.len() > 0
                    invariant
                        workers >= 1,
                        turn < workers,
                        q.num_workers() == workers,
                        out.deep_view().to_multiset().add(
                            bufs_reports(q.bufs@, cfg@, home@, hostname@).to_multiset(),
                        ).add(forest_reports(kept@, cfg@, home@, hostname@).to_multiset())
                            == total,
                        bufs_nodes(q.bufs@) + forest_nodes(kept@) < bufs_nodes(loop_bufs),
                    decreases kept@.len(),
                {
                    let ghost pre_kept = kept@;
                    if let Some(sub) = kept.pop() {
                        let ghost subg = sub;
                        let ghost pre_bufs2 = q.bufs@;
                        proof {
                            assert(pre_kept =~= kept@.push(subg));
                            lemma_forest_push(kept@, subg, cfg@, home@, hostname@);
                            lemma_multiset_commutative(
                                forest_reports(kept@, cfg@, home@, hostname@),
                                tree_reports(subg, cfg@, home@, hostname@),
                            );
                        }
                        q.push(turn, sub);
                        proof {
                            lemma_bufs_push_effect(
                                pre_bufs2,
                                q.bufs@,
                                turn as int,
                                subg,
                                cfg@,
                                home@,
                                hostname@,
                            );
                            assert(out.deep_view().to_multiset().add(
                                bufs_reports(q.bufs@, cfg@, home@, hostname@).to_multiset(),
                            ).add(forest_reports(kept@, cfg@, home@, hostname@).to_multiset())
                                =~= out.deep_view().to_multiset().add(
                                bufs_reports(pre_bufs2, cfg@, home@, hostname@).to_multiset(),
                            ).add(forest_reports(pre_kept, cfg@, home@, hostname@).to_multiset()));
                        }
                    }
                }
                proof {
                    assert(kept@ =~= Seq::<DirTree>::empty());
                    assert(forest_reports(Seq::<DirTree>::empty(), cfg@, home@, hostname@)
                        == Seq::<Seq<u8>>::empty());
                    assert(forest_nodes(Seq::<DirTree>::empty()) == 0);
                    lemma_add_empty_reports(
                        out.deep_view().to_multiset().add(
                            bufs_reports(q.bufs@, cfg@, home@, hostname@).to_multiset(),
                        ),
                    );
                }
                turn = if turn + 1 < workers {
                    turn + 1
                } else {
                    0
                };
            },
        }
    }
    out
}

/// No symlink of this run points into the files store.
pub open spec fn links_unmanaged(links: Seq<SymlinkInfo>, files_path: Seq<u8>) -> bool {
    forall|i: int|
        0 <= i < links.len() ==> crate::bytes::component_stripped(
            #[trigger] links[i].target@,
            files_path,
        ) is None
}

/// No symlink anywhere in this subtree points into the files store.
pub open spec fn tree_unmanaged(t: DirTree, files_path: Seq<u8>) -> bool
    decreases t,
{
    links_unmanaged(t.symlinks@, files_path) && forest_unmanaged(t.subdirs@, files_path)
}

/// No symlink anywhere in this run of subtrees points into the files store.
pub open spec fn forest_unmanaged(ts: Seq<DirTree>, files_path: Seq<u8>) -> bool
    decreases ts,
{
    ts.len() == 0 || (tree_unmanaged(ts[0], files_path) && forest_unmanaged(
        ts.subrange(1, ts.len() as int),
        files_path,
    ))
}

/// Symlinks that do not point into the files store yield no reports.
proof fn lemma_unmanaged_links(
    links: Seq<SymlinkInfo>,
    cfg: ConfigV,
    home: Seq<u8>,
    hostname: Seq<u8>,
)
    requires
        links_unmanaged(links, cfg.files_path),
    ensures
        link_reports(links, cfg, home, hostname) == Seq::<Seq<u8>>::empty(),
    decreases links.len(),
{
    if links.len() > 0 {
        let tail = links.subrange(1, links.len() as int);
        assert(forall|i: int| 0 <= i < tail.len() ==> tail[i] == links[i + 1]);
        lemma_unmanaged_links(tail, cfg, home, hostname);
        assert(spec_classify(links[0].path@, links[0].target@, cfg, home, hostname) is None);
        assert(Seq::<Seq<u8>>::empty() + Seq::<Seq<u8>>::empty() =~= Seq::<Seq<u8>>::empty());
    }
}

/// Completeness of silence: a subtree none of whose symlinks points into
/// the files store produces no report at all.
pub proof fn lemma_unmanaged_tree(t: DirTree, cfg: ConfigV, home: Seq<u8>, hostname: Seq<u8>)
    requires
        tree_unmanaged(t, cfg.files_path),
    ensures
        tree_reports(t, cfg, home, hostname) == Seq::<Seq<u8>>::empty(),
    decreases t,
{
    lemma_unmanaged_links(t.symlinks@, cfg, home, hostname);
    lemma_unmanaged_children(t.subdirs@, cfg, home, hostname);
    assert(Seq::<Seq<u8>>::empty() + Seq::<Seq<u8>>::empty() =~= Seq::<Seq<u8>>::empty());
}

/// The children of an unmanaged run contribute nothing either.
proof fn lemma_unmanaged_children(ts: Seq<DirTree>, cfg: ConfigV, home: Seq<u8>, hostname: Seq<u8>)
    requires
        forest_unmanaged(ts, cfg.files_path),
    ensures
        children_reports(ts, cfg, home, hostname) == Seq::<Seq<u8>>::empty(),
    decreases ts,
{
    if ts.len() > 0 {
        if !cfg.ignore_paths.contains(ts[0].path@) {
            lemma_unmanaged_tree(ts[0], cfg, home, hostname);
        }
        lemma_unmanaged_children(ts.subrange(1, ts.len() as int), cfg, home, hostname);
        assert(Seq::<Seq<u8>>::empty() + Seq::<Seq<u8>>::empty() =~= Seq::<Seq<u8>>::empty());
    }
}

/// Completeness of silence over a whole forest of scan roots: with no
/// symlink pointing into the files store, a scan reports nothing.
pub proof fn lemma_unmanaged_forest(ts: Seq<DirTree>, cfg: ConfigV, home: Seq<u8>, hostname: Seq<
    u8,
>)
    requires
        forest_unmanaged(ts, cfg.files_path),
    ensures
        forest_reports(ts, cfg, home, hostname) == Seq::<Seq<u8>>::empty(),
    decreases ts.len(),
{
    if ts.len() > 0 {
        lemma_unmanaged_tree(ts[0], cfg, home, hostname);
        lemma_unmanaged_forest(ts.subrange(1, ts.len() as int), cfg, home, hostname);
        assert(Seq::<Seq<u8>>::empty() + Seq::<Seq<u8>>::empty() =~= Seq::<Seq<u8>>::empty());
    }
}

/// An ignored directory is never entered: dropping it from a run of
/// discovered subdirectories changes no report, so nothing beneath it is
/// ever seen.
pub proof fn lemma_ignored_child_dropped(
    ts: Seq<DirTree>,
    i: int,
    cfg: ConfigV,
    home: Seq<u8>,
    hostname: Seq<u8>,
)
    requires
        0 <= i < ts.len(),
        cfg.ignore_paths.contains(ts[i].path@),
    ensures
        children_reports(ts, cfg, home, hostname) == children_reports(
            ts.remove(i),
            cfg,
            home,
            hostname,
        ),
    decreases ts.len(),
{
    if i == 0 {
        assert(ts.remove(0) =~= ts.subrange(1, ts.len() as int));
        assert(Seq::<Seq<u8>>::empty() + children_reports(
            ts.subrange(1, ts.len() as int),
            cfg,
            home,
            hostname,
        ) =~= children_reports(ts.subrange(1, ts.len() as int), cfg, home, hostname));
    } else {
        let tail = ts.subrange(1, ts.len() as int);
        assert(tail[i - 1] == ts[i]);
        lemma_ignored_child_dropped(tail, i - 1, cfg, home, hostname);
        assert(ts.remove(i)[0] == ts[0]);
        assert(ts.remove(i).subrange(1, ts.remove(i).len() as int) =~= tail.remove(i - 1));
    }
}

/// The scan is complete exactly when no walk is in flight and no buffer
/// holds work; until then an idle worker must retry.
pub fn scan_complete(pending: usize, queued: usize) -> (r: bool)
    ensures
        r == (pending == 0 && queued == 0),
{
    pending == 0 && queued == 0
}

} // verus!
