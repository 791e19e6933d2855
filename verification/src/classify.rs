//! The symlink classifier: decides whether a symlink was plausibly created
//! by the tool, and renders the display identifier of one that was.

use vstd::prelude::*;

use crate::bytes::{
    component_stripped, concat_bytes, eq_bytes, is_prefix_of, lemma_first_index_is,
    lemma_replace_all_absent, occurs_at, occurs_in, replace, replace_all, strip_component,
    strip_prefix, SLASH,
};
use crate::config::{Config, ConfigV};
use crate::paths::{
    home_pat, home_pattern, hostname_pat, hostname_pattern, spec_system_path, system_path,
    PathError,
};

verus! {

/// How a confirmed symlink's store path is shown: every occurrence of the
/// home directory becomes `{home}`; then a leading default subdirectory is
/// elided, or a leading hostname becomes `{hostname}`.
pub open spec fn spec_display(
    stripped: Seq<u8>,
    cfg: ConfigV,
    home: Seq<u8>,
    hostname: Seq<u8>,
) -> Seq<u8> {
    let subst = replace_all(stripped, home, seq![SLASH] + home_pat());
    if is_prefix_of(cfg.default_subdir, subst) {
        subst.skip(cfg.default_subdir.len() as int)
    } else if is_prefix_of(hostname, subst) {
        hostname_pat() + subst.skip(hostname.len() as int)
    } else {
        subst
    }
}

/// The verdict on a symlink at `location` pointing at `target`: the display
/// identifier when the symlink is managed, nothing otherwise.
///
/// A symlink is managed when its target lies under the files store and the
/// system path recomputed from the target's store path is exactly the
/// symlink's own location. A store path with no system path cannot have been
/// created by the tool, so such a symlink is not managed.
pub open spec fn spec_classify(
    location: Seq<u8>,
    target: Seq<u8>,
    cfg: ConfigV,
    home: Seq<u8>,
    hostname: Seq<u8>,
) -> Option<Seq<u8>> {
    match component_stripped(target, cfg.files_path) {
        None => None,
        Some(stripped) => {
            if spec_system_path(stripped, home) == Ok::<Seq<u8>, PathError>(location) {
                Some(spec_display(stripped, cfg, home, hostname))
            } else {
                None
            }
        },
    }
}

/// Decides whether the symlink at `location` pointing at `target` was
/// plausibly created by the tool, and returns its display identifier if so.
pub fn classify_symlink(
    location: &Vec<u8>,
    target: &Vec<u8>,
    cfg: &Config,
    home: &Vec<u8>,
    hostname: &Vec<u8>,
) -> (r: Option<Vec<u8>>)
    requires
        home@.len() >= 1,
    ensures
        r.deep_view() == spec_classify(location@, target@, cfg@, home@, hostname@),
{
    match strip_component(target, &cfg.files_path) {
        None => None,
        Some(stripped) => {
            assert(stripped.deep_view() =~= stripped@);
            match system_path(&stripped, home) {
                Err(_) => None,
                Ok(sys) => {
                    if eq_bytes(&sys, location) {
                        let pat = home_pattern();
                        let mut slash_home: Vec<u8> = Vec::new();
                        slash_home.push(SLASH);
                        assert(slash_home@ =~= seq![SLASH]);
                        let slash_home = concat_bytes(&slash_home, &pat);
                        let subst = replace(&stripped, home, &slash_home);
                        let out: Vec<u8>;
                        match strip_prefix(&subst, &cfg.default_subdir) {
                            Some(tail) => {
                                out = tail;
                            },
                            None => {
                                match strip_prefix(&subst, hostname) {
                                    Some(tail) => {
                                        let host_pat = hostname_pattern();
                                        out = concat_bytes(&host_pat, &tail);
                                    },
                                    None => {
                                        out = subst;
                                    },
                                }
                            },
                        }
                        assert(out.deep_view() =~= out@);
                        Some(out)
                    } else {
                        None
                    }
                },
            }
        },
    }
}

/// Splitting a store path `comp ++ rest` back off its target: stripping the
/// store prefix recovers it, and, when `comp` holds no separator, no `{home}`
/// stands in it and `rest` begins with a separator, its recomputed system
/// path is exactly `rest`.
proof fn lemma_store_round_trip(files_path: Seq<u8>, home: Seq<u8>, comp: Seq<u8>, rest: Seq<u8>)
    requires
        comp.len() > 0,
        forall|j: int| 0 <= j < comp.len() ==> comp[j] != SLASH,
        rest.len() > 0,
        rest[0] == SLASH,
        !occurs_in(comp + rest, home_pat()),
        home.len() >= 1,
    ensures
        component_stripped(files_path + seq![SLASH] + (comp + rest), files_path) == Some(
            comp + rest,
        ),
        spec_system_path(comp + rest, home) == Ok::<Seq<u8>, PathError>(rest),
{
    let stripped = comp + rest;
    let target = files_path + seq![SLASH] + stripped;
    assert(target.len() == files_path.len() + 1 + stripped.len());
    assert(target != files_path);
    assert(is_prefix_of(files_path.push(SLASH), target)) by {
        assert(target.subrange(0, files_path.len() + 1 as int) =~= files_path.push(SLASH));
    }
    assert(target.skip(files_path.len() + 1 as int) =~= stripped);

    lemma_replace_all_absent(stripped, home_pat(), home.skip(1));
    assert(stripped[0] == comp[0]);
    assert(stripped[0] != SLASH);
    lemma_first_index_is(stripped, SLASH, comp.len() as int);
    assert(stripped.skip(comp.len() as int) =~= rest);
}

/// Round trip through the default subdirectory: a symlink standing at the
/// system path of the identifier `ds ++ id` (the default subdirectory `ds`
/// elided in display) and pointing at that identifier's place in the files
/// store is reported, and its display identifier is `id`, verbatim.
pub proof fn lemma_default_subdir_round_trip(
    cfg: ConfigV,
    home: Seq<u8>,
    hostname: Seq<u8>,
    id: Seq<u8>,
)
    requires
        cfg.default_subdir.len() > 0,
        forall|j: int| 0 <= j < cfg.default_subdir.len() ==> cfg.default_subdir[j] != SLASH,
        id.len() > 0,
        id[0] == SLASH,
        !occurs_in(cfg.default_subdir + id, home),
        !occurs_in(cfg.default_subdir + id, home_pat()),
        home.len() >= 1,
    ensures
        spec_system_path(cfg.default_subdir + id, home) == Ok::<Seq<u8>, PathError>(id),
        spec_classify(
            id,
            cfg.files_path + seq![SLASH] + (cfg.default_subdir + id),
            cfg,
            home,
            hostname,
        ) == Some(id),
{
    let ds = cfg.default_subdir;
    let stripped = ds + id;
    lemma_store_round_trip(cfg.files_path, home, ds, id);
    lemma_replace_all_absent(stripped, home, seq![SLASH] + home_pat());
    assert(is_prefix_of(ds, stripped)) by {
        assert(stripped.subrange(0, ds.len() as int) =~= ds);
    }
    assert(stripped.skip(ds.len() as int) =~= id);
}

/// Home substitution in the display: a store path holding the home
/// directory exactly once, behind the default subdirectory, is rendered
/// with `{home}` standing exactly where the home directory stood, and
/// everything around it verbatim.
pub proof fn lemma_home_substitution(
    cfg: ConfigV,
    home: Seq<u8>,
    hostname: Seq<u8>,
    before: Seq<u8>,
    after: Seq<u8>,
)
    requires
        home.len() > 0,
        forall|i: int| i != before.len() ==> !occurs_at(before + home + after, home, i),
        is_prefix_of(cfg.default_subdir, before),
    ensures
        spec_display(before + home + after, cfg, home, hostname) == before.skip(
            cfg.default_subdir.len() as int,
        ) + (seq![SLASH] + home_pat()) + after,
{
    let ds = cfg.default_subdir;
    let rep = seq![SLASH] + home_pat();
    crate::bytes::lemma_replace_all_single(before, after, home, rep);
    let subst = before + rep + after;
    assert(is_prefix_of(ds, subst)) by {
        assert(subst.subrange(0, ds.len() as int) =~= before.subrange(0, ds.len() as int));
    }
    assert(subst.skip(ds.len() as int) =~= before.skip(ds.len() as int) + rep + after);
}

/// Hostname substitution: a symlink standing at `z` and pointing at
/// `filesStoreRoot/<hostname>/z` is reported as `{hostname}` followed by
/// `z`, provided the default subdirectory does not also prefix the store
/// path.
pub proof fn lemma_hostname_substitution(
    cfg: ConfigV,
    home: Seq<u8>,
    hostname: Seq<u8>,
    z: Seq<u8>,
)
    requires
        hostname.len() > 0,
        forall|j: int| 0 <= j < hostname.len() ==> hostname[j] != SLASH,
        z.len() > 0,
        z[0] == SLASH,
        !occurs_in(hostname + z, home),
        !occurs_in(hostname + z, home_pat()),
        !is_prefix_of(cfg.default_subdir, hostname + z),
        home.len() >= 1,
    ensures
        spec_classify(
            z,
            cfg.files_path + seq![SLASH] + (hostname + z),
            cfg,
            home,
            hostname,
        ) == Some(hostname_pat() + z),
{
    let stripped = hostname + z;
    lemma_store_round_trip(cfg.files_path, home, hostname, z);
    lemma_replace_all_absent(stripped, home, seq![SLASH] + home_pat());
    assert(is_prefix_of(hostname, stripped)) by {
        assert(stripped.subrange(0, hostname.len() as int) =~= hostname);
    }
    assert(stripped.skip(hostname.len() as int) =~= z);
}

} // verus!
