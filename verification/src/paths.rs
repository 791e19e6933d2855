//! The path resolver: turning a managed-file identifier into the absolute
//! system path it stands for, and into its path inside the files store,
//! including the `{home}` and `{hostname}` placeholder substitutions.

use vstd::prelude::*;

use crate::bytes::{
    find_byte, first_index, lemma_first_index, replace, replace_all, strip_component,
    component_stripped, suffix_from, SLASH,
};
use crate::config::{Config, ConfigV};

verus! {

/// Why an identifier has no system path.
#[derive(Clone, Copy, Debug, PartialEq, Eq, Structural)]
pub enum PathError {
    /// A relative identifier holds no `'/'`, so no subdirectory can be
    /// split off.
    NoSeparator,
    /// Substituting the home directory shrank the identifier past the
    /// position of its first `'/'`.
    SeparatorPastEnd,
}

/// The placeholder `{home}`.
pub open spec fn home_pat() -> Seq<u8> {
    seq![123u8, 104u8, 111u8, 109u8, 101u8, 125u8]
}

/// The placeholder `{hostname}`.
pub open spec fn hostname_pat() -> Seq<u8> {
    seq![123u8, 104u8, 111u8, 115u8, 116u8, 110u8, 97u8, 109u8, 101u8, 125u8]
}

/// `path` with every `{home}` replaced by the home directory without its
/// leading `'/'`.
pub open spec fn home_resolved(path: Seq<u8>, home: Seq<u8>) -> Seq<u8> {
    replace_all(path, home_pat(), home.skip(1))
}

/// The absolute system path that the identifier `path` stands for.
///
/// An absolute identifier (its default subdirectory was elided) maps to
/// itself; a relative one drops everything before its first `'/'`, that is
/// its subdirectory. In both, `{home}` has been substituted first; the cut
/// position is found in the unsubstituted identifier.
pub open spec fn spec_system_path(path: Seq<u8>, home: Seq<u8>) -> Result<Seq<u8>, PathError> {
    let resolved = home_resolved(path, home);
    if path.len() > 0 && path[0] == SLASH {
        Ok(resolved)
    } else if first_index(path, SLASH) == path.len() {
        Err(PathError::NoSeparator)
    } else if first_index(path, SLASH) <= resolved.len() {
        Ok(resolved.skip(first_index(path, SLASH)))
    } else {
        Err(PathError::SeparatorPastEnd)
    }
}

/// `a` and `b` as one path: `a/b`, or `a` alone when `b` is empty.
pub open spec fn joined(a: Seq<u8>, b: Seq<u8>) -> Seq<u8> {
    if b.len() == 0 {
        a
    } else {
        a + seq![SLASH] + b
    }
}

/// The path inside the files store that the identifier `path` stands for.
///
/// An absolute identifier goes under the default subdirectory; one that
/// starts with the component `{hostname}` goes under the hostname; then a
/// leading component `{home}` becomes the home directory, and the rest is
/// appended.
pub open spec fn spec_config_path(
    path: Seq<u8>,
    cfg: ConfigV,
    home: Seq<u8>,
    hostname: Seq<u8>,
) -> Seq<u8> {
    let step1 = if path.len() > 0 && path[0] == SLASH {
        (joined(cfg.files_path, cfg.default_subdir), path.skip(1))
    } else {
        match component_stripped(path, hostname_pat()) {
            Some(rest) => (joined(cfg.files_path, hostname), rest),
            None => (cfg.files_path, path),
        }
    };
    let step2 = match component_stripped(step1.1, home_pat()) {
        Some(rest) => (joined(step1.0, home.skip(1)), rest),
        None => step1,
    };
    joined(step2.0, step2.1)
}

/// The bytes of `{home}`.
pub fn home_pattern() -> (r: Vec<u8>)
    ensures
        r@ == home_pat(),
{
    let mut v: Vec<u8> = Vec::new();
    v.push(123);
    v.push(104);
    v.push(111);
    v.push(109);
    v.push(101);
    v.push(125);
    assert(v@ =~= home_pat());
    v
}

/// The bytes of `{hostname}`.
pub fn hostname_pattern() -> (r: Vec<u8>)
    ensures
        r@ == hostname_pat(),
{
    let mut v: Vec<u8> = Vec::new();
    v.push(123);
    v.push(104);
    v.push(111);
    v.push(115);
    v.push(116);
    v.push(110);
    v.push(97);
    v.push(109);
    v.push(101);
    v.push(125);
    assert(v@ =~= hostname_pat());
    v
}

/// Converts an identifier to the absolute path it occupies on the system,
/// by cutting away the subdirectory of the files store and substituting
/// `{home}`.
pub fn system_path(path: &Vec<u8>, home: &Vec<u8>) -> (r: Result<Vec<u8>, PathError>)
    requires
        home@.len() >= 1,
    ensures
        r matches Ok(v) ==> spec_system_path(path@, home@) == Ok::<Seq<u8>, PathError>(v@),
        r matches Err(e) ==> spec_system_path(path@, home@) == Err::<Seq<u8>, PathError>(e),
{
    let home_tail = suffix_from(home, 1);
    let pat = home_pattern();
    let resolved = replace(path, &pat, &home_tail);
    if path.len() > 0 && path[0] == SLASH {
        Ok(resolved)
    } else {
        proof {
            lemma_first_index(path@, SLASH);
        }
        match find_byte(path, SLASH) {
            None => Err(PathError::NoSeparator),
            Some(idx) => {
                if idx <= resolved.len() {
                    Ok(suffix_from(&resolved, idx))
                } else {
                    Err(PathError::SeparatorPastEnd)
                }
            },
        }
    }
}

/// `a` and `b` as one path.
pub fn join_path(a: &Vec<u8>, b: &Vec<u8>) -> (r: Vec<u8>)
    ensures
        r@ == joined(a@, b@),
{
    let mut r: Vec<u8> = Vec::new();
    let mut i: usize = 0;
    while i < a.len()
        invariant
            i <= a@.len(),
            r@ == a@.subrange(0, i as int),
        decreases a@.len() - i,
    {
        r.push(a[i]);
        assert(a@.subrange(0, i + 1) =~= a@.subrange(0, i as int).push(a@[i as int]));
        i += 1;
    }
    assert(r@ =~= a@);
    if b.len() == 0 {
        return r;
    }
    r.push(SLASH);
    let mut j: usize = 0;
    while j < b.len()
        invariant
            j <= b@.len(),
            r@ == a@ + seq![SLASH] + b@.subrange(0, j as int),
        decreases b@.len() - j,
    {
        r.push(b[j]);
        assert(b@.subrange(0, j + 1) =~= b@.subrange(0, j as int).push(b@[j as int]));
        assert(r@ =~= a@ + seq![SLASH] + b@.subrange(0, j + 1));
        j += 1;
    }
    assert(b@.subrange(0, b@.len() as int) =~= b@);
    assert(r@ =~= a@ + seq![SLASH] + b@);
    r
}

/// Converts an identifier to the path of its canonical copy inside the
/// files store, substituting the `{hostname}` and `{home}` placeholders.
pub fn config_path(path: &Vec<u8>, cfg: &Config, home: &Vec<u8>, hostname: &Vec<u8>) -> (r: Vec<
    u8,
>)
    requires
        cfg@.subdir_not_absolute(),
        home@.len() >= 1,
    ensures
        r@ == spec_config_path(path@, cfg@, home@, hostname@),
{
    let mut base: Vec<u8>;
    let mut p: Vec<u8>;
    if path.len() > 0 && path[0] == SLASH {
        base = join_path(&cfg.files_path, &cfg.default_subdir);
        p = suffix_from(path, 1);
    } else {
        let host_pat = hostname_pattern();
        match strip_component(path, &host_pat) {
            Some(rest) => {
                assert(rest.deep_view() =~= rest@);
                base = join_path(&cfg.files_path, hostname);
                p = rest;
            },
            None => {
                base = suffix_from(&cfg.files_path, 0);
                p = suffix_from(path, 0);
                assert(base@ =~= cfg@.files_path);
                assert(p@ =~= path@);
            },
        }
    }
    let pat = home_pattern();
    match strip_component(&p, &pat) {
        Some(rest) => {
            assert(rest.deep_view() =~= rest@);
            let home_tail = suffix_from(home, 1);
            base = join_path(&base, &home_tail);
            p = rest;
        },
        None => {},
    }
    join_path(&base, &p)
}

} // verus!
