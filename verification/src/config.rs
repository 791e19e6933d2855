//! The configuration snapshot: constructed once, read-only afterwards,
//! shared by every part of the scan.

use vstd::prelude::*;

use crate::bytes::{
    copy_range, find_byte, first_index, lemma_first_index, lemma_first_index_is, suffix_from,
    trim, trimmed, SLASH,
};

verus! {

/// The line feed byte, `'\n'`.
pub const NL: u8 = 10;

/// The carriage return byte, `'\r'`.
pub const CR: u8 = 13;

/// The equals sign, which separates a key from its value.
pub const EQUALS: u8 = 61;

/// The comma, which separates the elements of a path list.
pub const COMMA: u8 = 44;

/// The tool's configuration, as the scan sees it. Paths are byte strings.
#[derive(Debug)]
pub struct Config {
    /// The subdirectory of the files store that an absolute identifier
    /// implicitly lives under.
    pub default_subdir: Vec<u8>,
    /// The absolute path of the files store.
    pub files_path: Vec<u8>,
    /// The roots that a scan starts from.
    pub list_paths: Vec<Vec<u8>>,
    /// Absolute paths that a scan never descends into.
    pub ignore_paths: Vec<Vec<u8>>,
    /// Whether a scan demands root privileges.
    pub root: bool,
}

/// The mathematical image of a `Config`.
pub struct ConfigV {
    pub default_subdir: Seq<u8>,
    pub files_path: Seq<u8>,
    pub list_paths: Seq<Seq<u8>>,
    pub ignore_paths: Seq<Seq<u8>>,
    pub root: bool,
}

impl View for Config {
    type V = ConfigV;

    open spec fn view(&self) -> ConfigV {
        ConfigV {
            default_subdir: self.default_subdir@,
            files_path: self.files_path@,
            list_paths: self.list_paths.deep_view(),
            ignore_paths: self.ignore_paths.deep_view(),
            root: self.root,
        }
    }
}

impl ConfigV {
    /// The default subdirectory must not be an absolute path; a configuration
    /// that breaks this is rejected before any scan begins.
    pub open spec fn subdir_not_absolute(self) -> bool {
        self.default_subdir.len() == 0 || self.default_subdir[0] != SLASH
    }
}

impl Config {
    /// Whether the default subdirectory is a relative path, which every
    /// path computation demands.
    pub fn subdir_is_relative(&self) -> (r: bool)
        ensures
            r == self@.subdir_not_absolute(),
    {
        self.default_subdir.len() == 0 || self.default_subdir[0] != SLASH
    }
}

/// Why a configuration file was rejected.
#[derive(Debug, PartialEq, Eq)]
pub enum ConfigError {
    /// A line with `=` whose key is none of the known ones; carries the key.
    UnknownEntry(Vec<u8>),
    /// A line without `=` that is not `root`; carries the line, trimmed.
    UnknownKey(Vec<u8>),
    /// The file names no default subdirectory, or an empty one.
    MissingDefaultSubdir,
}

/// The mathematical image of a `ConfigError`.
pub enum ConfigErrorV {
    UnknownEntry(Seq<u8>),
    UnknownKey(Seq<u8>),
    MissingDefaultSubdir,
}

impl View for ConfigError {
    type V = ConfigErrorV;

    open spec fn view(&self) -> ConfigErrorV {
        match self {
            ConfigError::UnknownEntry(k) => ConfigErrorV::UnknownEntry(k@),
            ConfigError::UnknownKey(k) => ConfigErrorV::UnknownKey(k@),
            ConfigError::MissingDefaultSubdir => ConfigErrorV::MissingDefaultSubdir,
        }
    }
}

impl ConfigV {
    /// The configuration before any line has been read.
    pub open spec fn init() -> ConfigV {
        ConfigV {
            default_subdir: Seq::empty(),
            files_path: Seq::empty(),
            list_paths: Seq::empty(),
            ignore_paths: Seq::empty(),
            root: false,
        }
    }
}

/// The key `default_subdir`.
pub open spec fn key_default_subdir() -> Seq<u8> {
    seq![100u8, 101u8, 102u8, 97u8, 117u8, 108u8, 116u8, 95u8, 115u8, 117u8, 98u8, 100u8, 105u8, 114u8]
}

/// The key `files_path`.
pub open spec fn key_files_path() -> Seq<u8> {
    seq![102u8, 105u8, 108u8, 101u8, 115u8, 95u8, 112u8, 97u8, 116u8, 104u8]
}

/// The key `list_paths`.
pub open spec fn key_list_paths() -> Seq<u8> {
    seq![108u8, 105u8, 115u8, 116u8, 95u8, 112u8, 97u8, 116u8, 104u8, 115u8]
}

/// The key `ignore_paths`.
pub open spec fn key_ignore_paths() -> Seq<u8> {
    seq![105u8, 103u8, 110u8, 111u8, 114u8, 101u8, 95u8, 112u8, 97u8, 116u8, 104u8, 115u8]
}

/// The key `root`.
pub open spec fn key_root() -> Seq<u8> {
    seq![114u8, 111u8, 111u8, 116u8]
}

/// A line as `str::lines` hands it out: one trailing carriage return, if
/// any, is dropped.
pub open spec fn strip_cr(line: Seq<u8>) -> Seq<u8> {
    if line.len() > 0 && line[line.len() - 1] == CR {
        line.take(line.len() - 1)
    } else {
        line
    }
}

/// The lines of `s`, split at line feeds, without a final empty line.
pub open spec fn split_lines(s: Seq<u8>) -> Seq<Seq<u8>>
    decreases s.len(),
{
    if s.len() == 0 {
        Seq::empty()
    } else {
        let k = first_index(s, NL);
        if 0 <= k && k < s.len() {
            seq![strip_cr(s.take(k))] + split_lines(s.skip(k + 1))
        } else {
            seq![strip_cr(s)]
        }
    }
}

/// The comma-separated elements of `s`, each trimmed; an empty `s` is one
/// empty element, as `str::split` has it.
pub open spec fn split_trim(s: Seq<u8>) -> Seq<Seq<u8>>
    decreases s.len(),
{
    let k = first_index(s, COMMA);
    if 0 <= k && k < s.len() {
        seq![trimmed(s.take(k))] + split_trim(s.skip(k + 1))
    } else {
        seq![trimmed(s)]
    }
}

/// What one configuration line does to the configuration read so far.
///
/// A line with `=` assigns the known keys; `list_paths` and `ignore_paths`
/// extend their lists with the comma-separated, trimmed elements of the
/// value; an unknown key is an error. A line without `=` must be `root`.
pub open spec fn apply_line(c: ConfigV, line: Seq<u8>) -> Result<ConfigV, ConfigErrorV> {
    let k = first_index(line, EQUALS);
    if 0 <= k && k < line.len() {
        let key = trimmed(line.take(k));
        let value = line.skip(k + 1);
        if key == key_default_subdir() {
            Ok(ConfigV { default_subdir: trimmed(value), ..c })
        } else if key == key_files_path() {
            Ok(ConfigV { files_path: trimmed(value), ..c })
        } else if key == key_list_paths() {
            Ok(ConfigV { list_paths: c.list_paths + split_trim(value), ..c })
        } else if key == key_ignore_paths() {
            Ok(ConfigV { ignore_paths: c.ignore_paths + split_trim(value), ..c })
        } else if key == key_root() {
            Ok(ConfigV { root: true, ..c })
        } else {
            Err(ConfigErrorV::UnknownEntry(key))
        }
    } else {
        let t = trimmed(line);
        if t == key_root() {
            Ok(ConfigV { root: true, ..c })
        } else {
            Err(ConfigErrorV::UnknownKey(t))
        }
    }
}

/// The configuration that a run of lines builds, line by line, stopping at
/// the first bad line.
pub open spec fn parse_lines(c: ConfigV, lines: Seq<Seq<u8>>) -> Result<ConfigV, ConfigErrorV>
    decreases lines.len(),
{
    if lines.len() == 0 {
        Ok(c)
    } else {
        match apply_line(c, lines[0]) {
            Ok(c2) => parse_lines(c2, lines.subrange(1, lines.len() as int)),
            Err(e) => Err(e),
        }
    }
}

/// The configuration that a whole file's text denotes: its lines applied in
/// order, and a default subdirectory demanded at the end.
pub open spec fn spec_parse_config(text: Seq<u8>) -> Result<ConfigV, ConfigErrorV> {
    match parse_lines(ConfigV::init(), split_lines(text)) {
        Ok(c) => if c.default_subdir.len() == 0 {
            Err(ConfigErrorV::MissingDefaultSubdir)
        } else {
            Ok(c)
        },
        Err(e) => Err(e),
    }
}

/// The bytes of `default_subdir`.
fn key_default_subdir_vec() -> (r: Vec<u8>)
    ensures
        r@ == key_default_subdir(),
{
    let mut v: Vec<u8> = Vec::new();
    v.push(100);
    v.push(101);
    v.push(102);
    v.push(97);
    v.push(117);
    v.push(108);
    v.push(116);
    v.push(95);
    v.push(115);
    v.push(117);
    v.push(98);
    v.push(100);
    v.push(105);
    v.push(114);
    assert(v@ =~= key_default_subdir());
    v
}

/// The bytes of `files_path`.
fn key_files_path_vec() -> (r: Vec<u8>)
    ensures
        r@ == key_files_path(),
{
    let mut v: Vec<u8> = Vec::new();
    v.push(102);
    v.push(105);
    v.push(108);
    v.push(101);
    v.push(115);
    v.push(95);
    v.push(112);
    v.push(97);
    v.push(116);
    v.push(104);
    assert(v@ =~= key_files_path());
    v
}

/// The bytes of `list_paths`.
fn key_list_paths_vec() -> (r: Vec<u8>)
    ensures
        r@ == key_list_paths(),
{
    let mut v: Vec<u8> = Vec::new();
    v.push(108);
    v.push(105);
    v.push(115);
    v.push(116);
    v.push(95);
    v.push(112);
    v.push(97);
    v.push(116);
    v.push(104);
    v.push(115);
    assert(v@ =~= key_list_paths());
    v
}

/// The bytes of `ignore_paths`.
fn key_ignore_paths_vec() -> (r: Vec<u8>)
    ensures
        r@ == key_ignore_paths(),
{
    let mut v: Vec<u8> = Vec::new();
    v.push(105);
    v.push(103);
    v.push(110);
    v.push(111);
    v.push(114);
    v.push(101);
    v.push(95);
    v.push(112);
    v.push(97);
    v.push(116);
    v.push(104);
    v.push(115);
    assert(v@ =~= key_ignore_paths());
    v
}

/// The bytes of `root`.
fn key_root_vec() -> (r: Vec<u8>)
    ensures
        r@ == key_root(),
{
    let mut v: Vec<u8> = Vec::new();
    v.push(114);
    v.push(111);
    v.push(111);
    v.push(116);
    assert(v@ =~= key_root());
    v
}

/// Splits `value` at its commas, trims each element, and appends them all
/// to `list`.
fn push_split_trim(list: &mut Vec<Vec<u8>>, value: &Vec<u8>)
    ensures
        final(list).deep_view() == old(list).deep_view() + split_trim(value@),
{
    let ghost orig = list.deep_view();
    let ghost mut added: Seq<Seq<u8>> = Seq::empty();
    let mut p: usize = 0;
    proof {
        assert(value@.skip(0) =~= value@);
        assert(Seq::<Seq<u8>>::empty() + split_trim(value@) =~= split_trim(value@));
        assert(orig + Seq::<Seq<u8>>::empty() =~= orig);
    }
    loop
        invariant_except_break
            p <= value@.len(),
            list.deep_view() == orig + added,
            added + split_trim(value@.skip(p as int)) == split_trim(value@),
        ensures
            list.deep_view() == orig + split_trim(value@),
        decreases value@.len() - p,
    {
        let ghost rest = value@.skip(p as int);
        let mut e: usize = p;
        while e < value.len() && value[e] != COMMA
            invariant
                p <= e <= value@.len(),
                forall|j: int| p <= j < e ==> value@[j] != COMMA,
            decreases value@.len() - e,
        {
            e += 1;
        }
        proof {
            assert forall|j: int| 0 <= j < e - p implies rest[j] != COMMA by {
                assert(rest[j] == value@[p + j]);
            }
            if e < value@.len() {
                assert(rest[e - p] == value@[e as int]);
            }
            lemma_first_index_is(rest, COMMA, e - p);
        }
        let piece_raw = copy_range(value, p, e);
        let piece = trim(&piece_raw);
        let ghost piecev = piece@;
        proof {
            assert(piece.deep_view() =~= piecev);
        }
        let ghost pre_list = list.deep_view();
        list.push(piece);
        proof {
            assert(list.deep_view() =~= pre_list.push(piecev));
            added = added.push(piecev);
        }
        if e == value.len() {
            proof {
                assert(rest =~= value@.subrange(p as int, value@.len() as int));
                assert(piecev == trimmed(rest));
                assert(split_trim(rest) == seq![trimmed(rest)]);
                assert(added + split_trim(value@.skip(p as int)).subrange(
                    1,
                    split_trim(value@.skip(p as int)).len() as int,
                ) =~= added);
                assert(added =~= added.drop_last().push(piecev));
                assert(added.drop_last() + seq![piecev] =~= added);
                assert(added =~= split_trim(value@));
            }
            break;
        } else {
            proof {
                assert(rest.take(e - p) =~= value@.subrange(p as int, e as int));
                assert(rest.skip(e - p + 1) =~= value@.skip(e + 1));
                assert(split_trim(rest) == seq![piecev] + split_trim(value@.skip(e + 1)));
                assert(added.drop_last() + (seq![piecev] + split_trim(value@.skip(e + 1))) =~= (
                added.drop_last().push(piecev)) + split_trim(value@.skip(e + 1)));
                assert(added.drop_last().push(piecev) =~= added);
            }
            p = e + 1;
        }
    }
}

/// Applies one configuration line to the configuration read so far.
fn apply_config_line(cfg: Config, line: &Vec<u8>) -> (r: Result<Config, ConfigError>)
    ensures
        r matches Ok(c) ==> apply_line(cfg@, line@) == Ok::<ConfigV, ConfigErrorV>(c@),
        r matches Err(e) ==> apply_line(cfg@, line@) == Err::<ConfigV, ConfigErrorV>(e@),
{
    let n = line.len();
    proof {
        lemma_first_index(line@, EQUALS);
        assert(first_index(line@, EQUALS) <= n);
    }
    let ghost cfg0 = cfg@;
    let fb = find_byte(line, EQUALS);
    match fb {
        Some(k) => {
            proof {
                if first_index(line@, EQUALS) == line@.len() {
                    assert(fb is None);
                }
                assert(first_index(line@, EQUALS) < line@.len());
                assert(fb == Some(first_index(line@, EQUALS) as usize));
                assert(k == first_index(line@, EQUALS));
                assert(k < line@.len());
            }
            let key_raw = copy_range(line, 0, k);
            let key = trim(&key_raw);
            proof {
                assert(line@.take(k as int) =~= line@.subrange(0, k as int));
                assert(key@ == trimmed(line@.take(k as int)));
            }
            let value = suffix_from(line, k + 1);
            let mut cfg = cfg;
            if crate::bytes::eq_bytes(&key, &key_default_subdir_vec()) {
                cfg.default_subdir = trim(&value);
                Ok(cfg)
            } else if crate::bytes::eq_bytes(&key, &key_files_path_vec()) {
                cfg.files_path = trim(&value);
                Ok(cfg)
            } else if crate::bytes::eq_bytes(&key, &key_list_paths_vec()) {
                push_split_trim(&mut cfg.list_paths, &value);
                Ok(cfg)
            } else if crate::bytes::eq_bytes(&key, &key_ignore_paths_vec()) {
                push_split_trim(&mut cfg.ignore_paths, &value);
                Ok(cfg)
            } else if crate::bytes::eq_bytes(&key, &key_root_vec()) {
                cfg.root = true;
                Ok(cfg)
            } else {
                Err(ConfigError::UnknownEntry(key))
            }
        },
        None => {
            let t = trim(line);
            if crate::bytes::eq_bytes(&t, &key_root_vec()) {
                let mut cfg = cfg;
                cfg.root = true;
                Ok(cfg)
            } else {
                Err(ConfigError::UnknownKey(t))
            }
        },
    }
}

/// Reads a configuration out of the text of its file: one `key = value`
/// assignment per line, a bare `root` line allowed, anything else refused,
/// and a non-empty `default_subdir` demanded.
pub fn parse_config(text: &Vec<u8>) -> (r: Result<Config, ConfigError>)
    ensures
        r matches Ok(c) ==> spec_parse_config(text@) == Ok::<ConfigV, ConfigErrorV>(c@),
        r matches Err(e) ==> spec_parse_config(text@) == Err::<ConfigV, ConfigErrorV>(e@),
{
    let mut cfg = Config {
        default_subdir: Vec::new(),
        files_path: Vec::new(),
        list_paths: Vec::new(),
        ignore_paths: Vec::new(),
        root: false,
    };
    proof {
        assert(cfg@.default_subdir =~= ConfigV::init().default_subdir);
        assert(cfg@.files_path =~= ConfigV::init().files_path);
        assert(cfg@.list_paths =~= ConfigV::init().list_paths);
        assert(cfg@.ignore_paths =~= ConfigV::init().ignore_paths);
        assert(cfg@ == ConfigV::init());
        assert(text@.skip(0) =~= text@);
    }
    let mut pos: usize = 0;
    while pos < text.len()
        invariant
            pos <= text@.len(),
            parse_lines(ConfigV::init(), split_lines(text@)) == parse_lines(
                cfg@,
                split_lines(text@.skip(pos as int)),
            ),
        decreases text@.len() - pos,
    {
        let ghost rest = text@.skip(pos as int);
        let mut e: usize = pos;
        while e < text.len() && text[e] != NL
            invariant
                pos <= e <= text@.len(),
                forall|j: int| pos <= j < e ==> text@[j] != NL,
            decreases text@.len() - e,
        {
            e += 1;
        }
        proof {
            assert forall|j: int| 0 <= j < e - pos implies rest[j] != NL by {
                assert(rest[j] == text@[pos + j]);
            }
            if e < text@.len() {
                assert(rest[e - pos] == text@[e as int]);
            }
            lemma_first_index_is(rest, NL, e - pos);
        }
        let mut line_end = e;
        if line_end > pos && text[line_end - 1] == CR {
            line_end -= 1;
        }
        let line = copy_range(text, pos, line_end);
        let next_pos = if e < text.len() {
            e + 1
        } else {
            e
        };
        proof {
            let lines = split_lines(rest);
            if e < text@.len() {
                assert(rest.take(e - pos) =~= text@.subrange(pos as int, e as int));
                assert(strip_cr(rest.take(e - pos)) =~= line@);
                assert(rest.skip(e - pos + 1) =~= text@.skip(next_pos as int));
                assert(lines == seq![line@] + split_lines(text@.skip(next_pos as int)));
            } else {
                assert(rest =~= text@.subrange(pos as int, e as int));
                assert(strip_cr(rest) =~= line@);
                assert(text@.skip(next_pos as int) =~= Seq::<u8>::empty());
                assert(split_lines(text@.skip(next_pos as int)) =~= Seq::<Seq<u8>>::empty());
                assert(lines =~= seq![line@] + split_lines(text@.skip(next_pos as int)));
            }
            assert(lines[0] == line@);
            assert(lines.subrange(1, lines.len() as int) =~= split_lines(
                text@.skip(next_pos as int),
            ));
        }
        match apply_config_line(cfg, &line) {
            Ok(c2) => {
                cfg = c2;
            },
            Err(err) => {
                return Err(err);
            },
        }
        pos = next_pos;
    }
    proof {
        assert(text@.skip(pos as int) =~= Seq::<u8>::empty());
        assert(split_lines(Seq::<u8>::empty()) =~= Seq::<Seq<u8>>::empty());
    }
    if cfg.default_subdir.len() == 0 {
        Err(ConfigError::MissingDefaultSubdir)
    } else {
        Ok(cfg)
    }
}

/// The meaning of an answer to a yes-or-no question: `y`, `Y`, `yes` and
/// `Yes` say yes, `n`, `N`, `no` and `No` say no, anything else says
/// nothing and the question must be asked again.
pub open spec fn spec_parse_answer(s: Seq<u8>) -> Option<bool> {
    let t = trimmed(s);
    if t == seq![121u8] || t == seq![89u8] || t == seq![121u8, 101u8, 115u8] || t == seq![
        89u8,
        101u8,
        115u8,
    ] {
        Some(true)
    } else if t == seq![110u8] || t == seq![78u8] || t == seq![110u8, 111u8] || t == seq![
        78u8,
        111u8,
    ] {
        Some(false)
    } else {
        None
    }
}

/// Reads an answer to a yes-or-no question.
pub fn parse_answer(answer: &Vec<u8>) -> (r: Option<bool>)
    ensures
        r == spec_parse_answer(answer@),
{
    let t = trim(answer);
    if t.len() == 1 {
        if t[0] == 121 || t[0] == 89 {
            proof {
                if t@[0] == 121 {
                    assert(t@ =~= seq![121u8]);
                } else {
                    assert(t@ =~= seq![89u8]);
                }
            }
            Some(true)
        } else if t[0] == 110 || t[0] == 78 {
            proof {
                if t@[0] == 110 {
                    assert(t@ =~= seq![110u8]);
                } else {
                    assert(t@ =~= seq![78u8]);
                }
            }
            Some(false)
        } else {
            None
        }
    } else if t.len() == 2 {
        if (t[0] == 110 || t[0] == 78) && t[1] == 111 {
            proof {
                if t@[0] == 110 {
                    assert(t@ =~= seq![110u8, 111u8]);
                } else {
                    assert(t@ =~= seq![78u8, 111u8]);
                }
            }
            Some(false)
        } else {
            None
        }
    } else if t.len() == 3 {
        if (t[0] == 121 || t[0] == 89) && t[1] == 101 && t[2] == 115 {
            proof {
                if t@[0] == 121 {
                    assert(t@ =~= seq![121u8, 101u8, 115u8]);
                } else {
                    assert(t@ =~= seq![89u8, 101u8, 115u8]);
                }
            }
            Some(true)
        } else {
            None
        }
    } else {
        None
    }
}

} // verus!
