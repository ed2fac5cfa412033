//! Configuration values and the module mode overrides.
use vstd::prelude::*;
use vstd::string::*;
use crate::text::{trim, trim_text, pieces, split_char, lines_of, text_lines, views, find_char, text_eq};

verus! {

/// Default location of the configuration file.
pub const CONFIG_FILE_DEFAULT: &'static str = "/data/adb/meta-hybrid/config.toml";

/// Location of the module mode overrides.
pub const MODULE_MODE_FILE: &'static str = "/data/adb/meta-hybrid/module_mode.conf";

/// The engine's configuration.
#[derive(Debug, Clone)]
pub struct Config {
    pub moduledir: String,
    pub tempdir: Option<String>,
    pub mountsource: String,
    pub verbose: bool,
    pub partitions: Vec<String>,
    /// Use the ext4 image even where tmpfs supports extended attributes.
    pub force_ext4: bool,
    /// Load the kernel module that hides ext4 traces.
    pub enable_nuke: bool,
}

pub open spec fn default_moduledir_spec() -> Seq<char> {
    "/data/adb/modules/"@
}

pub open spec fn default_mountsource_spec() -> Seq<char> {
    "HybridMount"@
}

pub fn default_moduledir() -> (r: String)
    ensures
        r@ == default_moduledir_spec(),
{
    String::from_str("/data/adb/modules/")
}

pub fn default_mountsource() -> (r: String)
    ensures
        r@ == default_mountsource_spec(),
{
    String::from_str("HybridMount")
}

impl Default for Config {
    fn default() -> (r: Self)
        ensures
            r.moduledir@ == default_moduledir_spec(),
            r.tempdir is None,
            r.mountsource@ == default_mountsource_spec(),
            !r.verbose,
            r.partitions@.len() == 0,
            !r.force_ext4,
            !r.enable_nuke,
    {
        Config {
            moduledir: default_moduledir(),
            tempdir: None,
            mountsource: default_mountsource(),
            verbose: false,
            partitions: Vec::new(),
            force_ext4: false,
            enable_nuke: false,
        }
    }
}

impl Config {
    /// Applies command-line values over the configuration: each given value replaces
    /// the configured one; `verbose` can only be switched on; an empty partition list
    /// keeps the configured one.
    pub fn merge_with_cli(
        &mut self,
        moduledir: Option<String>,
        tempdir: Option<String>,
        mountsource: Option<String>,
        verbose: bool,
        partitions: Vec<String>,
    )
        ensures
            final(self).moduledir == (match moduledir {
                Some(d) => d,
                None => old(self).moduledir,
            }),
            final(self).tempdir == (match tempdir {
                Some(t) => Some(t),
                None => old(self).tempdir,
            }),
            final(self).mountsource == (match mountsource {
                Some(s) => s,
                None => old(self).mountsource,
            }),
            final(self).verbose == (old(self).verbose || verbose),
            final(self).partitions == (if partitions@.len() > 0 {
                partitions
            } else {
                old(self).partitions
            }),
            final(self).force_ext4 == old(self).force_ext4,
            final(self).enable_nuke == old(self).enable_nuke,
    {
        if let Some(dir) = moduledir {
            self.moduledir = dir;
        }
        if tempdir.is_some() {
            self.tempdir = tempdir;
        }
        if let Some(source) = mountsource {
            self.mountsource = source;
        }
        if verbose {
            self.verbose = true;
        }
        if partitions.len() > 0 {
            self.partitions = partitions;
        }
    }
}

/// The trimmed pieces of a list, without the empty ones.
pub open spec fn clean_list(ps: Seq<Seq<char>>) -> Seq<Seq<char>>
    decreases ps.len(),
{
    if ps.len() == 0 {
        seq![]
    } else if trim(ps.last()).len() == 0 {
        clean_list(ps.drop_last())
    } else {
        clean_list(ps.drop_last()).push(trim(ps.last()))
    }
}

/// Reads a partition list written as one string: items separated by commas, each
/// trimmed, empty items dropped.
pub fn partitions_from_text(s: &str) -> (r: Vec<String>)
    ensures
        views(r@) == clean_list(pieces(s@, ',')),
{
    let parts = split_char(s, ',');
    let ghost ps = pieces(s@, ',');
    let mut out: Vec<String> = Vec::new();
    let mut i: usize = 0;
    assert(ps.subrange(0, 0) =~= Seq::<Seq<char>>::empty());
    assert(views(out@) =~= Seq::<Seq<char>>::empty());
    while i < parts.len()
        invariant
            views(parts@) == ps,
            i <= parts@.len(),
            views(out@) == clean_list(ps.subrange(0, i as int)),
        decreases parts@.len() - i,
    {
        let t = trim_text(parts[i].as_str());
        let ghost before = out@;
        assert(ps.subrange(0, i + 1).drop_last() =~= ps.subrange(0, i as int));
        assert(ps.subrange(0, i + 1).last() == parts@[i as int]@);
        if t.as_str().unicode_len() > 0 {
            out.push(t);
            assert(views(out@) =~= views(before).push(t@));
        }
        i = i + 1;
    }
    assert(ps.subrange(0, i as int) =~= ps);
    out
}

/// The characters of `s` in lower case, as `str::to_lowercase` gives them.
pub uninterp spec fn lower_of(s: Seq<char>) -> Seq<char>;

/// Relies on `str::to_lowercase`: the result depends on the characters alone.
#[verifier::external_body]
fn lowercase(s: &str) -> (r: String)
    ensures
        r@ == lower_of(s@),
{
    s.to_lowercase()
}

/// A line of the overrides file read as `id = mode`, before the mode is lowered: `None`
/// for a comment (first non-blank character `#`) or a line without `=`. The id and mode
/// are trimmed, split at the first `=`.
pub open spec fn mode_line(line: Seq<char>) -> Option<(Seq<char>, Seq<char>)> {
    if trim(line).len() > 0 && trim(line)[0] == '#' {
        None
    } else if exists|i: int| 0 <= i < line.len() && line[i] == '=' {
        let i = choose|i: int|
            0 <= i < line.len() && line[i] == '=' && forall|j: int| 0 <= j < i ==> line[j] != '=';
        Some((trim(line.subrange(0, i)), trim(line.subrange(i + 1, line.len() as int))))
    } else {
        None
    }
}

/// Reads one line of the overrides file; see `mode_line`.
pub fn parse_mode_line(line: &str) -> (r: Option<(String, String)>)
    ensures
        match r {
            Some((id, mode)) => mode_line(line@) == Some((id@, mode@)),
            None => mode_line(line@) is None,
        },
{
    let t = trim_text(line);
    if t.as_str().unicode_len() > 0 && t.as_str().get_char(0) == '#' {
        return None;
    }
    match find_char(line, '=') {
        Some(i) => {
            let n = line.unicode_len();
            let id = trim_text(line.substring_char(0, i));
            let mode = trim_text(line.substring_char(i + 1, n));
            proof {
                let k = choose|k: int|
                    0 <= k < line@.len() && line@[k] == '=' && forall|j: int|
                        0 <= j < k ==> line@[j] != '=';
                if k < i {
                } else if k > i {
                    assert(line@[i as int] == '=');
                }
                assert(k == i);
            }
            Some((id, mode))
        },
        None => None,
    }
}

/// One override: the module `id` runs in `mode`.
#[derive(Debug)]
pub struct ModeEntry {
    pub id: String,
    pub mode: String,
}

/// The module mode overrides, in the order they were read; a later entry for an id
/// overrides an earlier one.
#[derive(Debug)]
pub struct ModeTable {
    pub entries: Vec<ModeEntry>,
}

/// The mode of the last entry for `id`.
pub open spec fn last_mode(s: Seq<ModeEntry>, id: Seq<char>) -> Option<Seq<char>>
    decreases s.len(),
{
    if s.len() == 0 {
        None
    } else if s.last().id@ == id {
        Some(s.last().mode@)
    } else {
        last_mode(s.drop_last(), id)
    }
}

/// The mode that the lines give to `id`: that of the last line for it, lowered.
pub open spec fn mode_in_lines(lines: Seq<Seq<char>>, id: Seq<char>) -> Option<Seq<char>>
    decreases lines.len(),
{
    if lines.len() == 0 {
        None
    } else {
        match mode_line(lines.last()) {
            Some((k, v)) => if k == id {
                Some(lower_of(v))
            } else {
                mode_in_lines(lines.drop_last(), id)
            },
            None => mode_in_lines(lines.drop_last(), id),
        }
    }
}

pub open spec fn auto_mode() -> Seq<char> {
    seq!['a', 'u', 't', 'o']
}

impl ModeTable {
    pub fn new() -> (r: ModeTable)
        ensures
            r.entries@.len() == 0,
    {
        ModeTable { entries: Vec::new() }
    }

    /// The mode of module `id`: its override, or `auto`.
    pub fn mode_for(&self, id: &str) -> (r: String)
        ensures
            r@ == match last_mode(self.entries@, id@) {
                Some(m) => m,
                None => auto_mode(),
            },
    {
        let mut i: usize = self.entries.len();
        assert(self.entries@.subrange(0, i as int) =~= self.entries@);
        while i > 0
            invariant
                i <= self.entries@.len(),
                last_mode(self.entries@, id@) == last_mode(self.entries@.subrange(0, i as int), id@),
            decreases i,
        {
            let ghost pre = self.entries@.subrange(0, i as int);
            assert(pre.drop_last() =~= self.entries@.subrange(0, i - 1));
            if text_eq(self.entries[i - 1].id.as_str(), id) {
                return self.entries[i - 1].mode.clone();
            }
            i = i - 1;
        }
        proof {
            reveal_strlit("auto");
        }
        String::from_str("auto")
    }
}

/// Reads the module mode overrides: one `id = mode` per line, `#` comments, modes in
/// lower case.
pub fn parse_module_modes(text: &str) -> (r: ModeTable)
    ensures
        forall|id: Seq<char>| #[trigger] last_mode(r.entries@, id) == mode_in_lines(lines_of(text@), id),
{
    let lines = text_lines(text);
    let ghost ls = lines_of(text@);
    let mut entries: Vec<ModeEntry> = Vec::new();
    let mut i: usize = 0;
    assert(ls.subrange(0, 0) =~= Seq::<Seq<char>>::empty());
    while i < lines.len()
        invariant
            views(lines@) == ls,
            i <= lines@.len(),
            forall|id: Seq<char>|
                #[trigger] last_mode(entries@, id) == mode_in_lines(ls.subrange(0, i as int), id),
        decreases lines@.len() - i,
    {
        let ghost before = entries@;
        assert(ls.subrange(0, i + 1).drop_last() =~= ls.subrange(0, i as int));
        assert(ls.subrange(0, i + 1).last() == lines@[i as int]@);
        match parse_mode_line(lines[i].as_str()) {
            Some((id, raw)) => {
                let mode = lowercase(raw.as_str());
                let ghost e_id = id@;
                let ghost e_mode = mode@;
                entries.push(ModeEntry { id, mode });
                assert(entries@.drop_last() =~= before);
                assert forall|k: Seq<char>| #[trigger] last_mode(entries@, k) == mode_in_lines(
                    ls.subrange(0, i + 1),
                    k,
                ) by {
                    assert(last_mode(entries@, k) == if e_id == k {
                        Some(e_mode)
                    } else {
                        last_mode(before, k)
                    });
                }
            },
            None => {
                assert forall|k: Seq<char>| #[trigger] last_mode(entries@, k) == mode_in_lines(
                    ls.subrange(0, i + 1),
                    k,
                ) by {
                    assert(last_mode(entries@, k) == last_mode(before, k));
                }
            },
        }
        i = i + 1;
    }
    assert(ls.subrange(0, i as int) =~= ls);
    ModeTable { entries }
}

} // verus!
