//! Module listing for the status interface, and the description line of `module.prop`.
use vstd::prelude::*;
use vstd::string::*;
use crate::text::{text_lines, lines_of, has_prefix, is_prefix, seq_lt, text_lt, lemma_seq_lt_trans,
    lemma_seq_lt_total, lemma_seq_lt_asym};
use crate::text::views;
use crate::overlay::joined;

verus! {

/// Whether `line` sets `key`: it starts with `key` followed by `=`.
pub open spec fn sets_key(line: Seq<char>, key: Seq<char>) -> bool {
    is_prefix(key, line) && line.len() > key.len() && line[key.len() as int] == '='
}

/// The value of the first line of `lines` that sets `key`.
pub open spec fn prop_in(lines: Seq<Seq<char>>, key: Seq<char>) -> Option<Seq<char>>
    decreases lines.len(),
{
    if lines.len() == 0 {
        None
    } else if sets_key(lines[0], key) {
        Some(lines[0].subrange(key.len() as int + 1, lines[0].len() as int))
    } else {
        prop_in(lines.drop_first(), key)
    }
}

/// Reads `key` from the text of a `module.prop` file.
pub fn read_prop(text: &str, key: &str) -> (r: Option<String>)
    ensures
        match r {
            Some(v) => prop_in(lines_of(text@), key@) == Some(v@),
            None => prop_in(lines_of(text@), key@) is None,
        },
{
    let lines = text_lines(text);
    let ghost ls = lines_of(text@);
    let m = key.unicode_len();
    let mut i: usize = 0;
    assert(ls.subrange(0, ls.len() as int) =~= ls);
    while i < lines.len()
        invariant
            views(lines@) == ls,
            ls == lines_of(text@),
            m == key@.len(),
            i <= lines@.len(),
            prop_in(ls, key@) == prop_in(ls.subrange(i as int, ls.len() as int), key@),
        decreases lines@.len() - i,
    {
        let ghost rest = ls.subrange(i as int, ls.len() as int);
        assert(rest.drop_first() =~= ls.subrange(i + 1, ls.len() as int));
        assert(rest[0] == lines@[i as int]@);
        let line = lines[i].as_str();
        let n = line.unicode_len();
        if has_prefix(line, key) && n > m && line.get_char(m) == '=' {
            assert(sets_key(rest[0], key@));
            assert(prop_in(rest, key@) == Some(rest[0].subrange(key@.len() as int + 1, rest[0].len() as int)));
            return Some(String::from_str(line.substring_char(m + 1, n)));
        }
        i = i + 1;
    }
    None
}

/// What the status interface lists of a module.
#[derive(Debug, Clone)]
pub struct ModuleInfo {
    pub id: String,
    pub name: String,
    pub version: String,
    pub author: String,
    pub description: String,
    pub mode: String,
}

fn prop_or(text: &Option<String>, key: &str, fallback: &String) -> (r: String)
    ensures
        r@ == match text {
            Some(t) => match prop_in(lines_of(t@), key@) {
                Some(v) => v,
                None => fallback@,
            },
            None => fallback@,
        },
{
    match text {
        Some(t) => match read_prop(t.as_str(), key) {
            Some(v) => v,
            None => fallback.clone(),
        },
        None => fallback.clone(),
    }
}

/// The value of `key` in the optional `module.prop` text, or `fallback`.
pub open spec fn prop_value(text: Option<String>, key: Seq<char>, fallback: Seq<char>) -> Seq<char> {
    match text {
        Some(t) => match prop_in(lines_of(t@), key) {
            Some(v) => v,
            None => fallback,
        },
        None => fallback,
    }
}

/// The listing entry of a module from its `module.prop` text, where it has one: the name
/// defaults to the id, the other fields to empty.
pub fn module_info(id: &String, prop_text: &Option<String>, mode: &String) -> (r: ModuleInfo)
    ensures
        r.id@ == id@,
        r.name@ == prop_value(*prop_text, "name"@, id@),
        r.version@ == prop_value(*prop_text, "version"@, Seq::<char>::empty()),
        r.author@ == prop_value(*prop_text, "author"@, Seq::<char>::empty()),
        r.description@ == prop_value(*prop_text, "description"@, Seq::<char>::empty()),
        r.mode@ == mode@,
{
    let empty = String::new();
    ModuleInfo {
        id: id.clone(),
        name: prop_or(prop_text, "name", id),
        version: prop_or(prop_text, "version", &empty),
        author: prop_or(prop_text, "author", &empty),
        description: prop_or(prop_text, "description", &empty),
        mode: mode.clone(),
    }
}

/// Ascending by name.
pub open spec fn sorted_by_name(s: Seq<ModuleInfo>) -> bool {
    forall|a: int, b: int| 0 <= a < b < s.len() ==> !seq_lt(s[b].name@, s[a].name@)
}

/// Whether `x` is one of the entries of `s`.
pub open spec fn among(s: Seq<ModuleInfo>, x: ModuleInfo) -> bool {
    exists|k: int| #![trigger s[k]] 0 <= k < s.len() && s[k] == x
}

fn insert_by_name(out: &mut Vec<ModuleInfo>, m: ModuleInfo) -> (k: usize)
    requires
        sorted_by_name(old(out)@),
    ensures
        k <= old(out)@.len(),
        final(out)@ == old(out)@.insert(k as int, m),
        sorted_by_name(final(out)@),
{
    let mut k: usize = 0;
    while k < out.len() && !text_lt(m.name.as_str(), out[k].name.as_str())
        invariant
            k <= out@.len(),
            forall|t: int| 0 <= t < k ==> !seq_lt(m.name@, #[trigger] out@[t].name@),
        decreases out@.len() - k,
    {
        k = k + 1;
    }
    let ghost before = out@;
    let ghost mm = m;
    out.insert(k, m);
    proof {
        assert forall|a: int, b: int| 0 <= a < b < out@.len() implies !seq_lt(out@[b].name@, out@[a].name@) by {
            if a < k && b == k {
                assert(out@[a] == before[a]);
                assert(out@[b] == mm);
                assert(!seq_lt(mm.name@, before[a].name@));
            } else if a < k && b > k {
                assert(out@[a] == before[a]);
                assert(out@[b] == before[b - 1]);
                assert(!seq_lt(before[b - 1].name@, before[a].name@));
            } else if a == k && b > k {
                assert(out@[a] == mm);
                assert(out@[b] == before[b - 1]);
                let nk = before[k as int].name@;
                let nb = before[b - 1].name@;
                assert(seq_lt(mm.name@, nk));
                if b - 1 > k {
                    assert(!seq_lt(nb, nk));
                    lemma_seq_lt_total(nb, nk);
                    if seq_lt(nk, nb) {
                        lemma_seq_lt_trans(mm.name@, nk, nb);
                    } else {
                        assert(nk == nb);
                    }
                }
                assert(seq_lt(mm.name@, nb));
                lemma_seq_lt_asym(mm.name@, nb);
                assert(!seq_lt(nb, mm.name@));
            } else if b < k {
                assert(out@[a] == before[a]);
                assert(out@[b] == before[b]);
                assert(!seq_lt(before[b].name@, before[a].name@));
            } else {
                assert(a > k);
                assert(out@[a] == before[a - 1]);
                assert(out@[b] == before[b - 1]);
                assert(!seq_lt(before[b - 1].name@, before[a - 1].name@));
            }
        }
    }
    k
}

/// Sorts the listing by name: the result is in ascending order of name, as long as the
/// input, and holds exactly the entries of the input.
pub fn sort_by_name(infos: Vec<ModuleInfo>) -> (r: Vec<ModuleInfo>)
    ensures
        sorted_by_name(r@),
        r@.len() == infos@.len(),
        forall|k: int| 0 <= k < r@.len() ==> #[trigger] among(infos@, r@[k]),
        forall|i: int| 0 <= i < infos@.len() ==> #[trigger] among(r@, infos@[i]),
{
    let mut out: Vec<ModuleInfo> = Vec::new();
    let mut i: usize = 0;
    let n = infos.len();
    let mut rest = infos;
    let ghost all = rest@;
    while rest.len() > 0
        invariant
            rest@.len() + out@.len() == all.len(),
            rest@ == all.subrange(out@.len() as int, all.len() as int),
            sorted_by_name(out@),
            forall|k: int| 0 <= k < out@.len() ==> #[trigger] among(all, out@[k]),
            forall|j: int| 0 <= j < out@.len() ==> #[trigger] among(out@, all[j]),
        decreases rest@.len(),
    {
        let ghost before = out@;
        let ghost r0 = rest@;
        let m = rest.remove(0);
        let ghost idx = before.len() as int;
        assert(m == all[idx]);
        let k = insert_by_name(&mut out, m);
        proof {
            assert(rest@ =~= all.subrange(out@.len() as int, all.len() as int));
            assert forall|t: int| 0 <= t < out@.len() implies #[trigger] among(all, out@[t]) by {
                if t < k {
                    assert(out@[t] == before[t]);
                    assert(among(all, before[t]));
                } else if t > k {
                    assert(out@[t] == before[t - 1]);
                    assert(among(all, before[t - 1]));
                } else {
                    assert(all[idx] == out@[t]);
                }
            }
            assert forall|j: int| 0 <= j < out@.len() implies #[trigger] among(out@, all[j]) by {
                if j < idx {
                    assert(among(before, all[j]));
                    let t = choose|t: int| #![trigger before[t]] 0 <= t < before.len() && before[t] == all[j];
                    if t < k {
                        assert(out@[t] == all[j]);
                    } else {
                        assert(out@[t + 1] == all[j]);
                    }
                } else {
                    assert(out@[k as int] == all[j]);
                }
            }
        }
    }
    assert(out@.len() == all.len());
    out
}

/// `line` with a `description=` line replaced by `desc`.
pub open spec fn with_description(line: Seq<char>, desc: Seq<char>) -> Seq<char> {
    if is_prefix("description="@, line) {
        desc
    } else {
        line
    }
}

/// The text of `module.prop` with every `description=` line replaced by `desc`, lines
/// joined with `\n`.
pub fn rewrite_description(text: &str, desc: &str) -> (r: String)
    ensures
        r@ == joined(lines_of(text@).map_values(|l: Seq<char>| with_description(l, desc@)), '\n'),
{
    let lines = text_lines(text);
    let ghost ls = lines_of(text@);
    let ghost f = |l: Seq<char>| with_description(l, desc@);
    let mut out = String::new();
    let mut i: usize = 0;
    proof {
        reveal_strlit("\n");
    }
    while i < lines.len()
        invariant
            views(lines@) == ls,
            ls == lines_of(text@),
            i <= lines@.len(),
            "\n"@ == seq!['\n'],
            f == (|l: Seq<char>| with_description(l, desc@)),
            out@ == joined(ls.subrange(0, i as int).map_values(f), '\n'),
        decreases lines@.len() - i,
    {
        let ghost parts = ls.subrange(0, i + 1).map_values(f);
        assert(parts.drop_last() =~= ls.subrange(0, i as int).map_values(f));
        assert(parts.last() == with_description(lines@[i as int]@, desc@));
        let line = lines[i].as_str();
        if i > 0 {
            out.append("\n");
        }
        if has_prefix(line, "description=") {
            out.append(desc);
        } else {
            out.append(line);
        }
        proof {
            if i == 0 {
                assert(ls.subrange(0, 0).map_values(f).len() == 0);
                assert(out@ =~= joined(parts, '\n'));
            } else {
                assert(out@ =~= joined(parts, '\n'));
            }
        }
        i = i + 1;
    }
    assert(ls.subrange(0, i as int) =~= ls);
    out
}

/// The decimal digits of `n`.
pub open spec fn decimal(n: nat) -> Seq<char>
    decreases n,
{
    if n < 10 {
        "0123456789"@.subrange(n as int, n as int + 1)
    } else {
        decimal(n / 10) + "0123456789"@.subrange((n % 10) as int, (n % 10) as int + 1)
    }
}

/// Writes `n` in decimal.
pub fn decimal_text(n: usize) -> (r: String)
    ensures
        r@ == decimal(n as nat),
    decreases n,
{
    proof {
        reveal_strlit("0123456789");
    }
    if n < 10 {
        String::from_str("0123456789".substring_char(n, n + 1))
    } else {
        let d = n % 10;
        decimal_text(n / 10).concat("0123456789".substring_char(d, d + 1))
    }
}

/// The `description=` line that reports a finished run.
pub open spec fn description_spec(storage_mode: Seq<char>, nuke_active: bool, overlay_count: nat, magic_count: nat) -> Seq<char> {
    let tmpfs = storage_mode == "tmpfs"@;
    "description=\u{1F60B} \u{8FD0}\u{884C}\u{4E2D}\u{55B5}\u{FF5E} ("@ + (if tmpfs {
        "Tmpfs"@
    } else {
        "Ext4"@
    }) + ") "@ + (if tmpfs {
        "\u{1F43E}"@
    } else {
        "\u{1F4BF}"@
    }) + " | Overlay: "@ + decimal(overlay_count) + " | Magic: "@ + decimal(magic_count) + (if nuke_active {
        " | \u{8089}\u{57AB}: \u{5F00}\u{542F} \u{2728}"@
    } else {
        ""@
    })
}

/// The `description=` line that reports the storage mode, the module counts of each
/// mount path, and whether the ext4 traces are hidden.
pub fn description_line(storage_mode: &str, nuke_active: bool, overlay_count: usize, magic_count: usize) -> (r: String)
    ensures
        r@ == description_spec(storage_mode@, nuke_active, overlay_count as nat, magic_count as nat),
{
    let tmpfs = crate::text::text_eq(storage_mode, "tmpfs");
    let mut out = String::from_str("description=\u{1F60B} \u{8FD0}\u{884C}\u{4E2D}\u{55B5}\u{FF5E} (");
    if tmpfs {
        out.append("Tmpfs");
    } else {
        out.append("Ext4");
    }
    out.append(") ");
    if tmpfs {
        out.append("\u{1F43E}");
    } else {
        out.append("\u{1F4BF}");
    }
    out.append(" | Overlay: ");
    let o = decimal_text(overlay_count);
    out.append(o.as_str());
    out.append(" | Magic: ");
    let m = decimal_text(magic_count);
    out.append(m.as_str());
    if nuke_active {
        out.append(" | \u{8089}\u{57AB}: \u{5F00}\u{542F} \u{2728}");
    } else {
        out.append("");
    }
    out
}

} // verus!
