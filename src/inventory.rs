//! The module inventory: which modules of the metadata directory are enabled.
use vstd::prelude::*;
use crate::text::{text_eq, text_lt, seq_lt, lemma_seq_lt_trans, lemma_seq_lt_total, lemma_seq_lt_asym};
use crate::config::{ModeTable, last_mode, auto_mode};

verus! {

/// An enabled module.
#[derive(Debug, Clone)]
pub struct Module {
    pub id: String,
    pub source_path: String,
    /// `auto`, `magic`, `overlay`, or another override value.
    pub mode: String,
}

/// An entry of the metadata directory, with the marker files found directly in it.
#[derive(Debug)]
pub struct ModuleDirEntry {
    pub name: String,
    pub path: String,
    pub is_dir: bool,
    pub has_disable: bool,
    pub has_remove: bool,
    pub has_skip_mount: bool,
}

/// Names that are never modules.
pub open spec fn reserved_id(id: Seq<char>) -> bool {
    id == "meta-hybrid"@ || id == "lost+found"@ || id == ".git"@
}

/// Whether an entry is an enabled module: a directory with no reserved name and none of
/// the markers `disable`, `remove`, `skip_mount`.
pub open spec fn enabled(e: ModuleDirEntry) -> bool {
    e.is_dir && !reserved_id(e.name@) && !e.has_disable && !e.has_remove && !e.has_skip_mount
}

/// The mode of `id` in the overrides, or `auto`.
pub open spec fn mode_or_auto(modes: ModeTable, id: Seq<char>) -> Seq<char> {
    match last_mode(modes.entries@, id) {
        Some(m) => m,
        None => auto_mode(),
    }
}

/// Whether module `m` is what entry `e` gives.
pub open spec fn from_entry(m: Module, e: ModuleDirEntry, modes: ModeTable) -> bool {
    m.id@ == e.name@ && m.source_path@ == e.path@ && m.mode@ == mode_or_auto(modes, e.name@)
}

/// Descending by id.
pub open spec fn sorted_desc(s: Seq<Module>) -> bool {
    forall|a: int, b: int| 0 <= a < b < s.len() ==> !seq_lt(s[a].id@, s[b].id@)
}

/// Whether `m` is what some enabled entry among the first `n` gives.
pub open spec fn from_some_entry(m: Module, entries: Seq<ModuleDirEntry>, n: int, modes: ModeTable) -> bool {
    exists|j: int| #![trigger entries[j]] 0 <= j < n && enabled(entries[j]) && from_entry(m, entries[j], modes)
}

/// Whether some module of `out` is what entry `e` gives.
pub open spec fn listed(out: Seq<Module>, e: ModuleDirEntry, modes: ModeTable) -> bool {
    exists|k: int| #![trigger out[k]] 0 <= k < out.len() && from_entry(out[k], e, modes)
}

/// Each module is what some enabled entry among the first `n` gives.
pub open spec fn each_from_entry(out: Seq<Module>, entries: Seq<ModuleDirEntry>, n: int, modes: ModeTable) -> bool {
    forall|k: int| 0 <= k < out.len() ==> #[trigger] from_some_entry(out[k], entries, n, modes)
}

/// Each enabled entry among the first `n` gives some module.
pub open spec fn each_entry_listed(out: Seq<Module>, entries: Seq<ModuleDirEntry>, n: int, modes: ModeTable) -> bool {
    forall|j: int| 0 <= j < n && enabled(entries[j]) ==> #[trigger] listed(out, entries[j], modes)
}

/// Taking in one more entry that is not enabled keeps both relations.
proof fn lemma_extend_range(out: Seq<Module>, entries: Seq<ModuleDirEntry>, n: int, modes: ModeTable)
    requires
        0 <= n < entries.len(),
        !enabled(entries[n]),
        each_from_entry(out, entries, n, modes),
        each_entry_listed(out, entries, n, modes),
    ensures
        each_from_entry(out, entries, n + 1, modes),
        each_entry_listed(out, entries, n + 1, modes),
{
    assert forall|t: int| 0 <= t < out.len() implies #[trigger] from_some_entry(out[t], entries, n + 1, modes) by {
        assert(from_some_entry(out[t], entries, n, modes));
        let j = choose|j: int| #![trigger entries[j]] 0 <= j < n && enabled(entries[j]) && from_entry(out[t], entries[j], modes);
        assert(0 <= j < n + 1 && enabled(entries[j]) && from_entry(out[t], entries[j], modes));
    }
    assert forall|j: int| 0 <= j < n + 1 && enabled(entries[j]) implies #[trigger] listed(out, entries[j], modes) by {
        assert(j < n);
    }
}

/// Strictly descending by id: no id twice.
pub open spec fn strictly_desc(s: Seq<Module>) -> bool {
    forall|a: int, b: int| 0 <= a < b < s.len() ==> seq_lt(s[b].id@, s[a].id@)
}

/// Whether the entries have pairwise distinct names, as a directory listing does.
pub open spec fn distinct_names(entries: Seq<ModuleDirEntry>) -> bool {
    forall|a: int, b: int| 0 <= a < b < entries.len() ==> entries[a].name@ != entries[b].name@
}

/// Whether an entry is an enabled module.
pub fn is_enabled(e: &ModuleDirEntry) -> (r: bool)
    ensures
        r == enabled(*e),
{
    proof {
        reveal_strlit("meta-hybrid");
        reveal_strlit("lost+found");
        reveal_strlit(".git");
    }
    let n = e.name.as_str();
    e.is_dir && !(text_eq(n, "meta-hybrid") || text_eq(n, "lost+found") || text_eq(n, ".git"))
        && !e.has_disable && !e.has_remove && !e.has_skip_mount
}

/// Inserts `m` into a list sorted in descending order of id, keeping it sorted.
/// Returns the position where `m` went.
fn insert_sorted(out: &mut Vec<Module>, m: Module) -> (k: usize)
    requires
        sorted_desc(old(out)@),
    ensures
        k <= old(out)@.len(),
        final(out)@ == old(out)@.insert(k as int, m),
        sorted_desc(final(out)@),
        strictly_desc(old(out)@) && (forall|t: int| 0 <= t < old(out)@.len() ==> old(out)@[t].id@ != m.id@)
            ==> strictly_desc(final(out)@),
{
    let mut k: usize = 0;
    while k < out.len() && !text_lt(out[k].id.as_str(), m.id.as_str())
        invariant
            k <= out@.len(),
            forall|t: int| 0 <= t < k ==> !seq_lt(#[trigger] out@[t].id@, m.id@),
        decreases out@.len() - k,
    {
        k = k + 1;
    }
    let ghost before = out@;
    let ghost mm = m;
    out.insert(k, m);
    proof {
        assert forall|a: int, b: int| 0 <= a < b < out@.len() implies !seq_lt(out@[a].id@, out@[b].id@) by {
            if a < k && b == k {
            } else if a < k && b > k {
                assert(out@[b] == before[b - 1]);
                assert(!seq_lt(before[a].id@, before[b - 1].id@));
            } else if a == k && b > k {
                assert(out@[b] == before[b - 1]);
                assert(seq_lt(before[k as int].id@, mm.id@));
                if b - 1 > k {
                    assert(!seq_lt(before[k as int].id@, before[b - 1].id@));
                    lemma_seq_lt_total(before[k as int].id@, before[b - 1].id@);
                    if seq_lt(before[b - 1].id@, before[k as int].id@) {
                        lemma_seq_lt_trans(before[b - 1].id@, before[k as int].id@, mm.id@);
                    }
                }
                lemma_seq_lt_asym(before[b - 1].id@, mm.id@);
            } else if a > k {
                assert(out@[a] == before[a - 1]);
                assert(out@[b] == before[b - 1]);
            }
        }
        if strictly_desc(before) && (forall|t: int| 0 <= t < before.len() ==> before[t].id@ != mm.id@) {
            assert forall|a: int, b: int| 0 <= a < b < out@.len() implies seq_lt(out@[b].id@, out@[a].id@) by {
                if a < k && b == k {
                    assert(out@[a] == before[a]);
                    assert(!seq_lt(before[a].id@, mm.id@));
                    lemma_seq_lt_total(before[a].id@, mm.id@);
                } else if a < k && b > k {
                    assert(out@[a] == before[a]);
                    assert(out@[b] == before[b - 1]);
                } else if a == k && b > k {
                    assert(out@[b] == before[b - 1]);
                    assert(seq_lt(before[k as int].id@, mm.id@));
                    if b - 1 > k {
                        assert(seq_lt(before[b - 1].id@, before[k as int].id@));
                        lemma_seq_lt_trans(before[b - 1].id@, before[k as int].id@, mm.id@);
                    }
                } else if b < k {
                    assert(out@[a] == before[a]);
                    assert(out@[b] == before[b]);
                } else {
                    assert(out@[a] == before[a - 1]);
                    assert(out@[b] == before[b - 1]);
                }
            }
        }
    }
    k
}

/// The enabled modules among the entries of the metadata directory, each with its mode
/// override or `auto`, in descending order of id.
pub fn scan(entries: &Vec<ModuleDirEntry>, modes: &ModeTable) -> (r: Vec<Module>)
    ensures
        sorted_desc(r@),
        distinct_names(entries@) ==> strictly_desc(r@),
        each_from_entry(r@, entries@, entries@.len() as int, *modes),
        each_entry_listed(r@, entries@, entries@.len() as int, *modes),
{
    let mut out: Vec<Module> = Vec::new();
    let mut i: usize = 0;
    while i < entries.len()
        invariant
            i <= entries@.len(),
            sorted_desc(out@),
            distinct_names(entries@) ==> strictly_desc(out@),
            each_from_entry(out@, entries@, i as int, *modes),
            each_entry_listed(out@, entries@, i as int, *modes),
        decreases entries@.len() - i,
    {
        let e = &entries[i];
        let ghost before = out@;
        if is_enabled(e) {
            let m = Module { id: e.name.clone(), source_path: e.path.clone(), mode: modes.mode_for(e.name.as_str()) };
            let ghost mm = m;
            proof {
                if distinct_names(entries@) {
                    assert forall|t: int| 0 <= t < out@.len() implies out@[t].id@ != mm.id@ by {
                        assert(from_some_entry(out@[t], entries@, i as int, *modes));
                        let j = choose|j: int| #![trigger entries@[j]] 0 <= j < i && enabled(entries@[j]) && from_entry(out@[t], entries@[j], *modes);
                        assert(entries@[j].name@ != entries@[i as int].name@);
                    }
                }
            }
            let k = insert_sorted(&mut out, m);
            proof {
                assert(from_entry(mm, entries@[i as int], *modes));
                assert forall|t: int| 0 <= t < out@.len() implies #[trigger] from_some_entry(out@[t], entries@, i + 1, *modes) by {
                    if t < k {
                        assert(out@[t] == before[t]);
                        assert(from_some_entry(before[t], entries@, i as int, *modes));
                        let j = choose|j: int| #![trigger entries@[j]] 0 <= j < i && enabled(entries@[j]) && from_entry(before[t], entries@[j], *modes);
                        assert(0 <= j < i + 1 && enabled(entries@[j]) && from_entry(out@[t], entries@[j], *modes));
                    } else if t > k {
                        assert(out@[t] == before[t - 1]);
                        assert(from_some_entry(before[t - 1], entries@, i as int, *modes));
                        let j = choose|j: int| #![trigger entries@[j]] 0 <= j < i && enabled(entries@[j]) && from_entry(before[t - 1], entries@[j], *modes);
                        assert(0 <= j < i + 1 && enabled(entries@[j]) && from_entry(out@[t], entries@[j], *modes));
                    } else {
                        assert(0 <= i < i + 1 && enabled(entries@[i as int]) && from_entry(out@[t], entries@[i as int], *modes));
                    }
                }
                assert forall|j: int| 0 <= j < i + 1 && enabled(entries@[j]) implies #[trigger] listed(out@, entries@[j], *modes) by {
                    if j < i {
                        assert(listed(before, entries@[j], *modes));
                        let t = choose|t: int| #![trigger before[t]] 0 <= t < before.len() && from_entry(before[t], entries@[j], *modes);
                        if t < k {
                            assert(out@[t] == before[t]);
                            assert(0 <= t < out@.len() && from_entry(out@[t], entries@[j], *modes));
                        } else {
                            assert(out@[t + 1] == before[t]);
                            assert(0 <= t + 1 < out@.len() && from_entry(out@[t + 1], entries@[j], *modes));
                        }
                    } else {
                        assert(0 <= k < out@.len() && from_entry(out@[k as int], entries@[j], *modes));
                    }
                }
            }
        } else {
            proof {
                lemma_extend_range(out@, entries@, i as int, *modes);
            }
        }
        i = i + 1;
    }
    out
}

} // verus!
