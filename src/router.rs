//! Routing of modules between OverlayFS and magic mount.
use vstd::prelude::*;
use crate::text::{text_eq, views};

verus! {

/// A module synchronised into the staging mount.
#[derive(Debug)]
pub struct ActiveModule {
    pub id: String,
    /// Where the module's content lies under the staging mount.
    pub content_path: String,
    /// The module's mode: `auto`, `magic` or `overlay`.
    pub mode: String,
    /// The partitions for which `<content_path>/<partition>` is a directory.
    pub partition_dirs: Vec<String>,
}

/// The modules that make up the overlay of one partition, highest priority first.
#[derive(Debug)]
pub struct PartitionLayers {
    pub partition: String,
    pub modules: Vec<String>,
}

/// The result of routing: overlay layers for each partition, and the modules that go
/// to magic mount.
#[derive(Debug)]
pub struct Routing {
    pub overlay: Vec<PartitionLayers>,
    pub magic: Vec<String>,
}

pub open spec fn magic_mode() -> Seq<char> {
    seq!['m', 'a', 'g', 'i', 'c']
}

/// Whether module `m` has a directory for partition `p`.
pub open spec fn has_partition(m: ActiveModule, p: Seq<char>) -> bool {
    exists|j: int| 0 <= j < m.partition_dirs@.len() && #[trigger] m.partition_dirs@[j]@ == p
}

/// The content paths of the modules in magic mode, in order.
pub open spec fn magic_list(ms: Seq<ActiveModule>) -> Seq<Seq<char>>
    decreases ms.len(),
{
    if ms.len() == 0 {
        seq![]
    } else if ms.last().mode@ == magic_mode() {
        magic_list(ms.drop_last()).push(ms.last().content_path@)
    } else {
        magic_list(ms.drop_last())
    }
}

/// The content paths of the modules not in magic mode that have partition `p`, in order.
pub open spec fn overlay_list(ms: Seq<ActiveModule>, p: Seq<char>) -> Seq<Seq<char>>
    decreases ms.len(),
{
    if ms.len() == 0 {
        seq![]
    } else if ms.last().mode@ != magic_mode() && has_partition(ms.last(), p) {
        overlay_list(ms.drop_last(), p).push(ms.last().content_path@)
    } else {
        overlay_list(ms.drop_last(), p)
    }
}

fn module_has_partition(m: &ActiveModule, p: &str) -> (r: bool)
    ensures
        r == has_partition(*m, p@),
{
    let mut j: usize = 0;
    while j < m.partition_dirs.len()
        invariant
            j <= m.partition_dirs@.len(),
            forall|k: int| 0 <= k < j ==> #[trigger] m.partition_dirs@[k]@ != p@,
        decreases m.partition_dirs@.len() - j,
    {
        if text_eq(m.partition_dirs[j].as_str(), p) {
            return true;
        }
        j = j + 1;
    }
    false
}

/// Routes each module: one in magic mode goes to magic mount; any other joins the
/// overlay layers of every partition that it has a directory for. A module with
/// neither is in no list.
pub fn classify(modules: &Vec<ActiveModule>, partitions: &Vec<String>) -> (r: Routing)
    ensures
        views(r.magic@) == magic_list(modules@),
        r.overlay@.len() == partitions@.len(),
        forall|i: int|
            0 <= i < partitions@.len() ==> (#[trigger] r.overlay@[i]).partition@ == partitions@[i]@
                && views(r.overlay@[i].modules@) == overlay_list(modules@, partitions@[i]@),
{
    proof {
        reveal_strlit("magic");
    }
    let mut magic: Vec<String> = Vec::new();
    let mut k: usize = 0;
    assert(modules@.subrange(0, 0) =~= Seq::<ActiveModule>::empty());
    assert(views(magic@) =~= Seq::<Seq<char>>::empty());
    while k < modules.len()
        invariant
            k <= modules@.len(),
            "magic"@ == magic_mode(),
            views(magic@) == magic_list(modules@.subrange(0, k as int)),
        decreases modules@.len() - k,
    {
        let ghost before = magic@;
        assert(modules@.subrange(0, k + 1).drop_last() =~= modules@.subrange(0, k as int));
        if text_eq(modules[k].mode.as_str(), "magic") {
            magic.push(modules[k].content_path.clone());
            assert(views(magic@) =~= views(before).push(modules@[k as int].content_path@));
        }
        k = k + 1;
    }
    assert(modules@.subrange(0, modules@.len() as int) =~= modules@);
    let mut overlay: Vec<PartitionLayers> = Vec::new();
    let mut i: usize = 0;
    while i < partitions.len()
        invariant
            i <= partitions@.len(),
            "magic"@ == magic_mode(),
            overlay@.len() == i,
            forall|i2: int|
                0 <= i2 < i ==> (#[trigger] overlay@[i2]).partition@ == partitions@[i2]@
                    && views(overlay@[i2].modules@) == overlay_list(modules@, partitions@[i2]@),
        decreases partitions@.len() - i,
    {
        let p = partitions[i].as_str();
        let mut layers: Vec<String> = Vec::new();
        let mut k: usize = 0;
        assert(views(layers@) =~= Seq::<Seq<char>>::empty());
        while k < modules.len()
            invariant
                k <= modules@.len(),
                "magic"@ == magic_mode(),
                views(layers@) == overlay_list(modules@.subrange(0, k as int), p@),
            decreases modules@.len() - k,
        {
            let ghost before = layers@;
            assert(modules@.subrange(0, k + 1).drop_last() =~= modules@.subrange(0, k as int));
            if !text_eq(modules[k].mode.as_str(), "magic") && module_has_partition(&modules[k], p) {
                layers.push(modules[k].content_path.clone());
                assert(views(layers@) =~= views(before).push(modules@[k as int].content_path@));
            }
            k = k + 1;
        }
        assert(modules@.subrange(0, modules@.len() as int) =~= modules@);
        overlay.push(PartitionLayers { partition: partitions[i].clone(), modules: layers });
        i = i + 1;
    }
    Routing { overlay, magic }
}

/// Each module in the magic list is a module in magic mode.
pub proof fn lemma_magic_member(ms: Seq<ActiveModule>, x: Seq<char>)
    requires
        magic_list(ms).contains(x),
    ensures
        exists|i: int|
            0 <= i < ms.len() && (#[trigger] ms[i]).content_path@ == x && ms[i].mode@
                == magic_mode(),
    decreases ms.len(),
{
    let rest = ms.drop_last();
    if ms.last().mode@ == magic_mode() && ms.last().content_path@ == x {
        assert(ms[ms.len() - 1] == ms.last());
    } else {
        if ms.last().mode@ == magic_mode() {
            let k = choose|k: int| 0 <= k < magic_list(ms).len() && magic_list(ms)[k] == x;
            assert(magic_list(ms) == magic_list(rest).push(ms.last().content_path@));
            assert(k < magic_list(rest).len());
            assert(magic_list(rest).contains(x));
        }
        lemma_magic_member(rest, x);
        let i = choose|i: int|
            0 <= i < rest.len() && (#[trigger] rest[i]).content_path@ == x && rest[i].mode@
                == magic_mode();
        assert(ms[i] == rest[i]);
    }
}

/// Each module in the overlay list of a partition is a module not in magic mode that has
/// that partition.
pub proof fn lemma_overlay_member(ms: Seq<ActiveModule>, p: Seq<char>, x: Seq<char>)
    requires
        overlay_list(ms, p).contains(x),
    ensures
        exists|i: int|
            0 <= i < ms.len() && (#[trigger] ms[i]).content_path@ == x && ms[i].mode@
                != magic_mode() && has_partition(ms[i], p),
    decreases ms.len(),
{
    let rest = ms.drop_last();
    let here = ms.last().mode@ != magic_mode() && has_partition(ms.last(), p);
    if here && ms.last().content_path@ == x {
        assert(ms[ms.len() - 1] == ms.last());
    } else {
        if here {
            let k = choose|k: int| 0 <= k < overlay_list(ms, p).len() && overlay_list(ms, p)[k] == x;
            assert(overlay_list(ms, p) == overlay_list(rest, p).push(ms.last().content_path@));
            assert(k < overlay_list(rest, p).len());
            assert(overlay_list(rest, p).contains(x));
        }
        lemma_overlay_member(rest, p, x);
        let i = choose|i: int|
            0 <= i < rest.len() && (#[trigger] rest[i]).content_path@ == x && rest[i].mode@
                != magic_mode() && has_partition(rest[i], p);
        assert(ms[i] == rest[i]);
    }
}

/// Whether the modules have pairwise distinct content paths.
pub open spec fn distinct_paths(ms: Seq<ActiveModule>) -> bool {
    forall|i: int, j: int|
        0 <= i < ms.len() && 0 <= j < ms.len() && i != j ==> ms[i].content_path@
            != ms[j].content_path@
}

/// Before any fallback, no module is both in the overlay layers of a partition and in
/// the magic set.
pub proof fn routing_disjoint(ms: Seq<ActiveModule>, p: Seq<char>, x: Seq<char>)
    requires
        distinct_paths(ms),
        overlay_list(ms, p).contains(x),
    ensures
        !magic_list(ms).contains(x),
{
    lemma_overlay_member(ms, p, x);
    if magic_list(ms).contains(x) {
        lemma_magic_member(ms, x);
        let i = choose|i: int|
            0 <= i < ms.len() && (#[trigger] ms[i]).content_path@ == x && ms[i].mode@
                != magic_mode() && has_partition(ms[i], p);
        let j = choose|j: int|
            0 <= j < ms.len() && (#[trigger] ms[j]).content_path@ == x && ms[j].mode@
                == magic_mode();
        assert(i != j);
    }
}

/// Adds to the magic set every module of a partition whose overlay mount failed, each
/// once.
pub fn promote_failed(magic: &mut Vec<String>, failed: &Vec<String>)
    ensures
        views(final(magic)@).subrange(0, old(magic)@.len() as int) == views(old(magic)@),
        forall|x: Seq<char>|
            #[trigger] views(final(magic)@).contains(x) ==> views(old(magic)@).contains(x)
                || views(failed@).contains(x),
        forall|x: Seq<char>| #[trigger] views(failed@).contains(x) ==> views(final(magic)@).contains(x),
{
    let ghost start = views(magic@);
    let mut i: usize = 0;
    while i < failed.len()
        invariant
            i <= failed@.len(),
            views(magic@).len() >= start.len(),
            views(magic@).subrange(0, start.len() as int) == start,
            forall|x: Seq<char>|
                #[trigger] views(magic@).contains(x) ==> start.contains(x) || views(failed@).contains(x),
            forall|k: int| 0 <= k < i ==> views(magic@).contains(#[trigger] failed@[k]@),
        decreases failed@.len() - i,
    {
        let mut present = false;
        let mut j: usize = 0;
        while j < magic.len()
            invariant
                i < failed@.len(),
                j <= magic@.len(),
                present == exists|t: int| 0 <= t < j && #[trigger] magic@[t]@ == failed@[i as int]@,
            decreases magic@.len() - j,
        {
            if magic[j] == failed[i] {
                present = true;
            }
            j = j + 1;
        }
        let ghost before = magic@;
        if !present {
            magic.push(failed[i].clone());
            proof {
                assert(views(magic@) =~= views(before).push(failed@[i as int]@));
                assert(views(magic@)[before.len() as int] == failed@[i as int]@);
                assert(views(failed@)[i as int] == failed@[i as int]@);
                assert forall|x: Seq<char>| #[trigger] views(magic@).contains(x) implies start.contains(x)
                    || views(failed@).contains(x) by {
                    let t = choose|t: int| 0 <= t < views(magic@).len() && views(magic@)[t] == x;
                    if t < before.len() {
                        assert(views(before)[t] == x);
                        assert(views(before).contains(x));
                    }
                }
                assert forall|k: int| 0 <= k < i + 1 implies views(magic@).contains(#[trigger] failed@[k]@) by {
                    if k < i {
                        let t = choose|t: int| 0 <= t < views(before).len() && views(before)[t] == failed@[k]@;
                        assert(views(magic@)[t] == failed@[k]@);
                    }
                }
                assert(views(magic@).subrange(0, start.len() as int) =~= views(before).subrange(0, start.len() as int));
            }
        } else {
            proof {
                let t = choose|t: int| 0 <= t < j && #[trigger] magic@[t]@ == failed@[i as int]@;
                assert(views(magic@)[t] == failed@[i as int]@);
            }
        }
        i = i + 1;
    }
    proof {
        assert forall|x: Seq<char>| #[trigger] views(failed@).contains(x) implies views(magic@).contains(x) by {
            let k = choose|k: int| 0 <= k < views(failed@).len() && views(failed@)[k] == x;
            assert(failed@[k]@ == x);
        }
    }
}

} // verus!
