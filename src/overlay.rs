//! OverlayFS decisions: the layer string, the ladder of mount attempts, and the child
//! mounts of a partition.
use vstd::prelude::*;
use vstd::string::*;
use crate::text::{is_prefix, has_prefix, text_lt, text_eq, seq_lt, lemma_seq_lt_trans,
    lemma_seq_lt_total};
use crate::text::views;

verus! {

/// `parts` joined with `sep` between neighbours.
pub open spec fn joined(parts: Seq<Seq<char>>, sep: char) -> Seq<char>
    decreases parts.len(),
{
    if parts.len() == 0 {
        seq![]
    } else if parts.len() == 1 {
        parts[0]
    } else {
        joined(parts.drop_last(), sep) + seq![sep] + parts.last()
    }
}

/// The `lowerdir` value: the module layers, highest priority first, then the stock
/// directory, separated by `:`.
pub fn lowerdir_config(lower_dirs: &Vec<String>, lowest: &str) -> (r: String)
    ensures
        r@ == joined(views(lower_dirs@).push(lowest@), ':'),
{
    let mut out = String::new();
    let mut i: usize = 0;
    proof {
        reveal_strlit(":");
    }
    while i < lower_dirs.len()
        invariant
            i <= lower_dirs@.len(),
            ":"@ == seq![':'],
            i == 0 ==> out@ == Seq::<char>::empty(),
            i > 0 ==> out@ == joined(views(lower_dirs@).subrange(0, i as int), ':'),
        decreases lower_dirs@.len() - i,
    {
        let ghost parts = views(lower_dirs@).subrange(0, i + 1);
        assert(parts.drop_last() =~= views(lower_dirs@).subrange(0, i as int));
        assert(parts.last() == lower_dirs@[i as int]@);
        if i == 0 {
            out.append(lower_dirs[i].as_str());
            assert(out@ =~= joined(parts, ':'));
        } else {
            out.append(":");
            out.append(lower_dirs[i].as_str());
            assert(out@ =~= joined(parts, ':'));
        }
        i = i + 1;
    }
    let ghost parts = views(lower_dirs@).push(lowest@);
    assert(parts.drop_last() =~= views(lower_dirs@).subrange(0, i as int));
    if i == 0 {
        out.append(lowest);
        assert(out@ =~= joined(parts, ':'));
    } else {
        out.append(":");
        out.append(lowest);
        assert(out@ =~= joined(parts, ':'));
    }
    out
}

/// One way of mounting an overlay.
#[derive(Debug)]
pub enum OverlayAttempt {
    /// The new mount API: `fsopen`, `fsconfig`, `fsmount`, `move_mount`.
    NewApi { lowerdir: String, upperdir: Option<String>, workdir: Option<String>, override_creds: bool },
    /// The classic `mount(2)` call with this data string.
    Legacy { data: String },
}

/// The data string of a classic overlay mount.
pub open spec fn legacy_data(lowerdir: Seq<char>, upper_work: Option<(Seq<char>, Seq<char>)>, override_creds: bool) -> Seq<char> {
    let base = "lowerdir="@ + lowerdir;
    let with_dirs = match upper_work {
        Some(uw) => base + ",upperdir="@ + uw.0 + ",workdir="@ + uw.1,
        None => base,
    };
    if override_creds {
        with_dirs + ",override_creds=off"@
    } else {
        with_dirs
    }
}

fn legacy_data_exec(lowerdir: &str, upper: &Option<String>, work: &Option<String>, override_creds: bool) -> (r: String)
    requires
        upper is Some == work is Some,
    ensures
        r@ == legacy_data(
            lowerdir@,
            match upper {
                Some(u) => Some((u@, work->0@)),
                None => None,
            },
            override_creds,
        ),
{
    let mut out = String::from_str("lowerdir=");
    out.append(lowerdir);
    match (upper, work) {
        (Some(u), Some(w)) => {
            out.append(",upperdir=");
            out.append(u.as_str());
            out.append(",workdir=");
            out.append(w.as_str());
        },
        _ => {},
    }
    if override_creds {
        out.append(",override_creds=off");
    }
    out
}

/// The ladder of overlay mount attempts, first success wins: the new mount API with
/// `override_creds=off`, the new API without it, then the classic call with and without
/// it. Upper and work directories are used only when both are given.
pub fn overlay_attempts(lower_dirs: &Vec<String>, lowest: &str, upperdir: &Option<String>, workdir: &Option<String>) -> (r: Vec<OverlayAttempt>)
    ensures
        r@.len() == 4,
        ({
            let lc = joined(views(lower_dirs@).push(lowest@), ':');
            let uw = match (upperdir, workdir) {
                (Some(u), Some(w)) => Some((u@, w@)),
                _ => None,
            };
            &&& r@[0] matches OverlayAttempt::NewApi { lowerdir, upperdir: u, workdir: w, override_creds }
                && lowerdir@ == lc && override_creds && (u is Some == uw is Some) && (w is Some == uw is Some)
                && (uw matches Some(p) ==> u->0@ == p.0 && w->0@ == p.1)
            &&& r@[1] matches OverlayAttempt::NewApi { lowerdir, upperdir: u, workdir: w, override_creds }
                && lowerdir@ == lc && !override_creds && (u is Some == uw is Some) && (w is Some == uw is Some)
                && (uw matches Some(p) ==> u->0@ == p.0 && w->0@ == p.1)
            &&& r@[2] matches OverlayAttempt::Legacy { data } && data@ == legacy_data(lc, uw, true)
            &&& r@[3] matches OverlayAttempt::Legacy { data } && data@ == legacy_data(lc, uw, false)
        }),
{
    let lc = lowerdir_config(lower_dirs, lowest);
    let (up, wk) = match (upperdir, workdir) {
        (Some(u), Some(w)) => (Some(u.clone()), Some(w.clone())),
        _ => (None, None),
    };
    let secure = legacy_data_exec(lc.as_str(), &up, &wk, true);
    let plain = legacy_data_exec(lc.as_str(), &up, &wk, false);
    let mut r: Vec<OverlayAttempt> = Vec::new();
    let up2 = match &up {
        Some(u) => Some(u.clone()),
        None => None,
    };
    let wk2 = match &wk {
        Some(w) => Some(w.clone()),
        None => None,
    };
    r.push(OverlayAttempt::NewApi { lowerdir: lc.clone(), upperdir: up, workdir: wk, override_creds: true });
    r.push(OverlayAttempt::NewApi { lowerdir: lc, upperdir: up2, workdir: wk2, override_creds: false });
    r.push(OverlayAttempt::Legacy { data: secure });
    r.push(OverlayAttempt::Legacy { data: plain });
    r
}

/// Whether path `p` lies at or below `r`, comparing whole components.
pub open spec fn path_under(p: Seq<char>, r: Seq<char>) -> bool {
    is_prefix(r, p) && (p.len() == r.len() || (r.len() > 0 && r.last() == '/') || p[r.len() as int]
        == '/')
}

fn path_under_exec(p: &str, r: &str) -> (b: bool)
    ensures
        b == path_under(p@, r@),
{
    if !has_prefix(p, r) {
        return false;
    }
    let n = p.unicode_len();
    let m = r.unicode_len();
    n == m || (m > 0 && r.get_char(m - 1) == '/') || p.get_char(m) == '/'
}

/// Whether a mount point is a child mount of partition root `r`: below it, and neither
/// `r` itself nor one of its ancestors.
pub open spec fn child_mount(m: Seq<char>, r: Seq<char>) -> bool {
    path_under(m, r) && !path_under(r, m)
}

/// Strictly ascending.
pub open spec fn strictly_sorted(s: Seq<Seq<char>>) -> bool {
    forall|i: int, j: int| 0 <= i < j < s.len() ==> seq_lt(s[i], s[j])
}

/// The child mounts of partition root `root` among `mounts`, sorted and without
/// duplicates, so that a parent comes before its children.
pub fn child_mount_points(root: &str, mounts: &Vec<String>) -> (r: Vec<String>)
    ensures
        strictly_sorted(views(r@)),
        forall|x: Seq<char>|
            #[trigger] views(r@).contains(x) <==> (views(mounts@).contains(x) && child_mount(x, root@)),
{
    let mut out: Vec<String> = Vec::new();
    let mut i: usize = 0;
    while i < mounts.len()
        invariant
            i <= mounts@.len(),
            strictly_sorted(views(out@)),
            forall|x: Seq<char>|
                #[trigger] views(out@).contains(x) <==> (views(mounts@.subrange(0, i as int)).contains(x)
                    && child_mount(x, root@)),
        decreases mounts@.len() - i,
    {
        let m = mounts[i].as_str();
        let ghost before = out@;
        assert(views(mounts@.subrange(0, i + 1)) =~= views(mounts@.subrange(0, i as int)).push(m@));
        if path_under_exec(m, root) && !path_under_exec(root, m) {
            let mut k: usize = 0;
            while k < out.len() && text_lt(out[k].as_str(), m)
                invariant
                    k <= out@.len(),
                    out@ == before,
                    forall|t: int| 0 <= t < k ==> seq_lt(#[trigger] out@[t]@, m@),
                decreases out@.len() - k,
            {
                k = k + 1;
            }
            let ghost sub_i = views(mounts@.subrange(0, i as int));
            proof {
                assert forall|x: Seq<char>| sub_i.push(m@).contains(x) == (sub_i.contains(x) || x == m@) by {
                    lemma_push_contains(sub_i, m@, x);
                }
            }
            if k < out.len() && text_eq(out[k].as_str(), m) {
                proof {
                    assert(views(out@)[k as int] == m@);
                    assert forall|x: Seq<char>| #[trigger] views(out@).contains(x) <==> (views(
                        mounts@.subrange(0, i + 1),
                    ).contains(x) && child_mount(x, root@)) by {
                        assert(views(out@).contains(x) == (sub_i.contains(x) && child_mount(x, root@)));
                        assert(sub_i.push(m@).contains(x) == (sub_i.contains(x) || x == m@));
                    }
                }
            } else {
                proof {
                    if k < out@.len() {
                        lemma_seq_lt_total(out@[k as int]@, m@);
                    }
                }
                out.insert(k, String::from_str(m));
                proof {
                    let v = views(out@);
                    let vb = views(before);
                    assert(v =~= vb.insert(k as int, m@));
                    assert(v.len() == vb.len() + 1);
                    assert(forall|t: int| 0 <= t < k ==> v[t] == vb[t]);
                    assert(v[k as int] == m@);
                    assert(forall|t: int| k < t < v.len() ==> v[t] == vb[t - 1]);
                    assert forall|a: int, b: int| 0 <= a < b < v.len() implies seq_lt(v[a], v[b]) by {
                        if b == k {
                        } else if a == k {
                            assert(seq_lt(m@, vb[k as int]));
                            if b - 1 > k {
                                lemma_seq_lt_trans(m@, vb[k as int], vb[b - 1]);
                            }
                        } else if a < k && b > k {
                            assert(seq_lt(vb[a], m@));
                            assert(seq_lt(m@, vb[k as int]));
                            lemma_seq_lt_trans(vb[a], m@, vb[k as int]);
                            if b - 1 > k {
                                lemma_seq_lt_trans(vb[a], vb[k as int], vb[b - 1]);
                            }
                        } else if a > k {
                            assert(seq_lt(vb[a - 1], vb[b - 1]));
                        }
                    }
                    assert forall|x: Seq<char>| #[trigger] v.contains(x) <==> (views(
                        mounts@.subrange(0, i + 1),
                    ).contains(x) && child_mount(x, root@)) by {
                        lemma_insert_contains(vb, k as int, m@, x);
                        assert(vb.contains(x) == (sub_i.contains(x) && child_mount(x, root@)));
                        assert(sub_i.push(m@).contains(x) == (sub_i.contains(x) || x == m@));
                    }
                }
            }
        } else {
            proof {
                assert forall|x: Seq<char>| #[trigger] views(out@).contains(x) <==> (views(
                    mounts@.subrange(0, i + 1),
                ).contains(x) && child_mount(x, root@)) by {
                    lemma_push_contains(views(mounts@.subrange(0, i as int)), m@, x);
                }
            }
        }
        i = i + 1;
    }
    assert(mounts@.subrange(0, i as int) =~= mounts@);
    out
}

pub proof fn lemma_push_contains(s: Seq<Seq<char>>, a: Seq<char>, x: Seq<char>)
    ensures
        s.push(a).contains(x) == (s.contains(x) || x == a),
{
    if s.push(a).contains(x) {
        let t = choose|t: int| 0 <= t < s.push(a).len() && s.push(a)[t] == x;
        if t < s.len() {
            assert(s[t] == x);
        }
    }
    if s.contains(x) {
        let t = choose|t: int| 0 <= t < s.len() && s[t] == x;
        assert(s.push(a)[t] == x);
    }
    if x == a {
        assert(s.push(a)[s.len() as int] == x);
    }
}

pub proof fn lemma_insert_contains(s: Seq<Seq<char>>, k: int, a: Seq<char>, x: Seq<char>)
    requires
        0 <= k <= s.len(),
    ensures
        s.insert(k, a).contains(x) == (s.contains(x) || x == a),
{
    let v = s.insert(k, a);
    if v.contains(x) {
        let t = choose|t: int| 0 <= t < v.len() && v[t] == x;
        if t < k {
            assert(s[t] == x);
        } else if t > k {
            assert(s[t - 1] == x);
        }
    }
    if s.contains(x) {
        let t = choose|t: int| 0 <= t < s.len() && s[t] == x;
        if t < k {
            assert(v[t] == x);
        } else {
            assert(v[t + 1] == x);
        }
    }
    if x == a {
        assert(v[k] == x);
    }
}

/// The path of a child mount relative to its partition root: the mount point with the
/// root prefix removed.
pub fn relative_to(root: &str, mount_point: &str) -> (r: String)
    requires
        is_prefix(root@, mount_point@),
    ensures
        r@ == mount_point@.subrange(root@.len() as int, mount_point@.len() as int),
{
    let n = mount_point.unicode_len();
    let m = root.unicode_len();
    String::from_str(mount_point.substring_char(m, n))
}

/// What a module layer shows at the path of a child mount.
#[derive(Debug)]
pub struct LowerFacts {
    /// The layer's path for the child mount: `<layer><relative>`.
    pub dir: String,
    pub exists: bool,
    pub is_dir: bool,
}

/// What to do at a child mount of a partition whose root overlay is in place.
#[derive(Debug)]
pub enum ChildAction {
    /// No layer has the path: bind the stock mount back.
    BindStock,
    /// Nothing to do: the stock path is no directory, a layer blocks it with a file, or
    /// no layer has a directory there.
    Skip,
    /// Overlay these layer directories over the stock mount.
    Overlay { lower_dirs: Vec<String> },
}

/// The layer directories for a child mount, in layer order, up to the first layer that
/// has a non-directory there (which blocks the stock path).
pub open spec fn child_layers(ls: Seq<LowerFacts>) -> Option<Seq<Seq<char>>>
    decreases ls.len(),
{
    if ls.len() == 0 {
        Some(seq![])
    } else {
        match child_layers(ls.drop_last()) {
            None => None,
            Some(acc) => if ls.last().is_dir {
                Some(acc.push(ls.last().dir@))
            } else if ls.last().exists {
                None
            } else {
                Some(acc)
            },
        }
    }
}

/// Decides the action at a child mount from what each layer shows there.
pub fn overlay_child_action(layers: &Vec<LowerFacts>, stock_is_dir: bool) -> (r: ChildAction)
    ensures
        (forall|i: int| 0 <= i < layers@.len() ==> !(#[trigger] layers@[i]).exists) ==> r is BindStock,
        (exists|i: int| 0 <= i < layers@.len() && (#[trigger] layers@[i]).exists) ==> match r {
            ChildAction::BindStock => false,
            ChildAction::Skip => !stock_is_dir || match child_layers(layers@) {
                None => true,
                Some(ds) => ds.len() == 0,
            },
            ChildAction::Overlay { lower_dirs } => stock_is_dir && child_layers(layers@) == Some(
                views(lower_dirs@),
            ) && lower_dirs@.len() > 0,
        },
{
    let mut any = false;
    let mut i: usize = 0;
    while i < layers.len()
        invariant
            i <= layers@.len(),
            any == exists|j: int| 0 <= j < i && (#[trigger] layers@[j]).exists,
        decreases layers@.len() - i,
    {
        if layers[i].exists {
            any = true;
        }
        i = i + 1;
    }
    if !any {
        return ChildAction::BindStock;
    }
    if !stock_is_dir {
        return ChildAction::Skip;
    }
    let mut dirs: Vec<String> = Vec::new();
    let mut k: usize = 0;
    assert(layers@.subrange(0, 0) =~= Seq::<LowerFacts>::empty());
    assert(views(dirs@) =~= Seq::<Seq<char>>::empty());
    while k < layers.len()
        invariant
            k <= layers@.len(),
            child_layers(layers@.subrange(0, k as int)) == Some(views(dirs@)),
        decreases layers@.len() - k,
    {
        let ghost before = dirs@;
        assert(layers@.subrange(0, k + 1).drop_last() =~= layers@.subrange(0, k as int));
        assert(layers@.subrange(0, k + 1).last() == layers@[k as int]);
        if layers[k].is_dir {
            dirs.push(layers[k].dir.clone());
            assert(views(dirs@) =~= views(before).push(layers@[k as int].dir@));
        } else if layers[k].exists {
            proof {
                lemma_child_layers_none(layers@, k as int + 1);
            }
            return ChildAction::Skip;
        }
        k = k + 1;
    }
    assert(layers@.subrange(0, k as int) =~= layers@);
    if dirs.len() == 0 {
        return ChildAction::Skip;
    }
    ChildAction::Overlay { lower_dirs: dirs }
}

proof fn lemma_child_layers_none(ls: Seq<LowerFacts>, k: int)
    requires
        0 <= k <= ls.len(),
        child_layers(ls.subrange(0, k)) is None,
    ensures
        child_layers(ls) is None,
    decreases ls.len() - k,
{
    if k < ls.len() {
        assert(ls.subrange(0, k + 1).drop_last() =~= ls.subrange(0, k));
        lemma_child_layers_none(ls, k + 1);
    } else {
        assert(ls.subrange(0, k) =~= ls);
    }
}

} // verus!
