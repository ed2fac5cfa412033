//! Choice of the kernel module that hides ext4 traces, and its load arguments.
use vstd::prelude::*;
use vstd::string::*;
use crate::text::{contains_seq, contains_text, pieces, split_char, text_eq, views};

verus! {

/// The `major.minor` prefix of a kernel release: the first two pieces between dots.
pub open spec fn kernel_short(release: Seq<char>) -> Option<Seq<char>> {
    let p = pieces(release, '.');
    if p.len() < 2 {
        None
    } else {
        Some(p[0] + "."@ + p[1])
    }
}

/// The `major.minor` prefix of a kernel release, where it has two pieces.
pub fn kernel_short_text(release: &str) -> (r: Option<String>)
    ensures
        match r {
            Some(s) => kernel_short(release@) == Some(s@),
            None => kernel_short(release@) is None,
        },
{
    let parts = split_char(release, '.');
    if parts.len() < 2 {
        return None;
    }
    proof {
        assert(views(parts@)[0] == parts@[0]@);
        assert(views(parts@)[1] == parts@[1]@);
    }
    Some(parts[0].clone().concat(".").concat(parts[1].as_str()))
}

/// Whether `name` contains `kernel` and, where asked, `pattern`.
pub open spec fn fits(name: Seq<char>, kernel: Seq<char>, pattern: Seq<char>, use_pattern: bool) -> bool {
    contains_seq(name, kernel) && (use_pattern ==> contains_seq(name, pattern))
}

/// The first index from `i` on whose name fits.
pub open spec fn first_fit(names: Seq<Seq<char>>, kernel: Seq<char>, pattern: Seq<char>, use_pattern: bool, i: int) -> Option<int>
    decreases names.len() - i,
{
    if i < 0 || i >= names.len() {
        None
    } else if fits(names[i], kernel, pattern, use_pattern) {
        Some(i)
    } else {
        first_fit(names, kernel, pattern, use_pattern, i + 1)
    }
}

/// The first name that contains `kernel` and, where the Android version is known,
/// `android<version>`; failing that, the first name that contains `kernel`.
pub open spec fn lkm_choice(names: Seq<Seq<char>>, kernel: Seq<char>, android: Seq<char>) -> Option<int> {
    let exact = first_fit(names, kernel, "android"@ + android, true, 0);
    if android.len() > 0 && exact is Some {
        exact
    } else {
        first_fit(names, kernel, Seq::<char>::empty(), false, 0)
    }
}

fn first_match(names: &Vec<String>, kernel: &str, pattern: &str, use_pattern: bool) -> (r: Option<usize>)
    ensures
        match r {
            Some(i) => first_fit(views(names@), kernel@, pattern@, use_pattern, 0) == Some(i as int),
            None => first_fit(views(names@), kernel@, pattern@, use_pattern, 0) is None,
        },
{
    let ghost ns = views(names@);
    let mut i: usize = 0;
    while i < names.len()
        invariant
            ns == views(names@),
            i <= names@.len(),
            first_fit(ns, kernel@, pattern@, use_pattern, 0) == first_fit(ns, kernel@, pattern@, use_pattern, i as int),
        decreases names@.len() - i,
    {
        let n = names[i].as_str();
        assert(ns[i as int] == names@[i as int]@);
        if contains_text(n, kernel) && (!use_pattern || contains_text(n, pattern)) {
            return Some(i);
        }
        i = i + 1;
    }
    None
}

/// Picks the kernel module file for this kernel and Android version; see `lkm_choice`.
pub fn select_lkm(names: &Vec<String>, kernel: &str, android: &str) -> (r: Option<usize>)
    ensures
        match r {
            Some(i) => lkm_choice(views(names@), kernel@, android@) == Some(i as int),
            None => lkm_choice(views(names@), kernel@, android@) is None,
        },
{
    if android.unicode_len() > 0 {
        proof {
            reveal_strlit("android");
        }
        let pattern = String::from_str("android").concat(android);
        match first_match(names, kernel, pattern.as_str(), true) {
            Some(i) => {
                return Some(i);
            },
            None => {},
        }
    }
    proof {
        reveal_strlit("");
        assert(""@ =~= Seq::<char>::empty());
    }
    first_match(names, kernel, "", false)
}

/// Whether a symbol address read from the kernel is usable: not empty and not masked.
pub fn symbol_usable(addr: &str) -> (r: bool)
    ensures
        r == (addr@.len() > 0 && addr@ != "0x0000000000000000"@),
{
    addr.unicode_len() > 0 && !text_eq(addr, "0x0000000000000000")
}

/// The load arguments of the module: the staging mount point and the symbol address.
pub fn nuke_arguments(mount_point: &str, symaddr: &str) -> (r: (String, String))
    ensures
        r.0@ == "mount_point="@ + mount_point@,
        r.1@ == "symaddr="@ + symaddr@,
{
    (String::from_str("mount_point=").concat(mount_point), String::from_str("symaddr=").concat(symaddr))
}

} // verus!
