//! Discovery: which directories count as `olib/` libraries.
//!
//! An olib is a directory literally named `olib`, in any ASCII case. That
//! mirrors what `oovra create --olib` writes to, and keeps discovery from
//! taking any directory that happens to hold `.md` files for a library.
//! Walking the tree and counting files is the caller's part.

use vstd::prelude::*;

use crate::paths::{eq_ignore_ascii_case, has_md_extension, md_path};
use crate::text::chars_of;

verus! {

/// One olib found by discovery.
#[derive(Debug, Clone, PartialEq, Eq)]
pub struct DiscoveredOlib {
    /// Path of the olib directory.
    pub path: String,
    /// Number of `.md` files directly inside the directory.
    pub md_count: usize,
}

/// Whether a directory's name makes it an olib.
pub fn is_olib_name(name: &str) -> (b: bool)
    ensures
        b == eq_ignore_ascii_case(name@, "olib"@),
{
    let n = chars_of(name);
    let o = chars_of("olib");
    crate::paths::eq_ignore_case_chars(n.as_slice(), o.as_slice())
}

/// How many of the entries of a directory are `.md` files: each entry is
/// its path and whether it is a regular file.
pub open spec fn md_count_spec(entries: Seq<(Seq<char>, bool)>) -> nat
    decreases entries.len(),
{
    if entries.len() == 0 {
        0
    } else {
        let e = entries.last();
        md_count_spec(entries.drop_last()) + if e.1 && md_path(e.0) {
            1nat
        } else {
            0nat
        }
    }
}

pub open spec fn entries_view(v: Seq<(String, bool)>) -> Seq<(Seq<char>, bool)> {
    v.map_values(|e: (String, bool)| (e.0@, e.1))
}

/// Count the `.md` files among a directory's entries. See `md_count_spec`.
pub fn count_md_files(entries: &Vec<(String, bool)>) -> (n: usize)
    ensures
        n == md_count_spec(entries_view(entries@)),
{
    let ghost ev = entries_view(entries@);
    let mut n: usize = 0;
    let mut i: usize = 0;
    while i < entries.len()
        invariant
            i <= entries@.len(),
            ev == entries_view(entries@),
            n == md_count_spec(ev.take(i as int)),
            n <= i,
        decreases entries.len() - i,
    {
        assert(ev.take(i + 1).drop_last() =~= ev.take(i as int));
        assert(ev.take(i + 1).last() == (entries@[i as int].0@, entries@[i as int].1));
        if entries[i].1 && has_md_extension(entries[i].0.as_str()) {
            n = n + 1;
        }
        i += 1;
    }
    assert(ev.take(entries@.len() as int) =~= ev);
    n
}

} // verus!
