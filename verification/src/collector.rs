//! Collecting template fragments: which walked entries are accepted,
//! and the identifier each accepted file gets.

use vstd::prelude::*;

use crate::path_name::ext_spec;
use crate::path_name::hidden_spec;
use crate::path_name::ident_spec;
use crate::path_name::last_index_of;
use crate::path_name::last_index_spec;
use crate::path_name::last_segment;
use crate::path_name::lemma_last_index_bounds;
use crate::path_name::name_of_rel;
use crate::path_name::norm_spec;
use crate::path_name::normalize_separators;

verus! {

/// One filesystem entry seen during a walk, by its path relative to
/// the include root's parent, and whether it is a regular file.
pub struct WalkEntry {
    pub rel_path: String,
    pub is_file: bool,
}

/// Whether the extension list holds `e`.
pub open spec fn ext_listed(exts: Seq<String>, e: Seq<char>) -> bool {
    exists|i: int| 0 <= i < exts.len() && exts[i]@ == e
}

/// The acceptance rule for a walked entry: a regular file whose name
/// carries a listed extension and whose stem is not hidden.
pub open spec fn accept_spec(rel: Seq<char>, is_file: bool, exts: Seq<String>) -> bool {
    let name = last_segment(norm_spec(rel));
    &&& is_file
    &&& ext_spec(name) matches Some(e) && ext_listed(exts, e)
    &&& !hidden_spec(name)
}

/// Decides acceptance of one walked entry.
pub fn accept_entry(rel_path: &str, is_file: bool, extensions: &Vec<String>) -> (r: bool)
    ensures
        r == accept_spec(rel_path@, is_file, extensions@),
{
    if !is_file {
        return false;
    }
    let p = normalize_separators(rel_path);
    let n: usize = p.as_str().unicode_len();
    let seg_start: usize = match last_index_of(p.as_str(), '/') {
        Some(i) => i + 1,
        None => 0,
    };
    let seg = p.as_str().substring_char(seg_start, n);
    proof {
        assert(seg@ =~= last_segment(p@));
    }
    let seg_len: usize = seg.unicode_len();
    let dot: usize = match last_index_of(seg, '.') {
        Some(d) if d >= 1 => d,
        _ => {
            return false;
        },
    };
    let ext = String::from_str(seg.substring_char(dot + 1, seg_len));
    proof {
        lemma_last_index_bounds(seg@, '.');
        assert(ext@ =~= ext_spec(seg@).unwrap());
    }
    let mut listed = false;
    let m = extensions.len();
    let mut j: usize = 0;
    while j < m
        invariant
            m == extensions@.len(),
            j <= m,
            listed <==> exists|i: int| 0 <= i < j && extensions@[i]@ == ext@,
        decreases m - j,
    {
        if extensions[j] == ext {
            listed = true;
        }
        j = j + 1;
    }
    if !listed {
        return false;
    }
    // hidden check on the stem: its first character is the name's first
    let hidden = seg.get_char(0) == '.';
    proof {
        crate::path_name::lemma_hidden_is_leading_dot(seg@);
    }
    !hidden
}

/// Acceptance reads nothing but the leaf name: two entries with the
/// same final segment are treated alike, whatever directories — hidden
/// or not — stand above them.
pub proof fn lemma_accept_checks_leaf_only(
    rel1: Seq<char>,
    rel2: Seq<char>,
    is_file: bool,
    exts: Seq<String>,
)
    requires
        last_segment(norm_spec(rel1)) == last_segment(norm_spec(rel2)),
    ensures
        accept_spec(rel1, is_file, exts) == accept_spec(rel2, is_file, exts),
{
}

/// An accepted entry is never hidden: a file whose stem starts with a
/// dot is excluded even when its extension is listed.
pub proof fn lemma_accept_excludes_hidden(rel: Seq<char>, is_file: bool, exts: Seq<String>)
    ensures
        hidden_spec(last_segment(norm_spec(rel))) ==> !accept_spec(rel, is_file, exts),
{
}

/// Collects the accepted entries, in walk order: each result pair
/// holds the derived identifier and the index of the entry it names.
pub fn collect(entries: &Vec<WalkEntry>, extensions: &Vec<String>) -> (r: Vec<(String, usize)>)
    ensures
        forall|j: int|
            0 <= j < r@.len() ==> (#[trigger] r@[j]).1 < entries@.len() && accept_spec(
                entries@[r@[j].1 as int].rel_path@,
                entries@[r@[j].1 as int].is_file,
                extensions@,
            ) && r@[j].0@ == ident_spec(entries@[r@[j].1 as int].rel_path@),
        forall|j1: int, j2: int| 0 <= j1 < j2 < r@.len() ==> r@[j1].1 < r@[j2].1,
        forall|i: int|
            0 <= i < entries@.len() && accept_spec(
                (#[trigger] entries@[i]).rel_path@,
                entries@[i].is_file,
                extensions@,
            ) ==> exists|j: int| 0 <= j < r@.len() && r@[j].1 == i,
{
    let n = entries.len();
    let mut out: Vec<(String, usize)> = Vec::new();
    let mut i: usize = 0;
    while i < n
        invariant
            n == entries@.len(),
            i <= n,
            forall|j: int|
                0 <= j < out@.len() ==> (#[trigger] out@[j]).1 < i && accept_spec(
                    entries@[out@[j].1 as int].rel_path@,
                    entries@[out@[j].1 as int].is_file,
                    extensions@,
                ) && out@[j].0@ == ident_spec(entries@[out@[j].1 as int].rel_path@),
            forall|j1: int, j2: int| 0 <= j1 < j2 < out@.len() ==> out@[j1].1 < out@[j2].1,
            forall|k: int|
                0 <= k < i && accept_spec(
                    (#[trigger] entries@[k]).rel_path@,
                    entries@[k].is_file,
                    extensions@,
                ) ==> exists|j: int| 0 <= j < out@.len() && out@[j].1 == k,
        decreases n - i,
    {
        let e = &entries[i];
        let ghost out_pre = out@;
        if accept_entry(e.rel_path.as_str(), e.is_file, extensions) {
            let id = name_of_rel(e.rel_path.as_str());
            out.push((id, i));
            proof {
                assert(out@[out@.len() - 1].1 == i);
                assert(forall|j: int| 0 <= j < out_pre.len() ==> out@[j] == out_pre[j]);
                assert forall|k: int|
                    0 <= k < i + 1 && accept_spec(
                        (#[trigger] entries@[k]).rel_path@,
                        entries@[k].is_file,
                        extensions@,
                    ) implies exists|j: int| 0 <= j < out@.len() && out@[j].1 == k by {
                    if k < i {
                        let j0 = choose|j0: int| 0 <= j0 < out_pre.len() && out_pre[j0].1 == k;
                        assert(out@[j0].1 == k);
                    } else {
                        assert(out@[out@.len() - 1].1 == k);
                    }
                }
            }
        } else {
            proof {
                assert(!accept_spec(entries@[i as int].rel_path@, entries@[i as int].is_file,
                    extensions@));
            }
        }
        i = i + 1;
    }
    out
}

} // verus!
