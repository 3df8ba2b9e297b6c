//! Path naming: turning a filesystem path into a canonical,
//! forward-slash template identifier.

use vstd::prelude::*;

verus! {

/// Separator normalization: every backslash becomes a forward slash.
pub open spec fn norm_spec(s: Seq<char>) -> Seq<char> {
    Seq::new(s.len(), |i: int| if s[i] == '\\' { '/' } else { s[i] })
}

/// Replaces every backslash in `s` by a forward slash, so identifiers
/// read the same regardless of the platform's separator convention.
pub fn normalize_separators(s: &str) -> (r: String)
    ensures
        r@ == norm_spec(s@),
{
    let n: usize = s.unicode_len();
    let mut out = String::new();
    let mut i: usize = 0;
    while i < n
        invariant
            n == s@.len(),
            i <= n,
            out@ == norm_spec(s@).subrange(0, i as int),
        decreases n - i,
    {
        let c = s.get_char(i);
        if c == '\\' {
            push_char(&mut out, '/');
        } else {
            push_char(&mut out, c);
        }
        proof {
            assert(out@ =~= norm_spec(s@).subrange(0, i + 1 as int));
        }
        i = i + 1;
    }
    proof {
        assert(out@ =~= norm_spec(s@));
    }
    out
}

/// Normalization is idempotent: applying it to an already normalized
/// string changes nothing, so deriving an identifier twice yields the
/// same string.
pub proof fn lemma_normalize_idempotent(s: Seq<char>)
    ensures
        norm_spec(norm_spec(s)) == norm_spec(s),
{
    assert(norm_spec(norm_spec(s)) =~= norm_spec(s));
}

/// Relies on std's `String::push`: appends one character at the end.
#[verifier::external_body]
fn push_char(s: &mut String, c: char)
    ensures
        final(s)@ == old(s)@.push(c),
{
    s.push(c)
}

/// Index of the last occurrence of `c` in `s`, or `-1`.
pub open spec fn last_index_spec(s: Seq<char>, c: char) -> int
    decreases s.len(),
{
    if s.len() == 0 {
        -1
    } else if s.last() == c {
        s.len() - 1
    } else {
        last_index_spec(s.drop_last(), c)
    }
}

/// The last occurrence index stays in range, and really holds `c`.
pub proof fn lemma_last_index_bounds(s: Seq<char>, c: char)
    ensures
        -1 <= last_index_spec(s, c) < s.len(),
        last_index_spec(s, c) >= 0 ==> s[last_index_spec(s, c)] == c,
    decreases s.len(),
{
    if s.len() > 0 && s.last() != c {
        lemma_last_index_bounds(s.drop_last(), c);
        if last_index_spec(s.drop_last(), c) >= 0 {
            assert(s.drop_last()[last_index_spec(s, c)] == s[last_index_spec(s, c)]);
        }
    }
}

/// The segment after the last slash (the whole string if there is none).
pub open spec fn last_segment(s: Seq<char>) -> Seq<char> {
    s.subrange(last_index_spec(s, '/') + 1, s.len() as int)
}

/// Everything up to and including the last slash.
pub open spec fn dir_prefix(s: Seq<char>) -> Seq<char> {
    s.subrange(0, last_index_spec(s, '/') + 1)
}

/// The file name without its extension.  Following std's convention,
/// a name has an extension only when it holds a dot at a position
/// past the first character; a leading dot alone marks no extension.
pub open spec fn stem_spec(name: Seq<char>) -> Seq<char> {
    if last_index_spec(name, '.') >= 1 {
        name.subrange(0, last_index_spec(name, '.'))
    } else {
        name
    }
}

/// The extension after the final dot, if the name has one.
pub open spec fn ext_spec(name: Seq<char>) -> Option<Seq<char>> {
    if last_index_spec(name, '.') >= 1 {
        Some(name.subrange(last_index_spec(name, '.') + 1, name.len() as int))
    } else {
        None
    }
}

/// A name is hidden when its stem begins with a dot.
pub open spec fn hidden_spec(name: Seq<char>) -> bool {
    stem_spec(name).len() > 0 && stem_spec(name)[0] == '.'
}

/// A path with the extension stripped from its final segment.
pub open spec fn strip_ext_spec(p: Seq<char>) -> Seq<char> {
    dir_prefix(p) + stem_spec(last_segment(p))
}

/// The identifier derived from a path relative to its declared root:
/// separators normalized to `/`, extension stripped.
pub open spec fn ident_spec(rel: Seq<char>) -> Seq<char> {
    strip_ext_spec(norm_spec(rel))
}

/// Whether `p` names an entry strictly below `root` (an empty root
/// holds everything), and the remainder when it does.
pub open spec fn strip_prefix_spec(p: Seq<char>, root: Seq<char>) -> Option<Seq<char>> {
    if root.len() == 0 {
        Some(p)
    } else if p.len() > root.len() && p.subrange(0, root.len() as int) == root && p[root.len() as int]
        == '/' {
        Some(p.subrange(root.len() + 1 as int, p.len() as int))
    } else {
        None
    }
}

/// Deriving an identifier is invariant under separator normalization:
/// the same (root, file) pair yields the same identifier no matter the
/// platform's separator convention.
pub proof fn lemma_ident_normalization_invariant(rel: Seq<char>)
    ensures
        ident_spec(norm_spec(rel)) == ident_spec(rel),
{
    lemma_normalize_idempotent(rel);
}

/// A hidden name is exactly one that begins with a dot: the stem is a
/// nonempty prefix of the name whenever the name is nonempty.
pub proof fn lemma_hidden_is_leading_dot(name: Seq<char>)
    ensures
        hidden_spec(name) <==> (name.len() > 0 && name[0] == '.'),
{
    lemma_last_index_bounds(name, '.');
    if last_index_spec(name, '.') >= 1 {
        assert(stem_spec(name) == name.subrange(0, last_index_spec(name, '.')));
        assert(stem_spec(name).len() > 0);
        assert(stem_spec(name)[0] == name[0]);
    }
}

/// Index of the last occurrence of `c` in `s`, if any.
pub fn last_index_of(s: &str, c: char) -> (r: Option<usize>)
    ensures
        r matches Some(i) ==> i == last_index_spec(s@, c) && i < s@.len(),
        r is None <==> last_index_spec(s@, c) == -1,
{
    let n: usize = s.unicode_len();
    let mut i: usize = n;
    proof {
        assert(s@.subrange(0, n as int) =~= s@);
    }
    while i > 0
        invariant
            n == s@.len(),
            i <= n,
            last_index_spec(s@, c) == last_index_spec(s@.subrange(0, i as int), c),
        decreases i,
    {
        let ch = s.get_char(i - 1);
        proof {
            let pre = s@.subrange(0, i as int);
            assert(pre.last() == s@[i - 1]);
            assert(pre.drop_last() =~= s@.subrange(0, i - 1 as int));
        }
        if ch == c {
            return Some(i - 1);
        }
        i = i - 1;
    }
    proof {
        assert(s@.subrange(0, 0) =~= Seq::<char>::empty());
    }
    None
}

/// The identifier for a path given relative to its declared root.
pub fn name_of_rel(rel: &str) -> (r: String)
    ensures
        r@ == ident_spec(rel@),
{
    let p = normalize_separators(rel);
    let n: usize = p.as_str().unicode_len();
    let seg_start: usize = match last_index_of(p.as_str(), '/') {
        Some(i) => i + 1,
        None => 0,
    };
    let seg = p.as_str().substring_char(seg_start, n);
    proof {
        assert(seg@ =~= last_segment(p@));
    }
    let cut: usize = match last_index_of(seg, '.') {
        Some(d) if d >= 1 => seg_start + d,
        _ => n,
    };
    let out = String::from_str(p.as_str().substring_char(0, cut));
    proof {
        if last_index_spec(seg@, '.') >= 1 {
            let d = last_index_spec(seg@, '.');
            assert(out@ =~= dir_prefix(p@) + stem_spec(last_segment(p@)));
        } else {
            assert(stem_spec(last_segment(p@)) == last_segment(p@));
            assert(out@ =~= dir_prefix(p@) + stem_spec(last_segment(p@)));
        }
    }
    out
}

/// The identifier for a single explicitly included file: the bare stem
/// of its file name, with no directory prefix.
pub fn single_file_name(path: &str) -> (r: String)
    ensures
        r@ == stem_spec(last_segment(norm_spec(path@))),
{
    let p = normalize_separators(path);
    let n: usize = p.as_str().unicode_len();
    let seg_start: usize = match last_index_of(p.as_str(), '/') {
        Some(i) => i + 1,
        None => 0,
    };
    let seg = p.as_str().substring_char(seg_start, n);
    proof {
        assert(seg@ =~= last_segment(p@));
    }
    let seg_len: usize = seg.unicode_len();
    let cut: usize = match last_index_of(seg, '.') {
        Some(d) if d >= 1 => d,
        _ => seg_len,
    };
    let out = String::from_str(seg.substring_char(0, cut));
    proof {
        if last_index_spec(seg@, '.') >= 1 {
            assert(out@ =~= stem_spec(last_segment(norm_spec(path@))));
        } else {
            assert(out@ =~= stem_spec(last_segment(norm_spec(path@))));
        }
    }
    out
}

/// The path of `file` relative to `root`, when `file` lies below it;
/// both are taken in normalized form.
pub fn strip_path_prefix(file: &str, root: &str) -> (r: Option<String>)
    ensures
        r matches Some(rel) ==> strip_prefix_spec(norm_spec(file@), norm_spec(root@)) == Some(
            rel@,
        ),
        r is None <==> strip_prefix_spec(norm_spec(file@), norm_spec(root@)) is None,
{
    let p = normalize_separators(file);
    let q = normalize_separators(root);
    let np: usize = p.as_str().unicode_len();
    let nq: usize = q.as_str().unicode_len();
    if nq == 0 {
        return Some(p);
    }
    if np <= nq {
        return None;
    }
    let mut i: usize = 0;
    while i < nq
        invariant
            np == p@.len(),
            nq == q@.len(),
            nq < np,
            i <= nq,
            p@.subrange(0, i as int) =~= q@.subrange(0, i as int),
            p@ == norm_spec(file@),
            q@ == norm_spec(root@),
        decreases nq - i,
    {
        if p.as_str().get_char(i) != q.as_str().get_char(i) {
            proof {
                assert(p@.subrange(0, nq as int)[i as int] != q@[i as int]);
            }
            return None;
        }
        proof {
            assert(p@.subrange(0, i + 1 as int) =~= q@.subrange(0, i + 1 as int));
        }
        i = i + 1;
    }
    proof {
        assert(p@.subrange(0, nq as int) =~= q@.subrange(0, nq as int));
        assert(q@.subrange(0, nq as int) =~= q@);
    }
    if p.as_str().get_char(nq) != '/' {
        return None;
    }
    let rel = String::from_str(p.as_str().substring_char(nq + 1, np));
    proof {
        assert(rel@ =~= p@.subrange(nq + 1, np as int));
    }
    Some(rel)
}

/// The identifier a (root, file) pair yields: the file's path below
/// the root, separators normalized, extension stripped; nothing when
/// the file does not lie below the root.
pub open spec fn name_of_spec(root: Seq<char>, file: Seq<char>) -> Option<Seq<char>> {
    match strip_prefix_spec(norm_spec(file), norm_spec(root)) {
        Some(rel) => Some(ident_spec(rel)),
        None => None,
    }
}

/// The full naming step for a collected file: relative path below the
/// root's parent, separators normalized, extension stripped.  `None`
/// when the file does not lie below that root.
pub fn name_of(root: &str, file: &str) -> (r: Option<String>)
    ensures
        r is Some <==> name_of_spec(root@, file@) is Some,
        r matches Some(id) ==> name_of_spec(root@, file@) == Some(id@),
{
    match strip_path_prefix(file, root) {
        Some(rel) => {
            let id = name_of_rel(rel.as_str());
            proof {
                assert(strip_prefix_spec(norm_spec(file@), norm_spec(root@)) == Some(rel@));
                lemma_normalize_idempotent(rel@);
            }
            Some(id)
        },
        None => None,
    }
}

} // verus!
