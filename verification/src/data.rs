//! The data context: a JSON-like value tree and the deep merge with
//! null-deletion that combines several data sources into one context.

use vstd::prelude::*;

use crate::path_name::ext_spec;
use crate::path_name::last_index_of;
use crate::path_name::last_segment;
use crate::path_name::lemma_last_index_bounds;
use crate::path_name::norm_spec;
use crate::path_name::normalize_separators;

verus! {

/// A parsed data document: null, boolean, integer, text, an ordered
/// sequence, or a mapping from text keys to nested values.  Mappings
/// keep their pairs in insertion order; well-formed mappings have
/// pairwise distinct keys.
#[derive(Debug, PartialEq)]
pub enum DataValue {
    Null,
    Bool(bool),
    Int(i64),
    Text(String),
    Sequence(Vec<DataValue>),
    Mapping(Vec<(String, DataValue)>),
}

/// The mathematical model of a `DataValue`.
pub enum SpecData {
    Null,
    Bool(bool),
    Int(int),
    Text(Seq<char>),
    Sequence(Seq<SpecData>),
    Mapping(Seq<(Seq<char>, SpecData)>),
}

/// Model of a sequence of nested values, element by element.
pub open spec fn seq_view(s: Seq<DataValue>) -> Seq<SpecData>
    decreases s,
{
    Seq::new(
        s.len(),
        |i: int|
            if 0 <= i < s.len() {
                s[i]@
            } else {
                SpecData::Null
            },
    )
}

/// Model of a mapping's pair list, pair by pair.
pub open spec fn pairs_view(s: Seq<(String, DataValue)>) -> Seq<(Seq<char>, SpecData)>
    decreases s,
{
    Seq::new(
        s.len(),
        |i: int|
            if 0 <= i < s.len() {
                (s[i].0@, s[i].1@)
            } else {
                (Seq::<char>::empty(), SpecData::Null)
            },
    )
}

impl View for DataValue {
    type V = SpecData;

    open spec fn view(&self) -> SpecData
        decreases self,
    {
        match self {
            DataValue::Null => SpecData::Null,
            DataValue::Bool(b) => SpecData::Bool(*b),
            DataValue::Int(i) => SpecData::Int(*i as int),
            DataValue::Text(s) => SpecData::Text(s@),
            DataValue::Sequence(items) => SpecData::Sequence(seq_view(items@)),
            DataValue::Mapping(pairs) => SpecData::Mapping(pairs_view(pairs@)),
        }
    }
}

/// Index of the first pair whose key is `k`, scanning from position `j`;
/// `-1` if there is none.
pub open spec fn key_index_from(ap: Seq<(Seq<char>, SpecData)>, k: Seq<char>, j: int) -> int
    decreases ap.len() - j,
{
    if j < 0 || j >= ap.len() {
        -1
    } else if ap[j].0 == k {
        j
    } else {
        key_index_from(ap, k, j + 1)
    }
}

/// Index of the first pair keyed `k`, or `-1`.
pub open spec fn key_index(ap: Seq<(Seq<char>, SpecData)>, k: Seq<char>) -> int {
    key_index_from(ap, k, 0)
}

/// Whether some pair is keyed `k`.
pub open spec fn has_key(ap: Seq<(Seq<char>, SpecData)>, k: Seq<char>) -> bool {
    key_index(ap, k) >= 0
}

/// The value stored under `k`, if any.
pub open spec fn lookup(ap: Seq<(Seq<char>, SpecData)>, k: Seq<char>) -> Option<SpecData> {
    if has_key(ap, k) {
        Some(ap[key_index(ap, k)].1)
    } else {
        None
    }
}

/// The pair list with every pair keyed `k` removed, keeping the order of
/// the rest, starting the scan at position `j`.
pub open spec fn remove_key_from(
    ap: Seq<(Seq<char>, SpecData)>,
    k: Seq<char>,
    j: int,
) -> Seq<(Seq<char>, SpecData)>
    decreases ap.len() - j,
{
    if j < 0 || j >= ap.len() {
        Seq::empty()
    } else if ap[j].0 == k {
        remove_key_from(ap, k, j + 1)
    } else {
        seq![ap[j]] + remove_key_from(ap, k, j + 1)
    }
}

/// The pair list with every pair keyed `k` removed.
pub open spec fn remove_key(ap: Seq<(Seq<char>, SpecData)>, k: Seq<char>) -> Seq<
    (Seq<char>, SpecData),
> {
    remove_key_from(ap, k, 0)
}

/// Keys are pairwise distinct.
pub open spec fn wf_pairs(ap: Seq<(Seq<char>, SpecData)>) -> bool {
    forall|i: int, j: int| 0 <= i < j < ap.len() ==> ap[i].0 != ap[j].0
}

/// Deep merge with null-deletion.  When both sides are mappings, the
/// incoming pairs are folded into the accumulated mapping one by one;
/// otherwise the incoming value replaces the accumulated one wholesale.
pub open spec fn merge_spec(a: SpecData, b: SpecData) -> SpecData
    decreases b,
{
    match (a, b) {
        (SpecData::Mapping(ap), SpecData::Mapping(bp)) => SpecData::Mapping(
            merge_pairs_spec(ap, bp),
        ),
        _ => b,
    }
}

/// Folds each incoming pair, left to right, into the accumulated pairs.
pub open spec fn merge_pairs_spec(
    ap: Seq<(Seq<char>, SpecData)>,
    bp: Seq<(Seq<char>, SpecData)>,
) -> Seq<(Seq<char>, SpecData)>
    decreases bp,
{
    if bp.len() == 0 {
        ap
    } else {
        merge_pairs_spec(merge_one_spec(ap, bp[0]), bp.drop_first())
    }
}

/// One incoming pair: a null value deletes the key; a value under a key
/// already present is merged into the stored value in place; a value
/// under a new key is merged into an empty mapping and appended.
pub open spec fn merge_one_spec(
    ap: Seq<(Seq<char>, SpecData)>,
    p: (Seq<char>, SpecData),
) -> Seq<(Seq<char>, SpecData)>
    decreases p,
{
    if p.1 is Null {
        remove_key(ap, p.0)
    } else {
        let i = key_index(ap, p.0);
        if i >= 0 {
            ap.update(i, (p.0, merge_spec(ap[i].1, p.1)))
        } else {
            ap.push((p.0, merge_spec(SpecData::Mapping(Seq::empty()), p.1)))
        }
    }
}

/// First position holding `key` in the pair vector, if any.
fn find_key(v: &Vec<(String, DataValue)>, key: &String) -> (r: Option<usize>)
    ensures
        r is Some <==> has_key(pairs_view(v@), key@),
        r matches Some(i) ==> i < v@.len() && i == key_index(pairs_view(v@), key@),
{
    let ghost vp = pairs_view(v@);
    let n = v.len();
    let mut j: usize = 0;
    while j < n
        invariant
            n == v@.len(),
            j <= n,
            vp == pairs_view(v@),
            key_index(vp, key@) == key_index_from(vp, key@, j as int),
        decreases n - j,
    {
        if v[j].0 == *key {
            return Some(j);
        }
        j = j + 1;
    }
    None
}

/// Removes every pair keyed `key`, keeping the order of the rest.
fn remove_key_exec(v: Vec<(String, DataValue)>, key: &String) -> (r: Vec<(String, DataValue)>)
    ensures
        pairs_view(r@) == remove_key(pairs_view(v@), key@),
{
    let ghost v0 = v;
    let ghost vp = pairs_view(v@);
    let mut rest = v;
    let mut out: Vec<(String, DataValue)> = Vec::new();
    let ghost mut k: int = 0;
    proof {
        assert(pairs_view(out@) =~= Seq::empty());
    }
    while rest.len() > 0
        invariant
            0 <= k <= vp.len(),
            vp == pairs_view(v0@),
            rest@ == v0@.subrange(k, v0@.len() as int),
            remove_key(vp, key@) == pairs_view(out@) + remove_key_from(vp, key@, k),
        decreases rest@.len(),
    {
        let e = rest.remove(0);
        proof {
            assert(e == v0@[k]);
            assert(rest@ =~= v0@.subrange(k + 1, v0@.len() as int));
            assert((pairs_view(v0@))[k] == (e.0@, e.1@));
        }
        if e.0 == *key {
            proof {
                k = k + 1;
            }
        } else {
            let ghost out_pre = out@;
            out.push(e);
            proof {
                assert(pairs_view(out@) =~= pairs_view(out_pre).push((e.0@, e.1@)));
                assert(remove_key_from(vp, key@, k) =~= seq![vp[k]] + remove_key_from(
                    vp,
                    key@,
                    k + 1,
                ));
                assert(pairs_view(out@) + remove_key_from(vp, key@, k + 1) =~= pairs_view(out_pre)
                    + remove_key_from(vp, key@, k));
                k = k + 1;
            }
        }
    }
    proof {
        assert(remove_key_from(vp, key@, k) =~= Seq::empty());
        assert(pairs_view(out@) + remove_key_from(vp, key@, k) =~= pairs_view(out@));
    }
    out
}

impl DataValue {
    /// Deep merge with null-deletion: the result is exactly
    /// `merge_spec` of the two models.
    pub fn merge(a: DataValue, b: DataValue) -> (r: DataValue)
        ensures
            r@ == merge_spec(a@, b@),
    {
        let ghost bg = b;
        DataValue::merge_inner(a, b, Ghost(bg))
    }

    /// Recursive worker; `g` pins the incoming value as the measure, so
    /// that consuming `b` does not lose it.
    fn merge_inner(a: DataValue, b: DataValue, g: Ghost<DataValue>) -> (r: DataValue)
        requires
            g@ == b,
        ensures
            r@ == merge_spec(a@, b@),
        decreases g@,
    {
        let ghost a0 = a;
        let ghost b0 = b;
        match (a, b) {
            (DataValue::Mapping(ap), DataValue::Mapping(bp)) => {
                let ghost ap0 = ap;
                let ghost bp0 = bp;
                let mut acc = ap;
                let mut rest = bp;
                let ghost mut k: int = 0;
                while rest.len() > 0
                    invariant
                        0 <= k <= bp0@.len(),
                        g@ == b0,
                        b0 == DataValue::Mapping(bp0),
                        rest@ == bp0@.subrange(k, bp0@.len() as int),
                        merge_pairs_spec(pairs_view(ap0@), pairs_view(bp0@)) == merge_pairs_spec(
                            pairs_view(acc@),
                            pairs_view(rest@),
                        ),
                    decreases rest@.len(),
                {
                    let ghost acc_pre = pairs_view(acc@);
                    let ghost rest_pre = pairs_view(rest@);
                    let p = rest.remove(0);
                    let ghost pg = p;
                    proof {
                        assert(p == bp0@[k]);
                        assert(rest@ =~= bp0@.subrange(k + 1, bp0@.len() as int));
                        assert(rest_pre[0] == (pg.0@, pg.1@));
                        assert(pairs_view(rest@) =~= rest_pre.drop_first());
                        assert(bp0 == b0->Mapping_0);
                        assert(decreases_to!(b0 => b0->Mapping_0));
                        assert(decreases_to!(b0 => bp0));
                        assert(decreases_to!(bp0 => p));
                    }
                    let (pk, pv) = p;
                    match pv {
                        DataValue::Null => {
                            acc = remove_key_exec(acc, &pk);
                            proof {
                                assert(merge_one_spec(acc_pre, rest_pre[0]) == pairs_view(acc@));
                            }
                        },
                        other => {
                            proof {
                                assert(other == pg.1);
                                assert(decreases_to!(pg => other));
                                assert(!(other@ is Null));
                            }
                            match find_key(&acc, &pk) {
                                Some(i) => {
                                    let ghost acc_rm = acc@;
                                    let entry = acc.remove(i);
                                    let merged = DataValue::merge_inner(
                                        entry.1,
                                        other,
                                        Ghost(pg.1),
                                    );
                                    acc.insert(i, (pk, merged));
                                    proof {
                                        assert(acc@ =~= acc_rm.update(i as int, (acc@[i as int])));
                                        assert(pairs_view(acc@) =~= acc_pre.update(
                                            i as int,
                                            (pg.0@, merge_spec(acc_pre[i as int].1, pg.1@)),
                                        ));
                                        assert(merge_one_spec(acc_pre, rest_pre[0]) == pairs_view(
                                            acc@,
                                        ));
                                    }
                                },
                                None => {
                                    let empty_map = DataValue::Mapping(Vec::new());
                                    proof {
                                        assert(pairs_view(Seq::<(String, DataValue)>::empty())
                                            =~= Seq::<(Seq<char>, SpecData)>::empty());
                                    }
                                    let merged = DataValue::merge_inner(
                                        empty_map,
                                        other,
                                        Ghost(pg.1),
                                    );
                                    acc.push((pk, merged));
                                    proof {
                                        assert(pairs_view(acc@) =~= acc_pre.push(
                                            (pg.0@, merge_spec(
                                                SpecData::Mapping(Seq::empty()),
                                                pg.1@,
                                            )),
                                        ));
                                        assert(merge_one_spec(acc_pre, rest_pre[0]) == pairs_view(
                                            acc@,
                                        ));
                                    }
                                },
                            }
                        },
                    }
                    proof {
                        k = k + 1;
                        assert(merge_pairs_spec(acc_pre, rest_pre) == merge_pairs_spec(
                            pairs_view(acc@),
                            pairs_view(rest@),
                        ));
                    }
                }
                proof {
                    assert(pairs_view(rest@) =~= Seq::empty());
                    assert(merge_pairs_spec(pairs_view(acc@), pairs_view(rest@)) == pairs_view(
                        acc@,
                    ));
                    assert(a0 == DataValue::Mapping(ap0));
                }
                DataValue::Mapping(acc)
            },
            (_, bv) => {
                proof {
                    assert(bv == b0);
                }
                bv
            },
        }
    }
}

impl DataValue {
    /// A deep copy with the same model.
    pub fn duplicate(&self) -> (r: DataValue)
        ensures
            r@ == self@,
        decreases self,
    {
        match self {
            DataValue::Null => DataValue::Null,
            DataValue::Bool(b) => DataValue::Bool(*b),
            DataValue::Int(i) => DataValue::Int(*i),
            DataValue::Text(s) => DataValue::Text(s.clone()),
            DataValue::Sequence(items) => {
                let n = items.len();
                let mut out: Vec<DataValue> = Vec::new();
                let mut i: usize = 0;
                while i < n
                    invariant
                        n == items@.len(),
                        i <= n,
                        out@.len() == i,
                        *self == DataValue::Sequence(*items),
                        forall|j: int| 0 <= j < i ==> (#[trigger] out@[j])@ == items@[j]@,
                    decreases n - i,
                {
                    proof {
                        assert(decreases_to!(*self => (*self)->Sequence_0));
                        assert(decreases_to!(*items => items@[i as int]));
                    }
                    let d = items[i].duplicate();
                    out.push(d);
                    i = i + 1;
                }
                proof {
                    assert(seq_view(out@) =~= seq_view(items@));
                }
                DataValue::Sequence(out)
            },
            DataValue::Mapping(pairs) => {
                let n = pairs.len();
                let mut out: Vec<(String, DataValue)> = Vec::new();
                let mut i: usize = 0;
                while i < n
                    invariant
                        n == pairs@.len(),
                        i <= n,
                        out@.len() == i,
                        *self == DataValue::Mapping(*pairs),
                        forall|j: int|
                            0 <= j < i ==> (#[trigger] out@[j]).0@ == pairs@[j].0@ && out@[j].1@
                                == pairs@[j].1@,
                    decreases n - i,
                {
                    proof {
                        assert(decreases_to!(*self => (*self)->Mapping_0));
                        assert(decreases_to!(*pairs => pairs@[i as int]));
                        assert(decreases_to!(pairs@[i as int] => pairs@[i as int].1));
                    }
                    let k = pairs[i].0.clone();
                    let d = pairs[i].1.duplicate();
                    out.push((k, d));
                    i = i + 1;
                }
                proof {
                    assert(pairs_view(out@) =~= pairs_view(pairs@));
                }
                DataValue::Mapping(out)
            },
        }
    }
}

/// The declared source format of a data file.
#[derive(Debug, PartialEq, Eq, Structural, Clone, Copy)]
pub enum DataFormat {
    Json,
    Toml,
}

/// Decides a data file's format from its extension, compared exactly
/// and case-sensitively: `json` and `toml` are the only formats.
pub fn data_format(path: &str) -> (r: Result<DataFormat, crate::errors::DataError>)
    ensures
        r == Ok::<DataFormat, crate::errors::DataError>(DataFormat::Json) <==> ext_spec(
            last_segment(norm_spec(path@)),
        ) == Some("json"@),
        r == Ok::<DataFormat, crate::errors::DataError>(DataFormat::Toml) <==> ext_spec(
            last_segment(norm_spec(path@)),
        ) == Some("toml"@),
        r is Err ==> r == Err::<DataFormat, crate::errors::DataError>(
            crate::errors::DataError::UnsupportedDataFormat,
        ),
{
    proof {
        reveal_strlit("json");
        reveal_strlit("toml");
    }
    let p = normalize_separators(path);
    let n: usize = p.as_str().unicode_len();
    let seg_start: usize = match last_index_of(p.as_str(), '/') {
        Some(i) => i + 1,
        None => 0,
    };
    let seg = p.as_str().substring_char(seg_start, n);
    proof {
        assert(seg@ =~= last_segment(p@));
    }
    let seg_len: usize = seg.unicode_len();
    let dot: usize = match last_index_of(seg, '.') {
        Some(d) if d >= 1 => d,
        _ => {
            return Err(crate::errors::DataError::UnsupportedDataFormat);
        },
    };
    let ext = String::from_str(seg.substring_char(dot + 1, seg_len));
    proof {
        lemma_last_index_bounds(seg@, '.');
        assert(ext@ =~= ext_spec(seg@).unwrap());
        assert(ext_spec(seg@) == Some(ext_spec(seg@).unwrap()));
        assert(ext_spec(seg@) == Some(ext@));
    }
    if ext == String::from_str("json") {
        proof {
            reveal_strlit("json");
            reveal_strlit("toml");
            assert(ext@ == "json"@);
            assert("json"@.len() == 4 && "json"@[0] == 'j' && "toml"@[0] == 't');
            assert("json"@ != "toml"@);
            assert(ext_spec(last_segment(norm_spec(path@))) != Some("toml"@));
        }
        Ok(DataFormat::Json)
    } else if ext == String::from_str("toml") {
        proof {
            assert(ext@ == "toml"@);
            assert(seg@ == last_segment(norm_spec(path@)));
            assert(ext_spec(last_segment(norm_spec(path@))) == Some("toml"@));
        }
        Ok(DataFormat::Toml)
    } else {
        Err(crate::errors::DataError::UnsupportedDataFormat)
    }
}

/// The context after folding each parsed document, left to right, into
/// the accumulated value.
pub open spec fn merge_list_spec(base: SpecData, files: Seq<SpecData>) -> SpecData
    decreases files.len(),
{
    if files.len() == 0 {
        base
    } else {
        merge_list_spec(merge_spec(base, files[0]), files.drop_first())
    }
}

/// Merges each parsed document into the base value, in declaration
/// order; later documents take precedence.
pub fn merge_all(base: DataValue, files: Vec<DataValue>) -> (r: DataValue)
    ensures
        r@ == merge_list_spec(base@, seq_view(files@)),
{
    let ghost base0 = base@;
    let ghost files0 = seq_view(files@);
    let mut acc = base;
    let mut rest = files;
    while rest.len() > 0
        invariant
            merge_list_spec(base0, files0) == merge_list_spec(acc@, seq_view(rest@)),
        decreases rest@.len(),
    {
        let ghost rest_pre = seq_view(rest@);
        let v = rest.remove(0);
        proof {
            assert(rest_pre[0] == v@);
            assert(seq_view(rest@) =~= rest_pre.drop_first());
        }
        acc = DataValue::merge(acc, v);
    }
    proof {
        assert(seq_view(rest@) =~= Seq::<SpecData>::empty());
    }
    acc
}

/// Key search shifted across a prepended element.
proof fn lemma_key_index_shift(
    x: (Seq<char>, SpecData),
    t: Seq<(Seq<char>, SpecData)>,
    k: Seq<char>,
    j: int,
)
    requires
        0 <= j,
    ensures
        key_index_from(seq![x] + t, k, j + 1) == (if key_index_from(t, k, j) == -1 {
            -1
        } else {
            key_index_from(t, k, j) + 1
        }),
    decreases t.len() - j,
{
    let s = seq![x] + t;
    if j < t.len() {
        assert(s[j + 1] == t[j]);
        lemma_key_index_shift(x, t, k, j + 1);
    }
}

/// What the first-match index means: `-1` reports no match from `j`
/// on; a nonnegative index is the first match from `j`.
proof fn lemma_key_index_from_props(s: Seq<(Seq<char>, SpecData)>, k: Seq<char>, j: int)
    requires
        0 <= j,
    ensures
        -1 <= key_index_from(s, k, j),
        key_index_from(s, k, j) == -1 ==> forall|i: int|
            j <= i < s.len() ==> (#[trigger] s[i]).0 != k,
        key_index_from(s, k, j) >= 0 ==> j <= key_index_from(s, k, j) < s.len() && s[key_index_from(
            s,
            k,
            j,
        )].0 == k && forall|i: int| j <= i < key_index_from(s, k, j) ==> (#[trigger] s[i]).0 != k,
    decreases s.len() - j,
{
    if j < s.len() && s[j].0 != k {
        lemma_key_index_from_props(s, k, j + 1);
    }
}

/// No match anywhere means the search reports `-1`.
proof fn lemma_key_index_none(s: Seq<(Seq<char>, SpecData)>, k: Seq<char>, j: int)
    requires
        0 <= j,
        forall|i: int| j <= i < s.len() ==> (#[trigger] s[i]).0 != k,
    ensures
        key_index_from(s, k, j) == -1,
    decreases s.len() - j,
{
    if j < s.len() {
        lemma_key_index_none(s, k, j + 1);
    }
}

/// The first match is at `i` when nothing before `i` matches.
proof fn lemma_key_index_at(s: Seq<(Seq<char>, SpecData)>, k: Seq<char>, i: int, j: int)
    requires
        0 <= j <= i < s.len(),
        s[i].0 == k,
        forall|m: int| j <= m < i ==> (#[trigger] s[m]).0 != k,
    ensures
        key_index_from(s, k, j) == i,
    decreases i - j,
{
    if j < i {
        lemma_key_index_at(s, k, i, j + 1);
    }
}

/// Removal keeps every other key's first match: the looked-up value
/// under any key other than the removed one is unchanged.
proof fn lemma_remove_lookup_from(
    ap: Seq<(Seq<char>, SpecData)>,
    k: Seq<char>,
    k2: Seq<char>,
    j: int,
)
    requires
        k2 != k,
        0 <= j,
    ensures
        ({
            let r = remove_key_from(ap, k, j);
            let kia = key_index_from(ap, k2, j);
            (kia == -1 ==> key_index(r, k2) == -1) && (kia >= 0 ==> key_index(r, k2) >= 0 && r[
                key_index(r, k2)
            ] == ap[kia])
        }),
    decreases ap.len() - j,
{
    if j >= ap.len() {
    } else if ap[j].0 == k {
        lemma_remove_lookup_from(ap, k, k2, j + 1);
    } else {
        let r = remove_key_from(ap, k, j);
        let t = remove_key_from(ap, k, j + 1);
        assert(r == seq![ap[j]] + t);
        assert(r[0] == ap[j]);
        lemma_remove_lookup_from(ap, k, k2, j + 1);
        if ap[j].0 == k2 {
            assert(key_index(r, k2) == 0);
            assert(key_index_from(ap, k2, j) == j);
        } else {
            lemma_key_index_shift(ap[j], t, k2, 0);
            lemma_key_index_from_props(t, k2, 0);
            if key_index(t, k2) >= 0 {
                assert(r[key_index(t, k2) + 1] == t[key_index(t, k2)]);
            }
        }
    }
}

/// No pair of the removal result keeps the removed key.
proof fn lemma_remove_no_key(ap: Seq<(Seq<char>, SpecData)>, k: Seq<char>, j: int)
    requires
        0 <= j,
    ensures
        forall|i: int|
            0 <= i < remove_key_from(ap, k, j).len() ==> (#[trigger] remove_key_from(ap, k, j)[i]).0
                != k,
    decreases ap.len() - j,
{
    if j >= ap.len() {
    } else if ap[j].0 == k {
        lemma_remove_no_key(ap, k, j + 1);
    } else {
        lemma_remove_no_key(ap, k, j + 1);
        let r = remove_key_from(ap, k, j);
        let t = remove_key_from(ap, k, j + 1);
        assert forall|i: int| 0 <= i < r.len() implies (#[trigger] r[i]).0 != k by {
            if i == 0 {
                assert(r[0] == ap[j]);
            } else {
                assert(r[i] == t[i - 1]);
                assert(t[i - 1].0 != k);
            }
        }
    }
}

/// How one folded pair changes the value found under any key.
proof fn lemma_merge_one_lookup(
    ap: Seq<(Seq<char>, SpecData)>,
    p: (Seq<char>, SpecData),
    k2: Seq<char>,
)
    ensures
        p.0 != k2 ==> lookup(merge_one_spec(ap, p), k2) == lookup(ap, k2),
        p.0 == k2 && p.1 is Null ==> !has_key(merge_one_spec(ap, p), k2),
        p.0 == k2 && !(p.1 is Null) ==> lookup(merge_one_spec(ap, p), k2) == Some(
            merge_spec(
                if has_key(ap, k2) {
                    ap[key_index(ap, k2)].1
                } else {
                    SpecData::Mapping(Seq::empty())
                },
                p.1,
            ),
        ),
{
    let r = merge_one_spec(ap, p);
    lemma_key_index_from_props(ap, p.0, 0);
    lemma_key_index_from_props(ap, k2, 0);
    if p.1 is Null {
        if p.0 == k2 {
            lemma_remove_no_key(ap, p.0, 0);
            lemma_key_index_from_props(r, k2, 0);
        } else {
            lemma_remove_lookup_from(ap, p.0, k2, 0);
            lemma_key_index_from_props(r, k2, 0);
        }
    } else {
        let i = key_index(ap, p.0);
        if i >= 0 {
            let u = ap.update(i, (p.0, merge_spec(ap[i].1, p.1)));
            assert(r == u);
            if p.0 == k2 {
                lemma_key_index_at(u, k2, i, 0);
            } else {
                let i2 = key_index(ap, k2);
                if i2 >= 0 {
                    assert(i2 != i);
                    assert(u[i2] == ap[i2]);
                    lemma_key_index_at(u, k2, i2, 0);
                } else {
                    assert forall|m: int| 0 <= m < u.len() implies (#[trigger] u[m]).0 != k2 by {
                        if m == i {
                            assert(u[m].0 == p.0);
                        } else {
                            assert(u[m] == ap[m]);
                        }
                    }
                    lemma_key_index_none(u, k2, 0);
                }
            }
        } else {
            let u = ap.push((p.0, merge_spec(SpecData::Mapping(Seq::empty()), p.1)));
            assert(r == u);
            assert(forall|m: int| 0 <= m < ap.len() ==> u[m] == ap[m]);
            if p.0 == k2 {
                assert(forall|m: int| 0 <= m < ap.len() ==> (#[trigger] ap[m]).0 != k2);
                assert(u[ap.len() as int].0 == k2);
                lemma_key_index_at(u, k2, ap.len() as int, 0);
            } else {
                let i2 = key_index(ap, k2);
                if i2 >= 0 {
                    assert(u[i2] == ap[i2]);
                    lemma_key_index_at(u, k2, i2, 0);
                } else {
                    assert forall|m: int| 0 <= m < u.len() implies (#[trigger] u[m]).0 != k2 by {
                        if m == ap.len() as int {
                            assert(u[m].0 == p.0);
                        } else {
                            assert(u[m] == ap[m]);
                        }
                    }
                    lemma_key_index_none(u, k2, 0);
                }
            }
        }
    }
}

/// What the whole fold leaves under any key, when the incoming
/// mapping's keys are distinct: a key the incoming mapping does not
/// hold keeps its old value; a null incoming value deletes the key; a
/// non-null incoming value ends up merged into what was stored (an
/// empty mapping, for a fresh key).
pub proof fn lemma_merge_pairs_lookup(
    ap: Seq<(Seq<char>, SpecData)>,
    bp: Seq<(Seq<char>, SpecData)>,
    k: Seq<char>,
)
    requires
        wf_pairs(bp),
    ensures
        !has_key(bp, k) ==> lookup(merge_pairs_spec(ap, bp), k) == lookup(ap, k),
        has_key(bp, k) && bp[key_index(bp, k)].1 is Null ==> !has_key(merge_pairs_spec(ap, bp), k),
        has_key(bp, k) && !(bp[key_index(bp, k)].1 is Null) ==> lookup(merge_pairs_spec(ap, bp), k)
            == Some(
            merge_spec(
                if has_key(ap, k) {
                    ap[key_index(ap, k)].1
                } else {
                    SpecData::Mapping(Seq::empty())
                },
                bp[key_index(bp, k)].1,
            ),
        ),
    decreases bp.len(),
{
    if bp.len() == 0 {
        lemma_key_index_from_props(bp, k, 0);
    } else {
        let acc = merge_one_spec(ap, bp[0]);
        let t = bp.drop_first();
        assert(bp == seq![bp[0]] + t);
        assert(wf_pairs(t)) by {
            assert(forall|i: int, j: int|
                0 <= i < j < t.len() ==> t[i] == bp[i + 1] && t[j] == bp[j + 1]);
        }
        lemma_merge_pairs_lookup(acc, t, k);
        lemma_merge_one_lookup(ap, bp[0], k);
        lemma_key_index_shift(bp[0], t, k, 0);
        if bp[0].0 == k {
            assert(key_index(bp, k) == 0);
            assert(forall|i: int| 0 <= i < t.len() ==> t[i] == bp[i + 1]);
            assert(forall|i: int| 0 <= i < t.len() ==> (#[trigger] t[i]).0 != k);
            lemma_key_index_from_props(t, k, 0);
            assert(!has_key(t, k));
        } else {
            lemma_key_index_from_props(t, k, 0);
            lemma_key_index_from_props(bp, k, 0);
            if key_index(t, k) >= 0 {
                assert(bp[key_index(t, k) + 1] == t[key_index(t, k)]);
            }
        }
    }
}

/// Removal yields a well-formed pair list drawn from the input pairs.
proof fn lemma_remove_wf(ap: Seq<(Seq<char>, SpecData)>, k: Seq<char>, j: int)
    requires
        wf_pairs(ap),
        0 <= j,
    ensures
        wf_pairs(remove_key_from(ap, k, j)),
        forall|i: int|
            0 <= i < remove_key_from(ap, k, j).len() ==> exists|m: int|
                j <= m < ap.len() && ap[m] == #[trigger] remove_key_from(ap, k, j)[i],
    decreases ap.len() - j,
{
    if j >= ap.len() {
    } else if ap[j].0 == k {
        lemma_remove_wf(ap, k, j + 1);
    } else {
        lemma_remove_wf(ap, k, j + 1);
        let r = remove_key_from(ap, k, j);
        let t = remove_key_from(ap, k, j + 1);
        assert(r == seq![ap[j]] + t);
        assert(r[0] == ap[j]);
        assert forall|i: int| 0 <= i < r.len() implies exists|m: int|
            j <= m < ap.len() && ap[m] == #[trigger] r[i] by {
            if i == 0 {
                assert(ap[j] == r[0]);
            } else {
                assert(r[i] == t[i - 1]);
                let m = choose|m: int| j + 1 <= m < ap.len() && ap[m] == t[i - 1];
                assert(ap[m] == r[i]);
            }
        }
        assert forall|i1: int, i2: int| 0 <= i1 < i2 < r.len() implies r[i1].0 != r[i2].0 by {
            if i1 == 0 {
                assert(r[i2] == t[i2 - 1]);
                let m = choose|m: int| j + 1 <= m < ap.len() && ap[m] == t[i2 - 1];
                assert(ap[j].0 != ap[m].0);
            } else {
                assert(r[i1] == t[i1 - 1]);
                assert(r[i2] == t[i2 - 1]);
            }
        }
    }
}

/// One folded pair keeps the accumulated keys pairwise distinct.
proof fn lemma_merge_one_wf(ap: Seq<(Seq<char>, SpecData)>, p: (Seq<char>, SpecData))
    requires
        wf_pairs(ap),
    ensures
        wf_pairs(merge_one_spec(ap, p)),
{
    lemma_key_index_from_props(ap, p.0, 0);
    if p.1 is Null {
        lemma_remove_wf(ap, p.0, 0);
    } else {
        let i = key_index(ap, p.0);
        if i >= 0 {
            let u = ap.update(i, (p.0, merge_spec(ap[i].1, p.1)));
            assert(ap[i].0 == p.0);
            assert(forall|m: int| 0 <= m < u.len() ==> (#[trigger] u[m]).0 == ap[m].0);
        } else {
            let u = ap.push((p.0, merge_spec(SpecData::Mapping(Seq::empty()), p.1)));
            assert(forall|m: int| 0 <= m < ap.len() ==> u[m] == ap[m]);
            assert(u[ap.len() as int].0 == p.0);
        }
    }
}

/// Merging keeps the context's invariant: with the accumulated
/// mapping's keys pairwise distinct, the merged mapping's keys are
/// pairwise distinct too, whatever the incoming mapping holds.
pub proof fn lemma_merge_pairs_preserves_wf(
    ap: Seq<(Seq<char>, SpecData)>,
    bp: Seq<(Seq<char>, SpecData)>,
)
    requires
        wf_pairs(ap),
    ensures
        wf_pairs(merge_pairs_spec(ap, bp)),
    decreases bp.len(),
{
    if bp.len() > 0 {
        lemma_merge_one_wf(ap, bp[0]);
        lemma_merge_pairs_preserves_wf(merge_one_spec(ap, bp[0]), bp.drop_first());
    }
}

/// An incoming value that is not a mapping replaces the accumulated
/// value wholesale; sequences in particular are never merged
/// element-wise.
pub proof fn lemma_merge_replaces_non_mapping(a: SpecData, b: SpecData)
    requires
        !(b is Mapping),
    ensures
        merge_spec(a, b) == b,
{
}

/// Null-deletion: when the incoming mapping holds null under a key,
/// the merged mapping does not hold that key at all.
pub proof fn lemma_merge_null_deletes(ap: Seq<(Seq<char>, SpecData)>, bp: Seq<(Seq<char>, SpecData)>, k: Seq<char>)
    requires
        wf_pairs(bp),
        has_key(bp, k),
        bp[key_index(bp, k)].1 is Null,
    ensures
        !has_key(merge_pairs_spec(ap, bp), k),
{
    lemma_merge_pairs_lookup(ap, bp, k);
}

/// Order precedence: merging base data with data files `[f1, f2]` in
/// declaration order, a key the later file binds to a scalar or
/// sequence value holds exactly that later value, whatever the base
/// and the earlier file said of it.
pub proof fn lemma_merge_order_precedence(
    base: SpecData,
    f1: SpecData,
    f2p: Seq<(Seq<char>, SpecData)>,
    k: Seq<char>,
)
    requires
        wf_pairs(f2p),
        has_key(f2p, k),
        !(f2p[key_index(f2p, k)].1 is Null),
        !(f2p[key_index(f2p, k)].1 is Mapping),
    ensures
        ({
            let m = merge_list_spec(base, seq![f1, SpecData::Mapping(f2p)]);
            m is Mapping && lookup(m->Mapping_0, k) == Some(f2p[key_index(f2p, k)].1)
        }),
{
    let files = seq![f1, SpecData::Mapping(f2p)];
    let tail = files.drop_first();
    assert(files[0] == f1);
    assert(tail =~= seq![SpecData::Mapping(f2p)]);
    assert(tail[0] == SpecData::Mapping(f2p));
    assert(tail.drop_first() =~= Seq::<SpecData>::empty());
    assert(merge_list_spec(base, files) == merge_list_spec(merge_spec(base, f1), tail));
    assert(merge_list_spec(merge_spec(base, f1), tail) == merge_list_spec(
        merge_spec(merge_spec(base, f1), SpecData::Mapping(f2p)),
        tail.drop_first(),
    ));
    assert(merge_list_spec(base, files) == merge_spec(
        merge_spec(base, f1),
        SpecData::Mapping(f2p),
    ));
    let m1 = merge_spec(base, f1);
    if m1 is Mapping {
        lemma_merge_pairs_lookup(m1->Mapping_0, f2p, k);
    } else {
        assert(merge_spec(m1, SpecData::Mapping(f2p)) == SpecData::Mapping(f2p));
        lemma_key_index_from_props(f2p, k, 0);
    }
}

} // verus!
