//! Rebuilding the night and trajectory indices of a stored dataset.
//!
//! A stored dataset keeps, for each observation, the night and the
//! trajectories it belongs to.  On loading, the indices are rebuilt from
//! those memberships, each entry as a position list or, where the
//! [`IndexLayout`] asks for it and the positions form one block, as a range.
use vstd::prelude::*;
use vstd::seq_lib::group_to_multiset_ensures;

use crate::index::{
    is_split_index, lemma_split_positions_exact, positions_of, shape_positions, night_index_entries, night_index_insert, night_index_new, night_index_remove,
    traj_index_entries, traj_index_insert, traj_index_new, traj_index_remove, IndexShape,
    NightIndexMap, ObsIndex, ObsMapIndex, TrajIndexMap, alias_entries, alias_map_insert,
    alias_map_get, alias_map_new, TrajAliasMap,
};
use crate::{NightId, TrajId, TrajKey};
use crate::text::{concat, decimal, u64_decimal};

verus! {

/// Current version of the stored dataset layout.  Version 1 had no index
/// memberships and no aliases; version 2 adds them.
pub const FORMAT_VERSION: u32 = 2;

/// How rebuilt index entries are represented.
#[derive(Clone, Copy, Debug)]
pub enum IndexLayout {
    /// Always a list of positions; safe for any order of observations.
    Split,
    /// A range when a group's positions form one block without gaps, a list
    /// of positions otherwise.
    TryContiguous,
}

/// The layout a stored dataset is loaded with.
#[derive(Clone, Copy, Debug)]
pub struct ObsDatasetSeed {
    pub layout: IndexLayout,
}

/// `s` is in non-decreasing order.
pub open spec fn nondecreasing(s: Seq<usize>) -> bool {
    forall|i: int, j: int| 0 <= i <= j < s.len() ==> s[i] <= s[j]
}

/// `s` holds the elements of `t` in non-decreasing order.
pub open spec fn sorted_perm(s: Seq<usize>, t: Seq<usize>) -> bool {
    nondecreasing(s) && s.to_multiset() == t.to_multiset()
}

/// `s` runs through consecutive positions from its first one, each once.
pub open spec fn consecutive(s: Seq<usize>) -> bool {
    forall|i: int| 0 <= i < s.len() ==> #[trigger] s[i] == s[0] + i
}

/// The entry of the sorted positions `s` when a range is tried: the range
/// from the first position to one past the last when every position in
/// between occurs exactly once (no gap and no repeat), else the list itself.
pub open spec fn try_contiguous_shape(s: Seq<usize>) -> IndexShape {
    if s.len() > 0 && consecutive(s) {
        IndexShape::Contiguous(s[0], (s[0] + s.len()) as usize)
    } else {
        IndexShape::Split(s)
    }
}

/// `slice::sort_unstable` on positions: the same positions, in increasing
/// order (equal positions are indistinguishable, so no order among them is
/// left open).
#[verifier::external_body]
fn sort_positions(v: &mut Vec<ObsIndex>)
    ensures
        sorted_perm(final(v)@, old(v)@),
{
    v.sort_unstable();
}

/// Two non-decreasing sequences with the same elements are equal.
pub proof fn lemma_sorted_perm_unique(a: Seq<usize>, b: Seq<usize>)
    requires
        nondecreasing(a),
        nondecreasing(b),
        a.to_multiset() == b.to_multiset(),
    ensures
        a == b,
    decreases a.len(),
{
    broadcast use group_to_multiset_ensures;

    assert(a.len() == a.to_multiset().len());
    assert(b.len() == b.to_multiset().len());
    if a.len() > 0 {
        let x = a.last();
        let y = b.last();
        assert(a.to_multiset().count(x) > 0) by {
            assert(a.contains(x)) by {
                assert(a[a.len() - 1] == x);
            }
        }
        assert(b.contains(x));
        let j = choose|j: int| 0 <= j < b.len() && b[j] == x;
        assert(x <= y);
        assert(b.to_multiset().count(y) > 0) by {
            assert(b.contains(y)) by {
                assert(b[b.len() - 1] == y);
            }
        }
        assert(a.contains(y));
        let i = choose|i: int| 0 <= i < a.len() && a[i] == y;
        assert(y <= x);
        let a0 = a.drop_last();
        let b0 = b.drop_last();
        assert(a0.push(x) =~= a);
        assert(b0.push(x) =~= b);
        assert(a0.to_multiset() =~= b0.to_multiset()) by {
            assert(a0.push(x).to_multiset() == a0.to_multiset().insert(x));
            assert(b0.push(x).to_multiset() == b0.to_multiset().insert(x));
            assert forall|z: usize| a0.to_multiset().count(z) == b0.to_multiset().count(z) by {
                assert(a0.to_multiset().insert(x).count(z) == b0.to_multiset().insert(x).count(z));
            }
        }
        lemma_sorted_perm_unique(a0, b0);
        assert(a =~= b);
    }
}

/// The entry for a group's positions under `layout`.  With `Split` the
/// positions are kept as given; with `TryContiguous` they are sorted and
/// stored as a range when they form one block.
pub fn to_obs_map_index(indices: Vec<ObsIndex>, layout: &IndexLayout) -> (r: ObsMapIndex)
    requires
        *layout is TryContiguous ==> indices@.len() > 0,
        *layout is TryContiguous ==> forall|i: int|
            0 <= i < indices@.len() ==> indices@[i] < usize::MAX,
    ensures
        *layout is Split ==> r@ == IndexShape::Split(indices@),
        *layout is TryContiguous ==> forall|s: Seq<usize>|
            sorted_perm(s, indices@) ==> r@ == try_contiguous_shape(s),
{
    match layout {
        IndexLayout::Split => ObsMapIndex::Split(indices),
        IndexLayout::TryContiguous => {
            let ghost orig = indices@;
            let mut indices = indices;
            sort_positions(&mut indices);
            proof {
                broadcast use group_to_multiset_ensures;

                assert(indices@.len() == indices@.to_multiset().len());
                assert(orig.len() == orig.to_multiset().len());
                assert forall|i: int| 0 <= i < indices@.len() implies indices@[i] < usize::MAX by {
                    assert(indices@.to_multiset().count(indices@[i]) > 0) by {
                        assert(indices@.contains(indices@[i]));
                    }
                    assert(orig.contains(indices@[i]));
                }
                assert forall|s: Seq<usize>| sorted_perm(s, orig) implies s == indices@ by {
                    lemma_sorted_perm_unique(s, indices@);
                }
            }
            let n = indices.len();
            let start = indices[0];
            let mut i: usize = 1;
            while i < n && indices[i] == start + i
                invariant
                    1 <= i <= n,
                    n == indices@.len(),
                    start == indices@[0],
                    start + i <= usize::MAX,
                    forall|j: int| 0 <= j < n ==> indices@[j] < usize::MAX,
                    forall|j: int| 0 <= j < i ==> #[trigger] indices@[j] == start + j,
                decreases n - i,
            {
                i += 1;
            }
            if i == n {
                let end = indices[n - 1] + 1;
                ObsMapIndex::Contiguous { start, end }
            } else {
                proof {
                    assert(indices@[i as int] != indices@[0] + i);
                }
                ObsMapIndex::Split(indices)
            }
        },
    }
}

/// The message a stored dataset of another format version is refused with.
pub open spec fn version_message(v: u32) -> Seq<char> {
    "unsupported ObsDataset format version "@ + decimal(v as nat) + " (expected "@ + decimal(
        FORMAT_VERSION as nat,
    ) + ")"@
}

/// Accept a stored dataset of the current format version, refuse any other
/// with a message that names both versions.
pub fn check_format_version(version: u32) -> (r: Result<(), String>)
    ensures
        r is Ok <==> version == FORMAT_VERSION,
        r matches Err(m) ==> m@ == version_message(version),
{
    if version == FORMAT_VERSION {
        Ok(())
    } else {
        let a = concat("unsupported ObsDataset format version ", u64_decimal(version as u64).as_str());
        let b = concat(a.as_str(), " (expected ");
        let c = concat(b.as_str(), u64_decimal(FORMAT_VERSION as u64).as_str());
        let d = concat(c.as_str(), ")");
        Err(d)
    }
}


/// The index memberships of one stored observation.
pub struct ObsMembership {
    /// The night of the observation, if it has one.
    pub night_id: Option<NightId>,
    /// The trajectories the observation belongs to (possibly several).
    pub traj_ids: Vec<TrajId>,
}

/// `i` once for each occurrence of `k` in `ks`.
pub open spec fn row_hits<V>(ks: Seq<V>, k: V, i: usize) -> Seq<usize>
    decreases ks.len(),
{
    if ks.len() == 0 {
        Seq::empty()
    } else if ks.last() == k {
        row_hits(ks.drop_last(), k, i).push(i)
    } else {
        row_hits(ks.drop_last(), k, i)
    }
}

/// The positions of `k` in the per-row key lists `ms`: row by row, each
/// row once per occurrence of `k` in its list.
pub open spec fn member_positions<V>(ms: Seq<Seq<V>>, k: V) -> Seq<usize>
    decreases ms.len(),
{
    if ms.len() == 0 {
        Seq::empty()
    } else {
        member_positions(ms.drop_last(), k) + row_hits(ms.last(), k, (ms.len() - 1) as usize)
    }
}

/// The night of each stored observation, as a list of zero or one key.
pub open spec fn night_lists(ms: Seq<ObsMembership>) -> Seq<Seq<u32>> {
    ms.map_values(
        |m: ObsMembership|
            match m.night_id {
                Some(n) => seq![n.0],
                None => Seq::<u32>::empty(),
            },
    )
}

/// The views of a list of trajectory identifiers.
pub open spec fn traj_views(ts: Seq<TrajId>) -> Seq<TrajKey> {
    ts.map_values(|t: TrajId| t@)
}

/// The trajectories of each stored observation.
pub open spec fn traj_lists(ms: Seq<ObsMembership>) -> Seq<Seq<TrajKey>> {
    ms.map_values(|m: ObsMembership| traj_views(m.traj_ids@))
}

/// The entry for the sorted positions `p` under `layout`.
pub open spec fn layout_shape(layout: IndexLayout, p: Seq<usize>) -> IndexShape {
    match layout {
        IndexLayout::Split => IndexShape::Split(p),
        IndexLayout::TryContiguous => try_contiguous_shape(p),
    }
}

/// `entries` is the index rebuilt from the key lists `ms`: every key with
/// positions, and only those, maps to the entry of its positions.
pub open spec fn is_rebuilt_index<V>(
    ms: Seq<Seq<V>>,
    entries: Map<V, IndexShape>,
    layout: IndexLayout,
) -> bool {
    &&& forall|k: V| #[trigger] entries.contains_key(k) <==> member_positions(ms, k).len() > 0
    &&& forall|k: V| #[trigger]
        entries.contains_key(k) ==> entries[k] == layout_shape(layout, member_positions(ms, k))
}

/// Some key has positions in `ms`.
pub open spec fn has_members<V>(ms: Seq<Seq<V>>) -> bool {
    exists|k: V| #[trigger] member_positions(ms, k).len() > 0
}

proof fn lemma_row_hits_push<V>(ks: Seq<V>, x: V, k: V, i: usize)
    ensures
        row_hits(ks.push(x), k, i) == if x == k {
            row_hits(ks, k, i).push(i)
        } else {
            row_hits(ks, k, i)
        },
{
    assert(ks.push(x).drop_last() =~= ks);
}

proof fn lemma_row_hits_all<V>(ks: Seq<V>, k: V, i: usize)
    ensures
        forall|j: int| 0 <= j < row_hits(ks, k, i).len() ==> row_hits(ks, k, i)[j] == i,
    decreases ks.len(),
{
    if ks.len() > 0 {
        lemma_row_hits_all(ks.drop_last(), k, i);
        let p = row_hits(ks.drop_last(), k, i);
        if ks.last() == k {
            assert forall|j: int| 0 <= j < p.push(i).len() implies p.push(i)[j] == i by {
                if j < p.len() {
                    assert(p.push(i)[j] == p[j]);
                }
            }
        }
    }
}

proof fn lemma_member_positions_push<V>(ms: Seq<Seq<V>>, l: Seq<V>, k: V)
    ensures
        member_positions(ms.push(l), k) == member_positions(ms, k) + row_hits(
            l,
            k,
            ms.len() as usize,
        ),
{
    assert(ms.push(l).drop_last() =~= ms);
}

/// The positions of a key are increasing row numbers of `ms`.
proof fn lemma_member_positions_sorted<V>(ms: Seq<Seq<V>>, k: V)
    requires
        ms.len() <= usize::MAX,
    ensures
        nondecreasing(member_positions(ms, k)),
        forall|j: int|
            0 <= j < member_positions(ms, k).len() ==> member_positions(ms, k)[j] < ms.len(),
    decreases ms.len(),
{
    if ms.len() > 0 {
        let init = ms.drop_last();
        let i = (ms.len() - 1) as usize;
        lemma_member_positions_sorted(init, k);
        lemma_row_hits_all(ms.last(), k, i);
        let a = member_positions(init, k);
        let b = row_hits(ms.last(), k, i);
        assert forall|x: int, y: int| 0 <= x <= y < (a + b).len() implies (a + b)[x] <= (a
            + b)[y] by {
            if y >= a.len() {
                assert((a + b)[y] == b[y - a.len()]);
                if x < a.len() {
                    assert((a + b)[x] == a[x]);
                } else {
                    assert((a + b)[x] == b[x - a.len()]);
                }
            } else {
                assert((a + b)[x] == a[x]);
                assert((a + b)[y] == a[y]);
            }
        }
        assert forall|j: int| 0 <= j < (a + b).len() implies (a + b)[j] < ms.len() by {
            if j < a.len() {
                assert((a + b)[j] == a[j]);
            } else {
                assert((a + b)[j] == b[j - a.len()]);
            }
        }
    }
}

/// The positions of a key, when sorted, are themselves.
proof fn lemma_positions_sorted_perm<V>(ms: Seq<Seq<V>>, k: V)
    requires
        ms.len() <= usize::MAX,
    ensures
        sorted_perm(member_positions(ms, k), member_positions(ms, k)),
        forall|j: int|
            0 <= j < member_positions(ms, k).len() ==> member_positions(ms, k)[j] < usize::MAX,
{
    lemma_member_positions_sorted(ms, k);
}


/// The positions of `k` gathered so far: those of the complete rows `ms`,
/// then those of the keys `tail` read from the next row.
pub open spec fn acc_positions<V>(ms: Seq<Seq<V>>, tail: Seq<V>, k: V) -> Seq<usize> {
    member_positions(ms, k) + row_hits(tail, k, ms.len() as usize)
}

/// An accumulating index: each key with gathered positions maps to their
/// list, and `seen` lists those keys once each.
pub open spec fn split_acc<V>(
    ms: Seq<Seq<V>>,
    tail: Seq<V>,
    entries: Map<V, IndexShape>,
    seen: Seq<V>,
) -> bool {
    &&& forall|k: V| #[trigger] entries.contains_key(k) <==> acc_positions(ms, tail, k).len() > 0
    &&& forall|k: V| #[trigger]
        entries.contains_key(k) ==> entries[k] == IndexShape::Split(acc_positions(ms, tail, k))
    &&& seen.no_duplicates()
    &&& forall|k: V| #[trigger] entries.contains_key(k) <==> seen.contains(k)
}

proof fn lemma_acc_empty<V>(entries: Map<V, IndexShape>)
    requires
        entries.dom() == Set::<V>::empty(),
    ensures
        split_acc(Seq::<Seq<V>>::empty(), Seq::<V>::empty(), entries, Seq::<V>::empty()),
{
    assert forall|k: V| #[trigger]
        entries.contains_key(k) <==> acc_positions(
            Seq::<Seq<V>>::empty(),
            Seq::<V>::empty(),
            k,
        ).len() > 0 by {
        assert(!entries.dom().contains(k));
    }
    assert forall|k: V| #[trigger]
        entries.contains_key(k) <==> Seq::<V>::empty().contains(k) by {
        assert(!entries.dom().contains(k));
    }
}

proof fn lemma_acc_push<V>(
    ms: Seq<Seq<V>>,
    tail: Seq<V>,
    entries: Map<V, IndexShape>,
    seen: Seq<V>,
    x: V,
)
    requires
        split_acc(ms, tail, entries, seen),
    ensures
        split_acc(
            ms,
            tail.push(x),
            entries.insert(
                x,
                IndexShape::Split(acc_positions(ms, tail, x).push(ms.len() as usize)),
            ),
            if entries.contains_key(x) {
                seen
            } else {
                seen.push(x)
            },
        ),
{
    let i = ms.len() as usize;
    let t2 = tail.push(x);
    let e2 = entries.insert(x, IndexShape::Split(acc_positions(ms, tail, x).push(i)));
    let s2 = if entries.contains_key(x) {
        seen
    } else {
        seen.push(x)
    };
    assert forall|k: V| acc_positions(ms, t2, k) == if k == x {
        acc_positions(ms, tail, k).push(i)
    } else {
        acc_positions(ms, tail, k)
    } by {
        lemma_row_hits_push(tail, x, k, i);
        if k == x {
            assert(member_positions(ms, k) + row_hits(tail, k, i).push(i) =~= (member_positions(
                ms,
                k,
            ) + row_hits(tail, k, i)).push(i));
        }
    }
    assert forall|k: V| #[trigger] e2.contains_key(k) <==> acc_positions(ms, t2, k).len() > 0 by {}
    assert forall|k: V| #[trigger] e2.contains_key(k) implies e2[k] == IndexShape::Split(
        acc_positions(ms, t2, k),
    ) by {}
    if !entries.contains_key(x) {
        assert(!seen.contains(x));
        assert forall|a: int, b: int| 0 <= a < s2.len() && 0 <= b < s2.len() && a != b implies s2[a]
            != s2[b] by {
            if a < seen.len() && b < seen.len() {
                assert(s2[a] == seen[a] && s2[b] == seen[b]);
            } else if a < seen.len() {
                assert(s2[a] == seen[a]);
            } else if b < seen.len() {
                assert(s2[b] == seen[b]);
            }
        }
        assert forall|k: V| #[trigger] e2.contains_key(k) <==> s2.contains(k) by {
            if seen.contains(k) {
                let j = choose|j: int| 0 <= j < seen.len() && seen[j] == k;
                assert(s2[j] == k);
            }
            if k == x {
                assert(s2[seen.len() as int] == x);
            }
            if s2.contains(k) {
                let j = choose|j: int| 0 <= j < s2.len() && s2[j] == k;
                if j < seen.len() {
                    assert(seen[j] == k);
                }
            }
        }
    }
}

proof fn lemma_acc_close<V>(
    ms: Seq<Seq<V>>,
    tail: Seq<V>,
    entries: Map<V, IndexShape>,
    seen: Seq<V>,
)
    requires
        split_acc(ms, tail, entries, seen),
    ensures
        split_acc(ms.push(tail), Seq::<V>::empty(), entries, seen),
{
    assert forall|k: V| acc_positions(ms.push(tail), Seq::<V>::empty(), k) == acc_positions(
        ms,
        tail,
        k,
    ) by {
        lemma_member_positions_push(ms, tail, k);
        assert(member_positions(ms.push(tail), k) + Seq::<usize>::empty() =~= member_positions(
            ms.push(tail),
            k,
        ));
    }
}

/// Rebuilding in progress: the keys `seen[..j]` are converted into `out`,
/// the others still wait in `rest` with their position lists.
pub open spec fn convert_ok<V>(
    ms: Seq<Seq<V>>,
    seen: Seq<V>,
    j: int,
    rest: Map<V, IndexShape>,
    out: Map<V, IndexShape>,
    layout: IndexLayout,
) -> bool {
    &&& 0 <= j <= seen.len()
    &&& seen.no_duplicates()
    &&& forall|k: V| member_positions(ms, k).len() > 0 <==> #[trigger] seen.contains(k)
    &&& forall|k: V| #[trigger] rest.contains_key(k) <==> seen.subrange(j, seen.len() as int).contains(k)
    &&& forall|k: V| #[trigger]
        rest.contains_key(k) ==> rest[k] == IndexShape::Split(member_positions(ms, k))
    &&& forall|k: V| #[trigger] out.contains_key(k) <==> seen.take(j).contains(k)
    &&& forall|k: V| #[trigger]
        out.contains_key(k) ==> out[k] == layout_shape(layout, member_positions(ms, k))
}

proof fn lemma_convert_start<V>(
    ms: Seq<Seq<V>>,
    entries: Map<V, IndexShape>,
    seen: Seq<V>,
    out: Map<V, IndexShape>,
    layout: IndexLayout,
)
    requires
        split_acc(ms, Seq::<V>::empty(), entries, seen),
        out.dom() == Set::<V>::empty(),
    ensures
        convert_ok(ms, seen, 0, entries, out, layout),
{
    assert forall|k: V| acc_positions(ms, Seq::<V>::empty(), k) == member_positions(ms, k) by {
        assert(member_positions(ms, k) + Seq::<usize>::empty() =~= member_positions(ms, k));
    }
    assert(seen.subrange(0, seen.len() as int) =~= seen);
    assert forall|k: V| member_positions(ms, k).len() > 0 <==> #[trigger] seen.contains(k) by {
        assert(entries.contains_key(k) <==> seen.contains(k));
    }
    assert forall|k: V| #[trigger] out.contains_key(k) <==> seen.take(0).contains(k) by {
        assert(!out.dom().contains(k));
    }
}

proof fn lemma_convert_step<V>(
    ms: Seq<Seq<V>>,
    seen: Seq<V>,
    j: int,
    rest: Map<V, IndexShape>,
    out: Map<V, IndexShape>,
    layout: IndexLayout,
)
    requires
        convert_ok(ms, seen, j, rest, out, layout),
        j < seen.len(),
    ensures
        rest.contains_key(seen[j]),
        convert_ok(
            ms,
            seen,
            j + 1,
            rest.remove(seen[j]),
            out.insert(seen[j], layout_shape(layout, member_positions(ms, seen[j]))),
            layout,
        ),
{
    let x = seen[j];
    let r2 = rest.remove(x);
    let o2 = out.insert(x, layout_shape(layout, member_positions(ms, x)));
    let hi = seen.len() as int;
    assert(seen.subrange(j, hi)[0] == x);
    assert(seen.subrange(j, hi).contains(x));
    assert forall|k: V| #[trigger] r2.contains_key(k) <==> seen.subrange(j + 1, hi).contains(k) by {
        if seen.subrange(j + 1, hi).contains(k) {
            let a = choose|a: int| 0 <= a < hi - j - 1 && #[trigger] seen.subrange(j + 1, hi)[a] == k;
            assert(seen.subrange(j, hi)[a + 1] == k);
            assert(seen[j + 1 + a] == k);
            assert(k != x);
        }
        if rest.contains_key(k) && k != x {
            let a = choose|a: int| 0 <= a < hi - j && #[trigger] seen.subrange(j, hi)[a] == k;
            assert(a != 0);
            assert(seen.subrange(j + 1, hi)[a - 1] == k);
        }
    }
    assert forall|k: V| #[trigger] o2.contains_key(k) <==> seen.take(j + 1).contains(k) by {
        if seen.take(j + 1).contains(k) {
            let a = choose|a: int| 0 <= a < j + 1 && #[trigger] seen.take(j + 1)[a] == k;
            if a < j {
                assert(seen.take(j)[a] == k);
            }
        }
        if out.contains_key(k) {
            let a = choose|a: int| 0 <= a < j && #[trigger] seen.take(j)[a] == k;
            assert(seen.take(j + 1)[a] == k);
        }
        if k == x {
            assert(seen.take(j + 1)[j] == k);
        }
    }
}

proof fn lemma_convert_end<V>(
    ms: Seq<Seq<V>>,
    seen: Seq<V>,
    rest: Map<V, IndexShape>,
    out: Map<V, IndexShape>,
    layout: IndexLayout,
)
    requires
        convert_ok(ms, seen, seen.len() as int, rest, out, layout),
    ensures
        is_rebuilt_index(ms, out, layout),
        seen.len() > 0 <==> has_members(ms),
{
    assert(seen.take(seen.len() as int) =~= seen);
    if seen.len() > 0 {
        assert(seen.contains(seen[0]));
        assert(member_positions(ms, seen[0]).len() > 0);
    }
    if has_members(ms) {
        let k = choose|k: V| #[trigger] member_positions(ms, k).len() > 0;
        assert(seen.contains(k));
    }
}


/// Convert the accumulated lists of `acc` into the entries of `layout`.
fn convert_nights(
    acc: NightIndexMap,
    seen: Vec<u32>,
    layout: &IndexLayout,
    Ghost(ms): Ghost<Seq<Seq<u32>>>,
) -> (r: Option<NightIndexMap>)
    requires
        ms.len() <= usize::MAX,
        split_acc(ms, Seq::<u32>::empty(), night_index_entries(acc), seen@),
    ensures
        r is Some == has_members(ms),
        r matches Some(m) ==> is_rebuilt_index(ms, night_index_entries(m), *layout),
{
    let mut rest = acc;
    let mut out = night_index_new();
    proof {
        lemma_convert_start(ms, night_index_entries(rest), seen@, night_index_entries(out), *layout);
    }
    let mut j: usize = 0;
    while j < seen.len()
        invariant
            ms.len() <= usize::MAX,
            convert_ok(
                ms,
                seen@,
                j as int,
                night_index_entries(rest),
                night_index_entries(out),
                *layout,
            ),
        decreases seen.len() - j,
    {
        let k = seen[j];
        proof {
            lemma_convert_step(
                ms,
                seen@,
                j as int,
                night_index_entries(rest),
                night_index_entries(out),
                *layout,
            );
            lemma_positions_sorted_perm(ms, k);
            assert(seen@.contains(k));
        }
        let e = night_index_remove(&mut rest, &NightId(k));
        match e {
            Some(ObsMapIndex::Split(v)) => {
                let r = to_obs_map_index(v, layout);
                night_index_insert(&mut out, NightId(k), r);
            },
            _ => {
                proof {
                    assert(false);
                }
            },
        }
        j = j + 1;
    }
    proof {
        lemma_convert_end(ms, seen@, night_index_entries(rest), night_index_entries(out), *layout);
    }
    if seen.len() == 0 {
        None
    } else {
        Some(out)
    }
}

/// The night index rebuilt from the nights of the stored observations, or
/// `None` when no observation has a night.
fn rebuild_nights(ms: &[ObsMembership], layout: &IndexLayout) -> (r: Option<NightIndexMap>)
    ensures
        r is Some == has_members(night_lists(ms@)),
        r matches Some(m) ==> is_rebuilt_index(night_lists(ms@), night_index_entries(m), *layout),
{
    let ghost lists = night_lists(ms@);
    let mut acc = night_index_new();
    let mut seen: Vec<u32> = Vec::new();
    proof {
        lemma_acc_empty(night_index_entries(acc));
        assert(lists.take(0) =~= Seq::<Seq<u32>>::empty());
    }
    let mut i: usize = 0;
    while i < ms.len()
        invariant
            i <= ms.len(),
            lists == night_lists(ms@),
            split_acc(lists.take(i as int), Seq::<u32>::empty(), night_index_entries(acc), seen@),
        decreases ms.len() - i,
    {
        let ghost before = lists.take(i as int);
        match ms[i].night_id {
            Some(n) => {
                let ghost entries = night_index_entries(acc);
                proof {
                    lemma_acc_push(before, Seq::<u32>::empty(), entries, seen@, n.0);
                }
                let prev = night_index_remove(&mut acc, &n);
                let e = match prev {
                    Some(mut e) => {
                        e.push_split(i);
                        e
                    },
                    None => {
                        seen.push(n.0);
                        let mut v: Vec<ObsIndex> = Vec::new();
                        v.push(i);
                        ObsMapIndex::Split(v)
                    },
                };
                night_index_insert(&mut acc, n, e);
                proof {
                    assert(night_index_entries(acc) =~= entries.insert(
                        n.0,
                        IndexShape::Split(
                            acc_positions(before, Seq::<u32>::empty(), n.0).push(i),
                        ),
                    ));
                    assert(lists[i as int] =~= Seq::<u32>::empty().push(n.0));
                    lemma_acc_close(before, Seq::<u32>::empty().push(n.0), night_index_entries(acc), seen@);
                }
            },
            None => {
                proof {
                    assert(lists[i as int] =~= Seq::<u32>::empty());
                    lemma_acc_close(before, Seq::<u32>::empty(), night_index_entries(acc), seen@);
                }
            },
        }
        proof {
            assert(lists.take(i + 1) =~= before.push(lists[i as int]));
        }
        i = i + 1;
    }
    proof {
        assert(lists.take(ms@.len() as int) =~= lists);
    }
    convert_nights(acc, seen, layout, Ghost(lists))
}


/// Convert the accumulated lists of `acc` into the entries of `layout`.
fn convert_trajs(
    acc: TrajIndexMap,
    seen: Vec<TrajId>,
    layout: &IndexLayout,
    Ghost(ms): Ghost<Seq<Seq<TrajKey>>>,
) -> (r: Option<TrajIndexMap>)
    requires
        ms.len() <= usize::MAX,
        split_acc(ms, Seq::<TrajKey>::empty(), traj_index_entries(acc), traj_views(seen@)),
    ensures
        r is Some == has_members(ms),
        r matches Some(m) ==> is_rebuilt_index(ms, traj_index_entries(m), *layout),
{
    let mut rest = acc;
    let mut out = traj_index_new();
    proof {
        lemma_convert_start(
            ms,
            traj_index_entries(rest),
            traj_views(seen@),
            traj_index_entries(out),
            *layout,
        );
    }
    let mut j: usize = 0;
    while j < seen.len()
        invariant
            ms.len() <= usize::MAX,
            convert_ok(
                ms,
                traj_views(seen@),
                j as int,
                traj_index_entries(rest),
                traj_index_entries(out),
                *layout,
            ),
        decreases seen.len() - j,
    {
        let k = seen[j].clone();
        proof {
            assert(traj_views(seen@)[j as int] == k@);
            lemma_convert_step(
                ms,
                traj_views(seen@),
                j as int,
                traj_index_entries(rest),
                traj_index_entries(out),
                *layout,
            );
            lemma_positions_sorted_perm(ms, k@);
            assert(traj_views(seen@).contains(k@));
        }
        let e = traj_index_remove(&mut rest, &k);
        match e {
            Some(ObsMapIndex::Split(v)) => {
                let r = to_obs_map_index(v, layout);
                traj_index_insert(&mut out, k, r);
            },
            _ => {
                proof {
                    assert(false);
                }
            },
        }
        j = j + 1;
    }
    proof {
        lemma_convert_end(
            ms,
            traj_views(seen@),
            traj_index_entries(rest),
            traj_index_entries(out),
            *layout,
        );
    }
    if seen.len() == 0 {
        None
    } else {
        Some(out)
    }
}

/// The trajectory index rebuilt from the trajectories of the stored
/// observations, or `None` when no observation belongs to one.
fn rebuild_trajs(ms: &[ObsMembership], layout: &IndexLayout) -> (r: Option<TrajIndexMap>)
    ensures
        r is Some == has_members(traj_lists(ms@)),
        r matches Some(m) ==> is_rebuilt_index(traj_lists(ms@), traj_index_entries(m), *layout),
{
    let ghost lists = traj_lists(ms@);
    let mut acc = traj_index_new();
    let mut seen: Vec<TrajId> = Vec::new();
    proof {
        lemma_acc_empty(traj_index_entries(acc));
        assert(lists.take(0) =~= Seq::<Seq<TrajKey>>::empty());
        assert(traj_views(seen@) =~= Seq::<TrajKey>::empty());
    }
    let mut i: usize = 0;
    while i < ms.len()
        invariant
            i <= ms.len(),
            lists == traj_lists(ms@),
            split_acc(
                lists.take(i as int),
                Seq::<TrajKey>::empty(),
                traj_index_entries(acc),
                traj_views(seen@),
            ),
        decreases ms.len() - i,
    {
        let ghost before = lists.take(i as int);
        let tids = &ms[i].traj_ids;
        let ghost row = lists[i as int];
        proof {
            assert(row =~= traj_views(tids@));
            assert(row.take(0) =~= Seq::<TrajKey>::empty());
        }
        let mut j: usize = 0;
        while j < tids.len()
            invariant
                i < ms.len(),
                j <= tids.len(),
                row == traj_views(tids@),
                split_acc(before, row.take(j as int), traj_index_entries(acc), traj_views(seen@)),
                before.len() == i,
            decreases tids.len() - j,
        {
            let t = tids[j].clone();
            let ghost entries = traj_index_entries(acc);
            let ghost tail = row.take(j as int);
            proof {
                assert(row[j as int] == t@);
                lemma_acc_push(before, tail, entries, traj_views(seen@), t@);
            }
            let prev = traj_index_remove(&mut acc, &t);
            let ghost pos = acc_positions(before, tail, t@);
            let e = match prev {
                Some(mut e) => {
                    proof {
                        assert(e@ == IndexShape::Split(pos));
                    }
                    e.push_split(i);
                    proof {
                        assert(e@ == IndexShape::Split(pos.push(i)));
                    }
                    e
                },
                None => {
                    let c = t.clone();
                    let ghost seen_before = seen@;
                    seen.push(c);
                    proof {
                        assert(traj_views(seen@) =~= traj_views(seen_before).push(t@));
                    }
                    let mut v: Vec<ObsIndex> = Vec::new();
                    v.push(i);
                    proof {
                        assert(pos.len() == 0);
                        assert(v@ =~= pos.push(i));
                    }
                    ObsMapIndex::Split(v)
                },
            };
            proof {
                assert(e@ == IndexShape::Split(pos.push(i)));
            }
            traj_index_insert(&mut acc, t, e);
            proof {
                assert(traj_index_entries(acc) =~= entries.insert(
                    row[j as int],
                    IndexShape::Split(acc_positions(before, tail, row[j as int]).push(i)),
                ));
                assert(row.take(j + 1) =~= tail.push(row[j as int]));
            }
            j = j + 1;
        }
        proof {
            assert(row.take(tids@.len() as int) =~= row);
            lemma_acc_close(before, row, traj_index_entries(acc), traj_views(seen@));
            assert(lists.take(i + 1) =~= before.push(row));
        }
        i = i + 1;
    }
    proof {
        assert(lists.take(ms@.len() as int) =~= lists);
    }
    convert_trajs(acc, seen, layout, Ghost(lists))
}

/// Rebuild the night and trajectory indices of stored observations, in
/// the given layout.  An index no observation belongs to is `None`.
pub fn build_index_maps(ms: &[ObsMembership], layout: &IndexLayout) -> (r: (
    Option<NightIndexMap>,
    Option<TrajIndexMap>,
))
    ensures
        r.0 is Some == has_members(night_lists(ms@)),
        r.0 matches Some(m) ==> is_rebuilt_index(night_lists(ms@), night_index_entries(m), *layout),
        r.1 is Some == has_members(traj_lists(ms@)),
        r.1 matches Some(m) ==> is_rebuilt_index(traj_lists(ms@), traj_index_entries(m), *layout),
{
    (rebuild_nights(ms, layout), rebuild_trajs(ms, layout))
}


/// `s` is in strictly increasing order.
pub open spec fn increasing(s: Seq<usize>) -> bool {
    forall|i: int, j: int| 0 <= i < j < s.len() ==> s[i] < s[j]
}

/// A range entry covers exactly the positions it was made from: the range
/// that `TryContiguous` stores for sorted positions holds the same
/// positions, in order, each once.
pub proof fn lemma_range_entry_exact(s: Seq<usize>)
    requires
        try_contiguous_shape(s) is Contiguous,
        s.len() > 0 ==> s.last() < usize::MAX,
    ensures
        crate::index::shape_positions(try_contiguous_shape(s)) =~= s.map_values(
            |p: usize| p as int,
        ),
        increasing(s),
{
    let n = s.len() as int;
    assert(s[n - 1] == s[0] + (n - 1));
    let p = crate::index::shape_positions(try_contiguous_shape(s));
    assert(p.len() == n);
    assert forall|i: int| 0 <= i < n implies p[i] == s.map_values(|q: usize| q as int)[i] by {
        assert(s[i] == s[0] + i);
    }
    assert forall|i: int, j: int| 0 <= i < j < n implies s[i] < s[j] by {
        assert(s[i] == s[0] + i);
        assert(s[j] == s[0] + j);
    }
}


proof fn lemma_increasing_gap(s: Seq<usize>, i: int, j: int)
    requires
        increasing(s),
        0 <= i <= j < s.len(),
    ensures
        s[j] - s[i] >= j - i,
    decreases j - i,
{
    if i < j {
        lemma_increasing_gap(s, i, j - 1);
    }
}

/// For sorted positions without repeats, the range test is the span test
/// on the smallest and largest: they are consecutive exactly when
/// `largest - smallest + 1` is their number, and then `TryContiguous`
/// stores the range from the smallest to one past the largest.
pub proof fn lemma_range_test_by_span(s: Seq<usize>)
    requires
        increasing(s),
        s.len() > 0,
    ensures
        consecutive(s) <==> s.last() - s[0] + 1 == s.len(),
        s.last() - s[0] + 1 == s.len() ==> try_contiguous_shape(s) == IndexShape::Contiguous(
            s[0],
            (s.last() + 1) as usize,
        ),
        s.last() - s[0] + 1 != s.len() ==> try_contiguous_shape(s) == IndexShape::Split(s),
{
    let n = s.len() as int;
    if s.last() - s[0] + 1 == n {
        assert forall|i: int| 0 <= i < n implies #[trigger] s[i] == s[0] + i by {
            lemma_increasing_gap(s, 0, i);
            lemma_increasing_gap(s, i, n - 1);
        }
    }
    if consecutive(s) {
        assert(s[n - 1] == s[0] + (n - 1));
    }
}

/// An entry rebuilt under either layout holds exactly the positions it was
/// made from.
pub proof fn lemma_layout_keeps_positions(layout: IndexLayout, p: Seq<usize>)
    requires
        forall|a: int| 0 <= a < p.len() ==> #[trigger] p[a] < usize::MAX,
    ensures
        crate::index::shape_positions(layout_shape(layout, p)) =~= p.map_values(
            |q: usize| q as int,
        ),
{
    match layout {
        IndexLayout::Split => {},
        IndexLayout::TryContiguous => {
            if try_contiguous_shape(p) is Contiguous {
                assert(p.last() == p[p.len() - 1]);
                lemma_range_entry_exact(p);
            }
        },
    }
}


// ── memberships of an index ──────────────────────────────────────────────────

/// `AHashMap::iter` on a night index: every entry once, as its night and a
/// reference to its entry, in an order the hasher decides.
#[verifier::external_body]
fn night_index_items(m: &NightIndexMap) -> (r: Vec<(NightId, &ObsMapIndex)>)
    ensures
        forall|i: int|
            0 <= i < r@.len() ==> night_index_entries(*m).contains_key((#[trigger] r@[i]).0.0)
                && r@[i].1@ == night_index_entries(*m)[r@[i].0.0],
        forall|k: u32| #[trigger]
            night_index_entries(*m).contains_key(k) ==> exists|i: int|
                0 <= i < r@.len() && (#[trigger] r@[i]).0.0 == k,
        forall|i: int, j: int| 0 <= i < j < r@.len() ==> (#[trigger] r@[i]).0.0 != (#[trigger] r@[j]).0.0,
{
    m.iter().map(|(k, v)| (*k, v)).collect()
}

/// `AHashMap::iter` on a trajectory index: every entry once, as its
/// trajectory and a reference to its entry, in an order the hasher decides.
#[verifier::external_body]
fn traj_index_items(m: &TrajIndexMap) -> (r: Vec<(&TrajId, &ObsMapIndex)>)
    ensures
        forall|i: int|
            0 <= i < r@.len() ==> traj_index_entries(*m).contains_key((#[trigger] r@[i]).0@)
                && r@[i].1@ == traj_index_entries(*m)[r@[i].0@],
        forall|k: TrajKey| #[trigger]
            traj_index_entries(*m).contains_key(k) ==> exists|i: int|
                0 <= i < r@.len() && (#[trigger] r@[i]).0@ == k,
        forall|i: int, j: int| 0 <= i < j < r@.len() ==> (#[trigger] r@[i]).0@ != (#[trigger] r@[j]).0@,
{
    m.iter().collect()
}

/// How often position `i` occurs among the positions of an entry.
pub open spec fn times_listed(e: IndexShape, i: int) -> nat {
    shape_positions(e).to_multiset().count(i)
}

/// `ms` holds `n` memberships that reproduce the night entries: the night
/// of an observation lists it, and an observation without a night is in no
/// night's entry.  (An observation in the entries of several nights gets
/// one of them.)
pub open spec fn nights_of_entries(
    entries: Map<u32, IndexShape>,
    ms: Seq<ObsMembership>,
    n: nat,
) -> bool {
    &&& ms.len() == n
    &&& forall|i: int|
        0 <= i < n ==> match (#[trigger] ms[i]).night_id {
            Some(k) => entries.contains_key(k.0) && times_listed(entries[k.0], i) > 0,
            None => unlisted(entries, i),
        }
}

/// No entry lists position `i`.
pub open spec fn unlisted<V>(entries: Map<V, IndexShape>, i: int) -> bool {
    forall|k: V| #[trigger] entries.contains_key(k) ==> times_listed(entries[k], i) == 0
}

/// `ms` holds `n` memberships that reproduce the trajectory entries: each
/// observation lists each trajectory as often as that trajectory's entry
/// lists the observation.
pub open spec fn trajs_of_entries(
    entries: Map<TrajKey, IndexShape>,
    ms: Seq<ObsMembership>,
    n: nat,
) -> bool {
    &&& ms.len() == n
    &&& forall|i: int, k: TrajKey|
        0 <= i < n ==> #[trigger] traj_views(ms[i].traj_ids@).to_multiset().count(k) == if entries.contains_key(
            k,
        ) {
            times_listed(entries[k], i)
        } else {
            0
        }
}


/// The positions of a list, as integers.
pub open spec fn as_ints(v: Seq<usize>) -> Seq<int> {
    v.map_values(|p: usize| p as int)
}

proof fn lemma_as_ints_push_count(v: Seq<usize>, q: int, i: int)
    requires
        0 <= q < v.len(),
    ensures
        as_ints(v.take(q + 1)).to_multiset().count(i) == as_ints(v.take(q)).to_multiset().count(i)
            + if v[q] as int == i {
            1nat
        } else {
            0nat
        },
{
    broadcast use group_to_multiset_ensures;

    assert(as_ints(v.take(q + 1)) =~= as_ints(v.take(q)).push(v[q] as int));
}

/// `n` memberships without night or trajectory.
fn empty_memberships(n: usize) -> (ms: Vec<ObsMembership>)
    ensures
        ms@.len() == n,
        forall|i: int| 0 <= i < n ==> (#[trigger] ms@[i]).night_id is None && ms@[i].traj_ids@.len() == 0,
{
    let mut ms: Vec<ObsMembership> = Vec::new();
    let mut i: usize = 0;
    while i < n
        invariant
            i <= n,
            ms@.len() == i,
            forall|j: int| 0 <= j < i ==> (#[trigger] ms@[j]).night_id is None && ms@[j].traj_ids@.len() == 0,
        decreases n - i,
    {
        ms.push(ObsMembership { night_id: None, traj_ids: Vec::new() });
        i = i + 1;
    }
    ms
}

/// Record the nights of a night index in `ms`.
fn add_nights(ms: &mut Vec<ObsMembership>, m: &NightIndexMap)
    requires
        forall|i: int| 0 <= i < old(ms)@.len() ==> (#[trigger] old(ms)@[i]).night_id is None,
    ensures
        nights_of_entries(night_index_entries(*m), final(ms)@, old(ms)@.len() as nat),
        forall|i: int|
            0 <= i < old(ms)@.len() ==> (#[trigger] final(ms)@[i]).traj_ids@ == old(ms)@[i].traj_ids@,
{
    let ghost entries = night_index_entries(*m);
    let ghost orig = ms@;
    let n = ms.len();
    let items = night_index_items(m);
    let ghost mut done: Set<u32> = Set::empty();
    let mut j: usize = 0;
    while j < items.len()
        invariant
            n == ms@.len(),
            n == orig.len(),
            entries == night_index_entries(*m),
            j <= items@.len(),
            forall|x: int|
                0 <= x < items@.len() ==> entries.contains_key((#[trigger] items@[x]).0.0)
                    && items@[x].1@ == entries[items@[x].0.0],
            forall|x: int, y: int| 0 <= x < y < items@.len() ==> (#[trigger] items@[x]).0.0 != (#[trigger] items@[y]).0.0,
            forall|k: u32| #[trigger] done.contains(k) <==> exists|x: int| 0 <= x < j && (#[trigger] items@[x]).0.0 == k,
            forall|i: int| 0 <= i < n ==> (#[trigger] ms@[i]).traj_ids@ == orig[i].traj_ids@,
            forall|i: int|
                0 <= i < n ==> night_row_ok(entries, done, (#[trigger] ms@[i]).night_id, i, true),
        decreases items@.len() - j,
    {
        let (k, e) = items[j];
        let v = e.to_positions();
        let ghost key = k.0;
        proof {
            assert(items@[j as int].0.0 == key);
            assert(as_ints(v@) == shape_positions(entries[key]));
            assert(!done.contains(key)) by {
                if done.contains(key) {
                    let x = choose|x: int| 0 <= x < j && (#[trigger] items@[x]).0.0 == key;
                    assert(items@[x].0.0 != items@[j as int].0.0);
                }
            }
            assert(v@.take(0) =~= Seq::<usize>::empty());
            broadcast use group_to_multiset_ensures;

            assert forall|i: int| 0 <= i < n implies as_ints(v@.take(0)).to_multiset().count(i) == 0 by {
                assert(!as_ints(v@.take(0)).contains(i));
            }
        }
        let mut q: usize = 0;
        while q < v.len()
            invariant
                n == ms@.len(),
                n == orig.len(),
                q <= v@.len(),
                key == k.0,
                entries.contains_key(key),
                as_ints(v@) == shape_positions(entries[key]),
                !done.contains(key),
                forall|i: int| 0 <= i < n ==> (#[trigger] ms@[i]).traj_ids@ == orig[i].traj_ids@,
                forall|i: int|
                    0 <= i < n ==> night_row_ok(
                        entries,
                        done,
                        (#[trigger] ms@[i]).night_id,
                        i,
                        as_ints(v@.take(q as int)).to_multiset().count(i) == 0,
                    ),
            decreases v@.len() - q,
        {
            let p = v[q];
            let ghost before = ms@;
            proof {
                assert forall|i: int| 0 <= i < n implies as_ints(v@.take(q + 1)).to_multiset().count(i)
                    == as_ints(v@.take(q as int)).to_multiset().count(i) + if p as int == i {
                    1nat
                } else {
                    0nat
                } by {
                    lemma_as_ints_push_count(v@, q as int, i);
                }
            }
            if p < n {
                proof {
                    broadcast use group_to_multiset_ensures;

                    assert(as_ints(v@)[q as int] == p as int);
                    assert(as_ints(v@).contains(p as int));
                    assert(shape_positions(entries[key]).to_multiset().count(p as int) > 0);
                }
                ms[p].night_id = Some(k);
            }
            proof {
                assert forall|i: int| 0 <= i < n implies night_row_ok(
                    entries,
                    done,
                    (#[trigger] ms@[i]).night_id,
                    i,
                    as_ints(v@.take(q + 1)).to_multiset().count(i) == 0,
                ) by {
                    if i == p {
                        broadcast use group_to_multiset_ensures;

                        assert(as_ints(v@)[q as int] == p as int);
                        assert(as_ints(v@).contains(p as int));
                        assert(shape_positions(entries[key]).to_multiset().count(p as int) > 0);
                        assert(ms@[i].night_id == Some(NightId(key)));
                        assert(entries.contains_key(key));
                    } else {
                        assert(ms@[i] == before[i]);
                        assert(night_row_ok(
                            entries,
                            done,
                            before[i].night_id,
                            i,
                            as_ints(v@.take(q as int)).to_multiset().count(i) == 0,
                        ));
                    }
                }
            }
            q = q + 1;
        }
        proof {
            assert(v@.take(v@.len() as int) =~= v@);
            let done2 = done.insert(key);
            assert forall|k2: u32| #[trigger] done2.contains(k2) <==> exists|x: int|
                0 <= x < j + 1 && (#[trigger] items@[x]).0.0 == k2 by {
                if done2.contains(k2) && k2 == key {
                    assert(items@[j as int].0.0 == k2);
                }
                if done.contains(k2) {
                    let x = choose|x: int| 0 <= x < j && (#[trigger] items@[x]).0.0 == k2;
                    assert(0 <= x < j + 1);
                }
                if exists|x: int| 0 <= x < j + 1 && (#[trigger] items@[x]).0.0 == k2 {
                    let x = choose|x: int| 0 <= x < j + 1 && (#[trigger] items@[x]).0.0 == k2;
                    if x < j {
                        assert(done.contains(k2));
                    }
                }
            }
            assert forall|i: int| 0 <= i < n implies night_row_ok(
                entries,
                done2,
                (#[trigger] ms@[i]).night_id,
                i,
                true,
            ) by {
                if ms@[i].night_id is None {
                    assert forall|k: u32| #[trigger] done2.contains(k) implies times_listed(entries[k], i) == 0 by {
                        if k == key {
                            assert(shape_positions(entries[key]) == as_ints(v@));
                        }
                    }
                }
            }
            done = done2;
        }
        j = j + 1;
    }
    proof {
        assert forall|i: int| 0 <= i < n implies match (#[trigger] ms@[i]).night_id {
            Some(k) => entries.contains_key(k.0) && times_listed(entries[k.0], i) > 0,
            None => unlisted(entries, i),
        } by {
            assert(night_row_ok(entries, done, ms@[i].night_id, i, true));
            if ms@[i].night_id is None {
                assert forall|k: u32| #[trigger] entries.contains_key(k) implies times_listed(entries[k], i) == 0 by {
                    let x = choose|x: int| 0 <= x < items@.len() && (#[trigger] items@[x]).0.0 == k;
                    assert(done.contains(k));
                }
            }
        }
    }
}

/// The night recorded for row `i` agrees with the entries: it lists the
/// row; or there is none, no entry among `done` lists the row, and `extra`.
pub open spec fn night_row_ok(
    entries: Map<u32, IndexShape>,
    done: Set<u32>,
    night: Option<NightId>,
    i: int,
    extra: bool,
) -> bool {
    match night {
        Some(k) => entries.contains_key(k.0) && times_listed(entries[k.0], i) > 0,
        None => unlisted_among(entries, done, i) && extra,
    }
}

/// No entry of a key of `keys` lists position `i`.
pub open spec fn unlisted_among<V>(entries: Map<V, IndexShape>, keys: Set<V>, i: int) -> bool {
    forall|k: V| #[trigger] keys.contains(k) ==> times_listed(entries[k], i) == 0
}



/// The trajectories recorded for row `i` agree with the entries of the keys
/// of `done`, plus `extra` occurrences of `key`.
pub open spec fn traj_row_ok(
    entries: Map<TrajKey, IndexShape>,
    done: Set<TrajKey>,
    row: Seq<TrajKey>,
    i: int,
    key: TrajKey,
    extra: nat,
) -> bool {
    forall|k: TrajKey| #[trigger]
        row.to_multiset().count(k) == (if done.contains(k) {
            times_listed(entries[k], i)
        } else {
            0
        }) + (if k == key {
            extra
        } else {
            0
        })
}

/// Record the trajectories of a trajectory index in `ms`.
fn add_trajs(ms: &mut Vec<ObsMembership>, m: &TrajIndexMap)
    requires
        forall|i: int| 0 <= i < old(ms)@.len() ==> (#[trigger] old(ms)@[i]).traj_ids@.len() == 0,
    ensures
        trajs_of_entries(traj_index_entries(*m), final(ms)@, old(ms)@.len() as nat),
        forall|i: int|
            0 <= i < old(ms)@.len() ==> (#[trigger] final(ms)@[i]).night_id == old(ms)@[i].night_id,
{
    broadcast use group_to_multiset_ensures;

    let ghost entries = traj_index_entries(*m);
    let ghost orig = ms@;
    let n = ms.len();
    let items = traj_index_items(m);
    let ghost mut done: Set<TrajKey> = Set::empty();
    let ghost none = TrajKey::Str(Seq::empty());
    proof {
        assert forall|i: int| 0 <= i < n implies traj_row_ok(
            entries,
            done,
            traj_views((#[trigger] ms@[i]).traj_ids@),
            i,
            none,
            0,
        ) by {
            assert forall|k: TrajKey| #[trigger]
                traj_views(ms@[i].traj_ids@).to_multiset().count(k) == 0 by {
                assert(!traj_views(ms@[i].traj_ids@).contains(k));
            }
        }
    }
    let mut j: usize = 0;
    while j < items.len()
        invariant
            n == ms@.len(),
            n == orig.len(),
            entries == traj_index_entries(*m),
            j <= items@.len(),
            forall|x: int|
                0 <= x < items@.len() ==> entries.contains_key((#[trigger] items@[x]).0@)
                    && items@[x].1@ == entries[items@[x].0@],
            forall|x: int, y: int| 0 <= x < y < items@.len() ==> (#[trigger] items@[x]).0@ != (#[trigger] items@[y]).0@,
            forall|k: TrajKey| #[trigger] done.contains(k) <==> exists|x: int| 0 <= x < j && (#[trigger] items@[x]).0@ == k,
            forall|i: int| 0 <= i < n ==> (#[trigger] ms@[i]).night_id == orig[i].night_id,
            forall|i: int|
                0 <= i < n ==> traj_row_ok(
                    entries,
                    done,
                    traj_views((#[trigger] ms@[i]).traj_ids@),
                    i,
                    none,
                    0,
                ),
        decreases items@.len() - j,
    {
        let (t, e) = items[j];
        let v = e.to_positions();
        let ghost key = t@;
        proof {
            assert(items@[j as int].0@ == key);
            assert(as_ints(v@) == shape_positions(entries[key]));
            assert(!done.contains(key)) by {
                if done.contains(key) {
                    let x = choose|x: int| 0 <= x < j && (#[trigger] items@[x]).0@ == key;
                    assert(items@[x].0@ != items@[j as int].0@);
                }
            }
            assert(v@.take(0) =~= Seq::<usize>::empty());
            assert forall|i: int| 0 <= i < n implies traj_row_ok(
                entries,
                done,
                traj_views((#[trigger] ms@[i]).traj_ids@),
                i,
                key,
                as_ints(v@.take(0)).to_multiset().count(i),
            ) by {
                broadcast use group_to_multiset_ensures;

                assert(!as_ints(v@.take(0)).contains(i));
                assert(as_ints(v@.take(0)).to_multiset().count(i) == 0);
                assert(traj_row_ok(entries, done, traj_views(ms@[i].traj_ids@), i, none, 0));
                assert forall|k: TrajKey| #[trigger]
                    traj_views(ms@[i].traj_ids@).to_multiset().count(k) == (if done.contains(k) {
                        times_listed(entries[k], i)
                    } else {
                        0
                    }) + (if k == key {
                        as_ints(v@.take(0)).to_multiset().count(i)
                    } else {
                        0
                    }) by {}
            }
        }
        let mut q: usize = 0;
        while q < v.len()
            invariant
                n == ms@.len(),
                n == orig.len(),
                q <= v@.len(),
                key == t@,
                entries.contains_key(key),
                as_ints(v@) == shape_positions(entries[key]),
                !done.contains(key),
                forall|i: int| 0 <= i < n ==> (#[trigger] ms@[i]).night_id == orig[i].night_id,
                forall|i: int|
                    0 <= i < n ==> traj_row_ok(
                        entries,
                        done,
                        traj_views((#[trigger] ms@[i]).traj_ids@),
                        i,
                        key,
                        as_ints(v@.take(q as int)).to_multiset().count(i),
                    ),
            decreases v@.len() - q,
        {
            let p = v[q];
            let ghost before = ms@;
            proof {
                assert forall|i: int| 0 <= i < n implies as_ints(v@.take(q + 1)).to_multiset().count(i)
                    == as_ints(v@.take(q as int)).to_multiset().count(i) + if p as int == i {
                    1nat
                } else {
                    0nat
                } by {
                    lemma_as_ints_push_count(v@, q as int, i);
                }
            }
            if p < n {
                let c = t.clone();
                ms[p].traj_ids.push(c);
                proof {
                    assert forall|i: int| 0 <= i < n implies traj_row_ok(
                        entries,
                        done,
                        traj_views((#[trigger] ms@[i]).traj_ids@),
                        i,
                        key,
                        as_ints(v@.take(q + 1)).to_multiset().count(i),
                    ) by {
                        assert(traj_row_ok(
                            entries,
                            done,
                            traj_views(before[i].traj_ids@),
                            i,
                            key,
                            as_ints(v@.take(q as int)).to_multiset().count(i),
                        ));
                        if i != p {
                            assert(ms@[i] == before[i]);
                        } else {
                            assert(ms@[i].traj_ids@ == before[i].traj_ids@.push(c));
                            assert(traj_views(ms@[i].traj_ids@) =~= traj_views(
                                before[i].traj_ids@,
                            ).push(key));
                            assert forall|k: TrajKey| #[trigger]
                                traj_views(ms@[i].traj_ids@).to_multiset().count(k)
                                    == traj_views(before[i].traj_ids@).to_multiset().count(k)
                                    + if k == key {
                                    1nat
                                } else {
                                    0nat
                                } by {
                                broadcast use group_to_multiset_ensures;

                            }
                        }
                    }
                }
            } else {
                proof {
                    assert forall|i: int| 0 <= i < n implies traj_row_ok(
                        entries,
                        done,
                        traj_views((#[trigger] ms@[i]).traj_ids@),
                        i,
                        key,
                        as_ints(v@.take(q + 1)).to_multiset().count(i),
                    ) by {
                        assert(traj_row_ok(
                            entries,
                            done,
                            traj_views(before[i].traj_ids@),
                            i,
                            key,
                            as_ints(v@.take(q as int)).to_multiset().count(i),
                        ));
                    }
                }
            }
            q = q + 1;
        }
        proof {
            assert(v@.take(v@.len() as int) =~= v@);
            let done2 = done.insert(key);
            assert forall|k2: TrajKey| #[trigger] done2.contains(k2) <==> exists|x: int|
                0 <= x < j + 1 && (#[trigger] items@[x]).0@ == k2 by {
                if done2.contains(k2) && k2 == key {
                    assert(items@[j as int].0@ == k2);
                }
                if done.contains(k2) {
                    let x = choose|x: int| 0 <= x < j && (#[trigger] items@[x]).0@ == k2;
                    assert(0 <= x < j + 1);
                }
                if exists|x: int| 0 <= x < j + 1 && (#[trigger] items@[x]).0@ == k2 {
                    let x = choose|x: int| 0 <= x < j + 1 && (#[trigger] items@[x]).0@ == k2;
                    if x < j {
                        assert(done.contains(k2));
                    }
                }
            }
            assert forall|i: int| 0 <= i < n implies traj_row_ok(
                entries,
                done2,
                traj_views((#[trigger] ms@[i]).traj_ids@),
                i,
                none,
                0,
            ) by {
                assert(traj_row_ok(
                    entries,
                    done,
                    traj_views(ms@[i].traj_ids@),
                    i,
                    key,
                    as_ints(v@).to_multiset().count(i),
                ));
            }
            done = done2;
        }
        j = j + 1;
    }
    proof {
        assert forall|i: int, k: TrajKey|
            0 <= i < n implies #[trigger] traj_views(ms@[i].traj_ids@).to_multiset().count(k) == if entries.contains_key(
            k,
        ) {
            times_listed(entries[k], i)
        } else {
            0
        } by {
            assert(traj_row_ok(entries, done, traj_views(ms@[i].traj_ids@), i, none, 0));
            if entries.contains_key(k) {
                let x = choose|x: int| 0 <= x < items@.len() && (#[trigger] items@[x]).0@ == k;
                assert(done.contains(k));
            }
        }
    }
}

/// The memberships of `n` observations in an index: for each observation,
/// the night whose entry lists it and the trajectories whose entries list
/// it (see [`nights_of_entries`] and [`trajs_of_entries`]).  What a stored
/// dataset keeps so that [`build_index_maps`] can rebuild the index.
pub fn memberships_of(night: &Option<NightIndexMap>, traj: &Option<TrajIndexMap>, n: usize) -> (ms:
    Vec<ObsMembership>)
    ensures
        ms@.len() == n,
        match night {
            Some(m) => nights_of_entries(night_index_entries(*m), ms@, n as nat),
            None => forall|i: int| 0 <= i < n ==> (#[trigger] ms@[i]).night_id is None,
        },
        match traj {
            Some(m) => trajs_of_entries(traj_index_entries(*m), ms@, n as nat),
            None => forall|i: int| 0 <= i < n ==> (#[trigger] ms@[i]).traj_ids@.len() == 0,
        },
{
    let mut ms = empty_memberships(n);
    match night {
        Some(m) => add_nights(&mut ms, m),
        None => {},
    }
    match traj {
        Some(m) => add_trajs(&mut ms, m),
        None => {},
    }
    ms
}


// ── storing and restoring an index ───────────────────────────────────────────

/// `s` is strictly increasing.
pub open spec fn increasing_ints(s: Seq<int>) -> bool {
    forall|a: int, b: int| 0 <= a < b < s.len() ==> s[a] < s[b]
}

/// An entry fit for storing among `n` observations: at least one position,
/// in strictly increasing order, each below `n`.
pub open spec fn storable(e: IndexShape, n: nat) -> bool {
    let p = shape_positions(e);
    &&& p.len() > 0
    &&& increasing_ints(p)
    &&& forall|a: int| 0 <= a < p.len() ==> 0 <= #[trigger] p[a] < n
}

proof fn lemma_count_increasing(s: Seq<int>, x: int)
    requires
        increasing_ints(s),
    ensures
        s.to_multiset().count(x) == if s.contains(x) {
            1nat
        } else {
            0nat
        },
    decreases s.len(),
{
    broadcast use group_to_multiset_ensures;

    if s.len() > 0 {
        let init = s.drop_last();
        assert(init.push(s.last()) =~= s);
        lemma_count_increasing(init, x);
        if init.contains(x) {
            let a = choose|a: int| 0 <= a < init.len() && init[a] == x;
            assert(s[a] < s[s.len() - 1]);
        }
        if s.contains(x) && !init.contains(x) {
            let a = choose|a: int| 0 <= a < s.len() && s[a] == x;
            if a < s.len() - 1 {
                assert(init[a] == x);
            }
        }
        if init.contains(x) {
            let a = choose|a: int| 0 <= a < init.len() && init[a] == x;
            assert(s[a] == x);
        }
    }
}

proof fn lemma_row_hits_count<V>(l: Seq<V>, k: V, i: usize)
    ensures
        row_hits(l, k, i) =~= Seq::new(l.to_multiset().count(k), |j: int| i),
    decreases l.len(),
{
    broadcast use group_to_multiset_ensures;

    if l.len() > 0 {
        let init = l.drop_last();
        assert(init.push(l.last()) =~= l);
        lemma_row_hits_count(init, k, i);
    }
}

/// The positions of `k` in `ls` are `p` when every row lists `k` as often as
/// `p` lists the row, and `p` is increasing and within the rows.
proof fn lemma_positions_from_counts<V>(ls: Seq<Seq<V>>, k: V, p: Seq<int>)
    requires
        increasing_ints(p),
        forall|a: int| 0 <= a < p.len() ==> 0 <= #[trigger] p[a] < ls.len(),
        forall|i: int| 0 <= i < ls.len() ==> (#[trigger] ls[i]).to_multiset().count(k) == p.to_multiset().count(i),
        ls.len() <= usize::MAX,
    ensures
        as_ints(member_positions(ls, k)) =~= p,
    decreases ls.len(),
{
    broadcast use group_to_multiset_ensures;

    if ls.len() == 0 {
        if p.len() > 0 {
            assert(0 <= p[0] < ls.len());
        }
    } else {
        let m = ls.len() - 1;
        let init = ls.drop_last();
        lemma_row_hits_count(ls[m], k, m as usize);
        lemma_count_increasing(p, m);
        assert(member_positions(ls, k) == member_positions(init, k) + row_hits(ls.last(), k, m as usize));
        if p.len() > 0 && p.last() == m {
            let q = p.drop_last();
            assert forall|a: int| 0 <= a < q.len() implies 0 <= #[trigger] q[a] < init.len() by {
                assert(p[a] < p[p.len() - 1]);
            }
            assert forall|i: int| 0 <= i < init.len() implies (#[trigger] init[i]).to_multiset().count(k)
                == q.to_multiset().count(i) by {
                assert(q.push(p.last()) =~= p);
                assert(ls[i] == init[i]);
            }
            lemma_positions_from_counts(init, k, q);
            assert(p.contains(m)) by {
                assert(p[p.len() - 1] == m);
            }
            assert(row_hits(ls.last(), k, m as usize) =~= seq![m as usize]);
            assert(p =~= q.push(m));
        } else {
            assert(!p.contains(m)) by {
                if p.contains(m) {
                    let a = choose|a: int| 0 <= a < p.len() && p[a] == m;
                    if a < p.len() - 1 {
                        assert(p[a] < p[p.len() - 1]);
                    }
                }
            }
            assert forall|a: int| 0 <= a < p.len() implies 0 <= #[trigger] p[a] < init.len() by {
                assert(p[a] != m);
            }
            assert forall|i: int| 0 <= i < init.len() implies (#[trigger] init[i]).to_multiset().count(k)
                == p.to_multiset().count(i) by {
                assert(ls[i] == init[i]);
            }
            lemma_positions_from_counts(init, k, p);
            assert(row_hits(ls.last(), k, m as usize) =~= Seq::<usize>::empty());
        }
    }
}

/// Storing a trajectory index as memberships and rebuilding it, under
/// either layout, gives back the same positions for every trajectory, and
/// no other trajectory.
pub proof fn lemma_traj_round_trip(
    entries: Map<TrajKey, IndexShape>,
    ms: Seq<ObsMembership>,
    n: nat,
    layout: IndexLayout,
    rebuilt: Map<TrajKey, IndexShape>,
)
    requires
        forall|k: TrajKey| #[trigger] entries.contains_key(k) ==> storable(entries[k], n),
        n <= usize::MAX,
        trajs_of_entries(entries, ms, n),
        is_rebuilt_index(traj_lists(ms), rebuilt, layout),
    ensures
        forall|k: TrajKey| #[trigger] rebuilt.contains_key(k) <==> entries.contains_key(k),
        forall|k: TrajKey| #[trigger]
            rebuilt.contains_key(k) ==> shape_positions(rebuilt[k]) =~= shape_positions(entries[k]),
{
    broadcast use group_to_multiset_ensures;

    let ls = traj_lists(ms);
    assert forall|k: TrajKey| as_ints(member_positions(ls, k)) =~= if entries.contains_key(k) {
        shape_positions(entries[k])
    } else {
        Seq::<int>::empty()
    } by {
        let p = if entries.contains_key(k) {
            shape_positions(entries[k])
        } else {
            Seq::<int>::empty()
        };
        assert forall|i: int| 0 <= i < ls.len() implies (#[trigger] ls[i]).to_multiset().count(k)
            == p.to_multiset().count(i) by {
            assert(ls[i] == traj_views(ms[i].traj_ids@));
            assert(traj_views(ms[i].traj_ids@).to_multiset().count(k) == if entries.contains_key(k) {
                times_listed(entries[k], i)
            } else {
                0
            });
            if !entries.contains_key(k) {
                assert(!p.contains(i));
            }
        }
        lemma_positions_from_counts(ls, k, p);
    }
    assert forall|k: TrajKey| #[trigger] rebuilt.contains_key(k) <==> entries.contains_key(k) by {
        assert(as_ints(member_positions(ls, k)).len() == member_positions(ls, k).len());
    }
    assert forall|k: TrajKey| #[trigger] rebuilt.contains_key(k) implies shape_positions(rebuilt[k])
        =~= shape_positions(entries[k]) by {
        assert(as_ints(member_positions(ls, k)) =~= shape_positions(entries[k]));
        let mp = member_positions(ls, k);
        assert forall|a: int| 0 <= a < mp.len() implies #[trigger] mp[a] < usize::MAX by {
            assert(as_ints(mp)[a] == shape_positions(entries[k])[a]);
        }
        lemma_layout_keeps_positions(layout, mp);
        assert(shape_positions(rebuilt[k]) == as_ints(member_positions(ls, k)));
    }
}


/// No position is listed by two nights.
pub open spec fn disjoint_nights(entries: Map<u32, IndexShape>) -> bool {
    forall|a: u32, b: u32, i: int|
        #![trigger times_listed(entries[a], i), times_listed(entries[b], i)]
        entries.contains_key(a) && entries.contains_key(b) && a != b && times_listed(entries[a], i)
            > 0 ==> times_listed(entries[b], i) == 0
}

/// Storing a night index as memberships and rebuilding it, under either
/// layout, gives back the same positions for every night, and no other night, when no observation
/// is listed by two nights.  (With an observation listed by two nights, the
/// stored dataset keeps only one of them for it, and the other night loses
/// it.)
pub proof fn lemma_night_round_trip(
    entries: Map<u32, IndexShape>,
    ms: Seq<ObsMembership>,
    n: nat,
    layout: IndexLayout,
    rebuilt: Map<u32, IndexShape>,
)
    requires
        forall|k: u32| #[trigger] entries.contains_key(k) ==> storable(entries[k], n),
        disjoint_nights(entries),
        n <= usize::MAX,
        nights_of_entries(entries, ms, n),
        is_rebuilt_index(night_lists(ms), rebuilt, layout),
    ensures
        forall|k: u32| #[trigger] rebuilt.contains_key(k) <==> entries.contains_key(k),
        forall|k: u32| #[trigger]
            rebuilt.contains_key(k) ==> shape_positions(rebuilt[k]) =~= shape_positions(entries[k]),
{
    broadcast use group_to_multiset_ensures;

    let ls = night_lists(ms);
    assert forall|k: u32| as_ints(member_positions(ls, k)) =~= if entries.contains_key(k) {
        shape_positions(entries[k])
    } else {
        Seq::<int>::empty()
    } by {
        let p = if entries.contains_key(k) {
            shape_positions(entries[k])
        } else {
            Seq::<int>::empty()
        };
        assert forall|i: int| 0 <= i < ls.len() implies (#[trigger] ls[i]).to_multiset().count(k)
            == p.to_multiset().count(i) by {
            if entries.contains_key(k) {
                lemma_count_increasing(shape_positions(entries[k]), i);
            } else {
                assert(!p.contains(i));
            }
            match ms[i].night_id {
                Some(k0) => {
                    assert(ls[i] =~= seq![k0.0]);
                    assert(seq![k0.0] =~= Seq::<u32>::empty().push(k0.0));
                    assert(Seq::<u32>::empty().to_multiset().count(k) == 0) by {
                        assert(!Seq::<u32>::empty().contains(k));
                    }
                    lemma_count_increasing(shape_positions(entries[k0.0]), i);
                    if k != k0.0 && entries.contains_key(k) {
                        assert(times_listed(entries[k0.0], i) > 0);
                        assert(times_listed(entries[k], i) == 0);
                    }
                },
                None => {
                    assert(ls[i] =~= Seq::<u32>::empty());
                    assert(!ls[i].contains(k));
                    if entries.contains_key(k) {
                        assert(unlisted(entries, i));
                        assert(times_listed(entries[k], i) == 0);
                    }
                },
            }
        }
        lemma_positions_from_counts(ls, k, p);
    }
    assert forall|k: u32| #[trigger] rebuilt.contains_key(k) <==> entries.contains_key(k) by {
        assert(as_ints(member_positions(ls, k)).len() == member_positions(ls, k).len());
    }
    assert forall|k: u32| #[trigger] rebuilt.contains_key(k) implies shape_positions(rebuilt[k])
        =~= shape_positions(entries[k]) by {
        assert(as_ints(member_positions(ls, k)) =~= shape_positions(entries[k]));
        let mp = member_positions(ls, k);
        assert forall|a: int| 0 <= a < mp.len() implies #[trigger] mp[a] < usize::MAX by {
            assert(as_ints(mp)[a] == shape_positions(entries[k])[a]);
        }
        lemma_layout_keeps_positions(layout, mp);
        assert(shape_positions(rebuilt[k]) == as_ints(member_positions(ls, k)));
    }
}


// ── restoring a stored dataset ───────────────────────────────────────────────

/// The indices of a restored dataset.
pub struct RestoredIndex {
    /// The night index, when some observation has a night.
    pub night: Option<NightIndexMap>,
    /// The trajectory index, when some observation has a trajectory.
    pub traj: Option<TrajIndexMap>,
    /// The trajectory aliases.
    pub aliases: TrajAliasMap,
}

impl RestoredIndex {
    /// The identifier an alternate designation stands for.
    pub fn resolve_alias(&self, alias: &str) -> (r: Option<&TrajId>)
        ensures
            match r {
                Some(t) => alias_entries(self.aliases).contains_key(alias@) && t@ == alias_entries(
                    self.aliases,
                )[alias@],
                None => !alias_entries(self.aliases).contains_key(alias@),
            },
    {
        alias_map_get(&self.aliases, alias)
    }
}

/// The alias map of a list of pairs: each alias stands for the identifier
/// of its last pair.
pub open spec fn alias_list_entries(pairs: Seq<(Seq<char>, TrajKey)>) -> Map<Seq<char>, TrajKey>
    decreases pairs.len(),
{
    if pairs.len() == 0 {
        Map::empty()
    } else {
        alias_list_entries(pairs.drop_last()).insert(pairs.last().0, pairs.last().1)
    }
}

/// The views of a list of alias pairs.
pub open spec fn alias_pairs(pairs: Seq<(String, TrajId)>) -> Seq<(Seq<char>, TrajKey)> {
    pairs.map_values(|p: (String, TrajId)| (p.0@, p.1@))
}

/// Rebuild the indices of a stored dataset: refuse another format version,
/// rebuild the night and trajectory indices from the memberships in the
/// given layout, and collect the aliases.
pub fn restore_index(
    format_version: u32,
    ms: &[ObsMembership],
    aliases: Vec<(String, TrajId)>,
    layout: &IndexLayout,
) -> (r: Result<RestoredIndex, String>)
    ensures
        r is Err <==> format_version != FORMAT_VERSION,
        r matches Err(m) ==> m@ == version_message(format_version),
        r matches Ok(x) ==> {
            &&& x.night is Some == has_members(night_lists(ms@))
            &&& x.night matches Some(m) ==> is_rebuilt_index(
                night_lists(ms@),
                night_index_entries(m),
                *layout,
            )
            &&& x.traj is Some == has_members(traj_lists(ms@))
            &&& x.traj matches Some(m) ==> is_rebuilt_index(
                traj_lists(ms@),
                traj_index_entries(m),
                *layout,
            )
            &&& alias_entries(x.aliases) == alias_list_entries(alias_pairs(aliases@))
        },
{
    match check_format_version(format_version) {
        Err(m) => return Err(m),
        Ok(()) => {},
    }
    let (night, traj) = build_index_maps(ms, layout);
    let mut map = alias_map_new();
    let ghost pairs = alias_pairs(aliases@);
    proof {
        assert(alias_entries(map) =~= alias_list_entries(pairs.take(0)));
    }
    let n = aliases.len();
    let mut i: usize = 0;
    while i < n
        invariant
            i <= n,
            n == aliases@.len(),
            pairs == alias_pairs(aliases@),
            alias_entries(map) == alias_list_entries(pairs.take(i as int)),
        decreases n - i,
    {
        let a = aliases[i].0.clone();
        let t = aliases[i].1.clone();
        proof {
            assert(pairs[i as int] == (a@, t@));
            assert(pairs.take(i + 1) =~= pairs.take(i as int).push((a@, t@)));
            assert(pairs.take(i + 1).drop_last() =~= pairs.take(i as int));
        }
        alias_map_insert(&mut map, a, t);
        i = i + 1;
    }
    proof {
        assert(pairs.take(n as int) =~= pairs);
    }
    Ok(RestoredIndex { night, traj, aliases: map })
}


/// Every entry of the split index built at ingestion is fit for storing.
pub proof fn lemma_split_index_storable<V>(keys: Seq<Option<V>>, entries: Map<V, IndexShape>)
    requires
        is_split_index(keys, entries),
        keys.len() <= usize::MAX,
    ensures
        forall|k: V| #[trigger] entries.contains_key(k) ==> storable(entries[k], keys.len()),
{
    assert forall|k: V| #[trigger] entries.contains_key(k) implies storable(entries[k], keys.len()) by {
        lemma_split_positions_exact(keys, k);
        let p = positions_of(keys, k);
        let i = choose|i: int| 0 <= i < keys.len() && keys[i] == Some(k);
        assert(p.contains(i as usize));
        assert(shape_positions(entries[k]) == as_ints(p));
    }
}

/// No row is listed by two nights in the night index built at ingestion,
/// each row having at most one night.
pub proof fn lemma_split_nights_disjoint(keys: Seq<Option<u32>>, entries: Map<u32, IndexShape>)
    requires
        is_split_index(keys, entries),
        keys.len() <= usize::MAX,
    ensures
        disjoint_nights(entries),
{
    broadcast use group_to_multiset_ensures;

    assert forall|a: u32, b: u32, i: int|
        entries.contains_key(a) && entries.contains_key(b) && a != b && #[trigger] times_listed(
            entries[a],
            i,
        ) > 0 implies #[trigger] times_listed(entries[b], i) == 0 by {
        lemma_split_positions_exact(keys, a);
        lemma_split_positions_exact(keys, b);
        let pa = positions_of(keys, a);
        let pb = positions_of(keys, b);
        assert(shape_positions(entries[a]) == as_ints(pa));
        assert(shape_positions(entries[b]) == as_ints(pb));
        assert(as_ints(pa).contains(i));
        let x = choose|x: int| 0 <= x < as_ints(pa).len() && as_ints(pa)[x] == i;
        assert(pa[x] < keys.len());
        assert(pa.contains(i as usize));
        assert(keys[i] == Some(a));
        if as_ints(pb).contains(i) {
            let y = choose|y: int| 0 <= y < as_ints(pb).len() && as_ints(pb)[y] == i;
            assert(pb[y] < keys.len());
            assert(pb.contains(i as usize));
        }
    }
}


/// A night index built at ingestion survives storing and restoring under
/// either layout: the restored index has the same nights, each with the
/// same positions.
pub proof fn lemma_ingested_nights_round_trip(
    keys: Seq<Option<u32>>,
    entries: Map<u32, IndexShape>,
    ms: Seq<ObsMembership>,
    layout: IndexLayout,
    rebuilt: Map<u32, IndexShape>,
)
    requires
        keys.len() <= usize::MAX,
        is_split_index(keys, entries),
        nights_of_entries(entries, ms, keys.len()),
        is_rebuilt_index(night_lists(ms), rebuilt, layout),
    ensures
        forall|k: u32| #[trigger] rebuilt.contains_key(k) <==> entries.contains_key(k),
        forall|k: u32| #[trigger]
            rebuilt.contains_key(k) ==> shape_positions(rebuilt[k]) =~= shape_positions(entries[k]),
{
    lemma_split_index_storable(keys, entries);
    lemma_split_nights_disjoint(keys, entries);
    lemma_night_round_trip(entries, ms, keys.len(), layout, rebuilt);
}

/// A trajectory index built at ingestion survives storing and restoring
/// under either layout: the restored index has the same trajectories, each
/// with the same positions.
pub proof fn lemma_ingested_trajs_round_trip(
    keys: Seq<Option<TrajKey>>,
    entries: Map<TrajKey, IndexShape>,
    ms: Seq<ObsMembership>,
    layout: IndexLayout,
    rebuilt: Map<TrajKey, IndexShape>,
)
    requires
        keys.len() <= usize::MAX,
        is_split_index(keys, entries),
        trajs_of_entries(entries, ms, keys.len()),
        is_rebuilt_index(traj_lists(ms), rebuilt, layout),
    ensures
        forall|k: TrajKey| #[trigger] rebuilt.contains_key(k) <==> entries.contains_key(k),
        forall|k: TrajKey| #[trigger]
            rebuilt.contains_key(k) ==> shape_positions(rebuilt[k]) =~= shape_positions(entries[k]),
{
    lemma_split_index_storable(keys, entries);
    lemma_traj_round_trip(entries, ms, keys.len(), layout, rebuilt);
}

} // verus!
