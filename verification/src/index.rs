//! Night and trajectory indices of a dataset.
//!
//! An index maps a group key (a night or a trajectory) to the positions of
//! its observations in the dataset, either as a half-open range
//! ([`ObsMapIndex::Contiguous`]) when the group occupies one block, or as
//! an explicit list ([`ObsMapIndex::Split`]).  [`IndexBuilder`] fills both
//! indices in one pass over the rows of an ingestion.
use ahash::AHashMap;
use vstd::prelude::*;

use crate::{NightId, TrajId, TrajKey};

verus! {

#[verifier::external_type_specification]
#[verifier::external_body]
#[verifier::reject_recursive_types(K)]
#[verifier::reject_recursive_types(V)]
#[verifier::reject_recursive_types(S)]
pub struct ExAHashMap<K, V, S>(AHashMap<K, V, S>);

#[verifier::external_type_specification]
#[verifier::external_body]
pub struct ExAHashRandomState(ahash::RandomState);

/// Position of an observation in its dataset.
pub type ObsIndex = usize;

/// Where the observations of one group are.
#[derive(Debug)]
pub enum ObsMapIndex {
    /// The half-open range `start..end` of positions.
    Contiguous { start: ObsIndex, end: ObsIndex },
    /// An explicit list of positions.
    Split(Vec<ObsIndex>),
}

/// The value of an [`ObsMapIndex`].
pub enum IndexShape {
    Contiguous(usize, usize),
    Split(Seq<usize>),
}

impl View for ObsMapIndex {
    type V = IndexShape;

    open spec fn view(&self) -> IndexShape {
        match self {
            ObsMapIndex::Contiguous { start, end } => IndexShape::Contiguous(*start, *end),
            ObsMapIndex::Split(v) => IndexShape::Split(v@),
        }
    }
}

/// The positions an index entry stands for, in increasing order for a range.
pub open spec fn shape_positions(s: IndexShape) -> Seq<int> {
    match s {
        IndexShape::Contiguous(a, b) => Seq::new(
            if b >= a {
                (b - a) as nat
            } else {
                0
            },
            |i: int| a + i,
        ),
        IndexShape::Split(v) => v.map_values(|p: usize| p as int),
    }
}

impl ObsMapIndex {
    /// Append a position to a split entry.
    pub fn push_split(&mut self, idx: ObsIndex)
        requires
            *old(self) is Split,
        ensures
            match (*old(self), *final(self)) {
                (ObsMapIndex::Split(a), ObsMapIndex::Split(b)) => b@ == a@.push(idx),
                _ => false,
            },
    {
        match self {
            ObsMapIndex::Split(v) => v.push(idx),
            ObsMapIndex::Contiguous { .. } => {},
        }
    }

    /// The positions of the entry, as a list.
    pub fn to_positions(&self) -> (v: Vec<ObsIndex>)
        ensures
            v@.map_values(|p: usize| p as int) == shape_positions(self@),
    {
        match self {
            ObsMapIndex::Contiguous { start, end } => {
                let mut v: Vec<ObsIndex> = Vec::new();
                if *start >= *end {
                    proof {
                        assert(v@.map_values(|p: usize| p as int) =~= shape_positions(self@));
                    }
                    return v;
                }
                let mut i = *start;
                while i < *end
                    invariant
                        *start <= i <= *end,
                        v@.len() == i - *start,
                        forall|j: int| 0 <= j < v@.len() ==> v@[j] == *start + j,
                    decreases *end - i,
                {
                    v.push(i);
                    i = i + 1;
                }
                proof {
                    assert(v@.map_values(|p: usize| p as int) =~= shape_positions(self@));
                }
                v
            },
            ObsMapIndex::Split(v) => {
                let c = v.clone();
                proof {
                    assert(c@ =~= v@);
                }
                c
            },
        }
    }
}

// ── night index maps ─────────────────────────────────────────────────────────

/// Night index: night ↦ positions of its observations.
pub type NightIndexMap = AHashMap<NightId, ObsMapIndex>;

/// The entries of a night index, keyed by night number.  `NightId` derives
/// `Eq` and `Hash` from its number, so the map is keyed by it.
pub uninterp spec fn night_index_entries(m: AHashMap<NightId, ObsMapIndex>) -> Map<
    u32,
    IndexShape,
>;

/// `AHashMap::new`: an empty map.
#[verifier::external_body]
pub(crate) fn night_index_new() -> (m: AHashMap<NightId, ObsMapIndex>)
    ensures
        night_index_entries(m).dom() == Set::<u32>::empty(),
{
    AHashMap::new()
}

/// `AHashMap::insert`: afterwards the night maps to the entry.
#[verifier::external_body]
pub(crate) fn night_index_insert(m: &mut AHashMap<NightId, ObsMapIndex>, k: NightId, v: ObsMapIndex)
    ensures
        night_index_entries(*final(m)) == night_index_entries(*old(m)).insert(k.0, v@),
{
    m.insert(k, v);
}

/// `AHashMap::remove`: takes the night's entry out of the map.
#[verifier::external_body]
pub(crate) fn night_index_remove(m: &mut AHashMap<NightId, ObsMapIndex>, k: &NightId) -> (r: Option<
    ObsMapIndex,
>)
    ensures
        night_index_entries(*final(m)) == night_index_entries(*old(m)).remove(k.0),
        match r {
            Some(v) => night_index_entries(*old(m)).contains_key(k.0) && v@ == night_index_entries(
                *old(m),
            )[k.0],
            None => !night_index_entries(*old(m)).contains_key(k.0),
        },
{
    m.remove(k)
}

// ── group keys and runs ──────────────────────────────────────────────────────

/// A key rows are grouped by.
pub trait GroupKey: View + Sized {
    /// Whether two keys are the same.
    fn same_key(&self, other: &Self) -> (r: bool)
        ensures
            r == (self@ == other@),
    ;

}

impl View for NightId {
    type V = u32;

    open spec fn view(&self) -> u32 {
        self.0
    }
}

impl GroupKey for NightId {
    fn same_key(&self, other: &Self) -> (r: bool) {
        self.0 == other.0
    }

}

impl GroupKey for TrajId {
    fn same_key(&self, other: &Self) -> (r: bool) {
        self.same(other)
    }

}

/// The view of an optional key.
pub open spec fn opt_view<K: View>(k: Option<K>) -> Option<K::V> {
    match k {
        Some(x) => Some(x@),
        None => None,
    }
}

/// Some row of `keys` has key `k`.
pub open spec fn occurs<V>(keys: Seq<Option<V>>, k: V) -> bool {
    exists|i: int| 0 <= i < keys.len() && keys[i] == Some(k)
}

/// The positions of the rows of `keys` with key `k`, in row order.
pub open spec fn positions_of<V>(keys: Seq<Option<V>>, k: V) -> Seq<usize>
    decreases keys.len(),
{
    if keys.len() == 0 {
        Seq::empty()
    } else if keys.last() == Some(k) {
        positions_of(keys.drop_last(), k).push((keys.len() - 1) as usize)
    } else {
        positions_of(keys.drop_last(), k)
    }
}

/// `s..e` is the last maximal run of rows with key `k` in `keys`.
pub open spec fn is_last_run<V>(keys: Seq<Option<V>>, k: V, s: int, e: int) -> bool {
    &&& 0 <= s < e <= keys.len()
    &&& forall|j: int| s <= j < e ==> keys[j] == Some(k)
    &&& s == 0 || keys[s - 1] != Some(k)
    &&& forall|j: int| e <= j < keys.len() ==> keys[j] != Some(k)
}

/// The rows of each key form one block, and rows without a key come last:
/// the order an ingestion sorted by the key produces.
pub open spec fn grouped<V>(keys: Seq<Option<V>>) -> bool {
    &&& forall|i: int, j: int, m: int|
        0 <= i < m < j < keys.len() && keys[i] is Some && #[trigger] keys[i] == #[trigger] keys[j]
            ==> #[trigger] keys[m] == keys[i]
    &&& forall|i: int, j: int|
        0 <= i < j < keys.len() && #[trigger] keys[i] is None ==> #[trigger] keys[j] is None
}

/// The split index of `keys`: each key maps to the list of its rows.
pub open spec fn is_split_index<V>(keys: Seq<Option<V>>, entries: Map<V, IndexShape>) -> bool {
    &&& forall|k: V| #[trigger] entries.contains_key(k) <==> occurs(keys, k)
    &&& forall|k: V|
        #[trigger] entries.contains_key(k) ==> entries[k] == IndexShape::Split(
            positions_of(keys, k),
        )
}

/// The contiguous index of `keys`: each key maps to its last run of rows.
pub open spec fn is_contiguous_index<V>(keys: Seq<Option<V>>, entries: Map<V, IndexShape>) -> bool {
    &&& forall|k: V| #[trigger] entries.contains_key(k) <==> occurs(keys, k)
    &&& forall|k: V|
        #[trigger] entries.contains_key(k) ==> exists|s: usize, e: usize|
            entries[k] == IndexShape::Contiguous(s, e) && is_last_run(keys, k, s as int, e as int)
}

proof fn lemma_positions_push<V>(keys: Seq<Option<V>>, x: Option<V>, k: V)
    ensures
        positions_of(keys.push(x), k) == if x == Some(k) {
            positions_of(keys, k).push(keys.len() as usize)
        } else {
            positions_of(keys, k)
        },
{
    assert(keys.push(x).drop_last() =~= keys);
}

proof fn lemma_occurs_push<V>(keys: Seq<Option<V>>, x: Option<V>, k: V)
    ensures
        occurs(keys.push(x), k) == (occurs(keys, k) || x == Some(k)),
{
    if occurs(keys, k) {
        let i = choose|i: int| 0 <= i < keys.len() && keys[i] == Some(k);
        assert(keys.push(x)[i] == Some(k));
    }
    if x == Some(k) {
        assert(keys.push(x)[keys.len() as int] == Some(k));
    }
    if occurs(keys.push(x), k) {
        let i = choose|i: int| 0 <= i < keys.len() + 1 && keys.push(x)[i] == Some(k);
        if i < keys.len() {
            assert(keys[i] == Some(k));
        }
    }
}

/// The view of a run a tracker hands out.
pub open spec fn run_view<K: View>(r: Option<(K, ObsMapIndex)>) -> Option<(K::V, IndexShape)> {
    match r {
        Some((k, e)) => Some((k@, e@)),
        None => None,
    }
}

/// What row `i` with key `x` does to a tracker whose open run is `open`:
/// the open run after the row, and the run the row closes, if any.
pub open spec fn tracker_step<V>(open: Option<(V, usize)>, i: usize, x: Option<V>) -> (
    Option<(V, usize)>,
    Option<(V, IndexShape)>,
) {
    match (x, open) {
        (Some(k), Some((ck, s))) => if ck == k {
            (open, None)
        } else {
            (Some((k, i)), Some((ck, IndexShape::Contiguous(s, i))))
        },
        (Some(k), None) => (Some((k, i)), None),
        (None, Some((ck, s))) => (None, Some((ck, IndexShape::Contiguous(s, i)))),
        (None, None) => (None, None),
    }
}

/// A fresh tracker after rows `0..keys.len()` with the given keys: its open
/// run, and the runs it handed out, in order.
pub open spec fn tracker_pass<V>(keys: Seq<Option<V>>) -> (Option<(V, usize)>, Seq<(V, IndexShape)>)
    decreases keys.len(),
{
    if keys.len() == 0 {
        (None, Seq::empty())
    } else {
        let prev = tracker_pass(keys.drop_last());
        let step = tracker_step(prev.0, (keys.len() - 1) as usize, keys.last());
        (
            step.0,
            match step.1 {
                Some(x) => prev.1.push(x),
                None => prev.1,
            },
        )
    }
}

/// Every run a fresh tracker hands out over rows with the given keys,
/// including the one `finalize(keys.len())` closes.
pub open spec fn tracker_runs<V>(keys: Seq<Option<V>>) -> Seq<(V, IndexShape)> {
    match tracker_pass(keys).0 {
        Some((k, s)) => tracker_pass(keys).1.push((k, IndexShape::Contiguous(s, keys.len() as usize))),
        None => tracker_pass(keys).1,
    }
}

/// Tracks the open run of one grouping column during a single pass.
pub struct GroupTracker<K> {
    current: Option<(K, usize)>,
}

impl<K: GroupKey> GroupTracker<K> {
    /// The open run: its key and start row.
    pub closed spec fn open_run(&self) -> Option<(K::V, usize)> {
        match self.current {
            Some((k, s)) => Some((k@, s)),
            None => None,
        }
    }

    /// A tracker with no open run.
    pub fn new() -> (t: Self)
        ensures
            t.open_run() is None,
    {
        GroupTracker { current: None }
    }

    /// Process the key of row `row_idx`.  A new key closes the open run and
    /// opens one at this row; a missing key closes the open run.  The closed
    /// run, if any, is returned as a contiguous entry.
    pub fn on_row(&mut self, row_idx: usize, key: Option<K>) -> (r: Option<(K, ObsMapIndex)>)
        ensures
            (final(self).open_run(), run_view(r)) == tracker_step(
                old(self).open_run(),
                row_idx,
                opt_view(key),
            ),
            match (key, old(self).open_run()) {
                (Some(k), Some((ck, s))) => if ck == k@ {
                    r is None && final(self).open_run() == old(self).open_run()
                } else {
                    final(self).open_run() == Some((k@, row_idx)) && (r matches Some((pk, e))
                        && pk@ == ck && e@ == IndexShape::Contiguous(s, row_idx))
                },
                (Some(k), None) => r is None && final(self).open_run() == Some((k@, row_idx)),
                (None, Some((ck, s))) => final(self).open_run() is None && (r matches Some((pk, e))
                    && pk@ == ck && e@ == IndexShape::Contiguous(s, row_idx)),
                (None, None) => r is None && final(self).open_run() is None,
            },
    {
        match key {
            Some(k) => {
                let same = match &self.current {
                    Some((ck, _)) => ck.same_key(&k),
                    None => false,
                };
                if same {
                    None
                } else {
                    let prev = self.current.take();
                    self.current = Some((k, row_idx));
                    match prev {
                        Some((pk, start)) => Some(
                            (pk, ObsMapIndex::Contiguous { start, end: row_idx }),
                        ),
                        None => None,
                    }
                }
            },
            None => match self.current.take() {
                Some((pk, start)) => Some((pk, ObsMapIndex::Contiguous { start, end: row_idx })),
                None => None,
            },
        }
    }

    /// Close the open run, if any, at row count `n`.
    pub fn finalize(self, n: usize) -> (r: Option<(K, ObsMapIndex)>)
        ensures
            run_view(r) == match self.open_run() {
                Some((ck, s)) => Some((ck, IndexShape::Contiguous(s, n))),
                None => None,
            },
            match self.open_run() {
                Some((ck, s)) => r matches Some((pk, e)) && pk@ == ck && e@ == IndexShape::Contiguous(
                    s,
                    n,
                ),
                None => r is None,
            },
    {
        match self.current {
            Some((pk, start)) => Some((pk, ObsMapIndex::Contiguous { start, end: n })),
            None => None,
        }
    }
}

// ── trajectory index maps ────────────────────────────────────────────────────

/// Trajectory index: trajectory ↦ positions of its observations.
pub type TrajIndexMap = AHashMap<TrajId, ObsMapIndex>;

/// The entries of a trajectory index, keyed by the trajectory's value.
/// `TrajId` derives `Eq` and `Hash` from its variant and content, so the map
/// is keyed by that value.
pub uninterp spec fn traj_index_entries(m: AHashMap<TrajId, ObsMapIndex>) -> Map<
    TrajKey,
    IndexShape,
>;

/// `AHashMap::new`: an empty map.
#[verifier::external_body]
pub(crate) fn traj_index_new() -> (m: AHashMap<TrajId, ObsMapIndex>)
    ensures
        traj_index_entries(m).dom() == Set::<TrajKey>::empty(),
{
    AHashMap::new()
}

/// `AHashMap::insert`: afterwards the trajectory maps to the entry.
#[verifier::external_body]
pub(crate) fn traj_index_insert(m: &mut AHashMap<TrajId, ObsMapIndex>, k: TrajId, v: ObsMapIndex)
    ensures
        traj_index_entries(*final(m)) == traj_index_entries(*old(m)).insert(k@, v@),
{
    m.insert(k, v);
}

/// `AHashMap::remove`: takes the trajectory's entry out of the map.
#[verifier::external_body]
pub(crate) fn traj_index_remove(m: &mut AHashMap<TrajId, ObsMapIndex>, k: &TrajId) -> (r: Option<
    ObsMapIndex,
>)
    ensures
        traj_index_entries(*final(m)) == traj_index_entries(*old(m)).remove(k@),
        match r {
            Some(v) => traj_index_entries(*old(m)).contains_key(k@) && v@ == traj_index_entries(
                *old(m),
            )[k@],
            None => !traj_index_entries(*old(m)).contains_key(k@),
        },
{
    m.remove(k)
}

// ── one-pass index construction ──────────────────────────────────────────────

/// Which grouping column is sorted so that its groups form blocks.
#[derive(Clone, Copy, Debug)]
pub enum ContiguousChoice {
    /// Sort by night: each night's observations form one block.
    ContiguousNight,
    /// Sort by trajectory: each trajectory's observations form one block.
    ContiguousTraj,
}

/// The open run of a tracker agrees with the keys seen so far.
pub open spec fn run_agrees<V>(keys: Seq<Option<V>>, open: Option<(V, usize)>) -> bool {
    match open {
        Some((k, s)) => {
            &&& s < keys.len()
            &&& forall|j: int| s <= j < keys.len() ==> keys[j] == Some(k)
            &&& s == 0 || keys[s - 1] != Some(k)
        },
        None => keys.len() == 0 || keys.last() is None,
    }
}

/// `k` is the key of the open run.
pub open spec fn is_open_key<V>(open: Option<(V, usize)>, k: V) -> bool {
    match open {
        Some((ok, _)) => ok == k,
        None => false,
    }
}

/// The entries of a contiguous index under construction: every key seen,
/// except the key of the open run, maps to its last run; the open key may
/// map to an earlier run of it.
pub open spec fn is_partial_contiguous_index<V>(
    keys: Seq<Option<V>>,
    entries: Map<V, IndexShape>,
    open: Option<(V, usize)>,
) -> bool {
    &&& forall|k: V| #[trigger] entries.contains_key(k) ==> occurs(keys, k)
    &&& forall|k: V| occurs(keys, k) && !is_open_key(open, k) ==> #[trigger] entries.contains_key(k)
    &&& forall|k: V|
        #[trigger] entries.contains_key(k) && !is_open_key(open, k) ==> exists|s: usize, e: usize|
            entries[k] == IndexShape::Contiguous(s, e) && is_last_run(keys, k, s as int, e as int)
}

proof fn lemma_last_run_push<V>(keys: Seq<Option<V>>, x: Option<V>, k: V, s: int, e: int)
    requires
        is_last_run(keys, k, s, e),
        x != Some(k),
    ensures
        is_last_run(keys.push(x), k, s, e),
{
    let ks = keys.push(x);
    assert forall|j: int| s <= j < e implies ks[j] == Some(k) by {
        assert(ks[j] == keys[j]);
    }
    assert forall|j: int| e <= j < ks.len() implies ks[j] != Some(k) by {
        if j < keys.len() {
            assert(ks[j] == keys[j]);
        }
    }
    if s > 0 {
        assert(ks[s - 1] == keys[s - 1]);
    }
}

/// One grouping column under construction: its keys so far, its map and
/// the mode it is built in.
pub open spec fn column_ok<V>(
    keys: Seq<Option<V>>,
    entries: Map<V, IndexShape>,
    contiguous: bool,
    open: Option<(V, usize)>,
) -> bool {
    if contiguous {
        &&& run_agrees(keys, open)
        &&& is_partial_contiguous_index(keys, entries, open)
    } else {
        is_split_index(keys, entries)
    }
}

proof fn lemma_split_step<V>(keys: Seq<Option<V>>, entries: Map<V, IndexShape>, k: V)
    requires
        is_split_index(keys, entries),
    ensures
        is_split_index(
            keys.push(Some(k)),
            entries.insert(k, IndexShape::Split(positions_of(keys, k).push(keys.len() as usize))),
        ),
{
    let ks = keys.push(Some(k));
    let en = entries.insert(k, IndexShape::Split(positions_of(keys, k).push(keys.len() as usize)));
    assert forall|q: V| #[trigger] en.contains_key(q) <==> occurs(ks, q) by {
        lemma_occurs_push(keys, Some(k), q);
    }
    assert forall|q: V| #[trigger] en.contains_key(q) implies en[q] == IndexShape::Split(
        positions_of(ks, q),
    ) by {
        lemma_positions_push(keys, Some(k), q);
    }
}

proof fn lemma_split_none<V>(keys: Seq<Option<V>>, entries: Map<V, IndexShape>)
    requires
        is_split_index(keys, entries),
    ensures
        is_split_index(keys.push(None), entries),
{
    let ks = keys.push(None);
    assert forall|q: V| #[trigger] entries.contains_key(q) <==> occurs(ks, q) by {
        lemma_occurs_push(keys, None, q);
    }
    assert forall|q: V| #[trigger] entries.contains_key(q) implies entries[q] == IndexShape::Split(
        positions_of(ks, q),
    ) by {
        lemma_positions_push(keys, None, q);
    }
}

proof fn lemma_contiguous_same<V>(keys: Seq<Option<V>>, entries: Map<V, IndexShape>, k: V, s: usize)
    requires
        run_agrees(keys, Some((k, s))),
        is_partial_contiguous_index(keys, entries, Some((k, s))),
    ensures
        run_agrees(keys.push(Some(k)), Some((k, s))),
        is_partial_contiguous_index(keys.push(Some(k)), entries, Some((k, s))),
{
    let ks = keys.push(Some(k));
    let open = Some((k, s));
    assert forall|j: int| s <= j < ks.len() implies ks[j] == Some(k) by {
        if j < keys.len() {
            assert(ks[j] == keys[j]);
        }
    }
    if s > 0 {
        assert(ks[s - 1] == keys[s - 1]);
    }
    assert forall|q: V| #[trigger] entries.contains_key(q) implies occurs(ks, q) by {
        lemma_occurs_push(keys, Some(k), q);
    }
    assert forall|q: V| occurs(ks, q) && !is_open_key(open, q) implies #[trigger] entries.contains_key(
        q,
    ) by {
        lemma_occurs_push(keys, Some(k), q);
    }
    assert forall|q: V| #[trigger] entries.contains_key(q) && !is_open_key(open, q) implies exists|
        a: usize,
        b: usize,
    | entries[q] == IndexShape::Contiguous(a, b) && is_last_run(ks, q, a as int, b as int) by {
        let (a, b) = choose|a: usize, b: usize|
            entries[q] == IndexShape::Contiguous(a, b) && is_last_run(keys, q, a as int, b as int);
        lemma_last_run_push(keys, Some(k), q, a as int, b as int);
    }
}

/// The entries after closing the open run at row count `n`.
pub open spec fn close_open<V>(entries: Map<V, IndexShape>, open: Option<(V, usize)>, n: usize) -> Map<
    V,
    IndexShape,
> {
    match open {
        Some((ck, s)) => entries.insert(ck, IndexShape::Contiguous(s, n)),
        None => entries,
    }
}

/// The open run after a row with key `x` at row `n` starts a new run.
pub open spec fn open_at<V>(x: Option<V>, n: usize) -> Option<(V, usize)> {
    match x {
        Some(k) => Some((k, n)),
        None => None,
    }
}

proof fn lemma_contiguous_close<V>(
    keys: Seq<Option<V>>,
    entries: Map<V, IndexShape>,
    open: Option<(V, usize)>,
    x: Option<V>,
)
    requires
        run_agrees(keys, open),
        is_partial_contiguous_index(keys, entries, open),
        !(open is Some && x is Some && x == Some(open.unwrap().0)),
        keys.len() < usize::MAX,
    ensures
        run_agrees(keys.push(x), open_at(x, keys.len() as usize)),
        is_partial_contiguous_index(
            keys.push(x),
            close_open(entries, open, keys.len() as usize),
            open_at(x, keys.len() as usize),
        ),
{
    let ks = keys.push(x);
    let n = keys.len() as usize;
    let en = close_open(entries, open, n);
    let no = open_at(x, n);
    match x {
        Some(k) => {
            assert(ks[n as int] == Some(k));
            if n > 0 {
                assert(ks[n - 1] == keys[n - 1]);
                match open {
                    Some((ck, s)) => {
                        assert(keys[n - 1] == Some(ck));
                    },
                    None => {},
                }
            }
        },
        None => {},
    }
    match open {
        Some((ck, s)) => {
            assert forall|j: int| s <= j < n implies ks[j] == Some(ck) by {
                assert(ks[j] == keys[j]);
            }
            if s > 0 {
                assert(ks[s - 1] == keys[s - 1]);
            }
            assert(ks[n as int] == x);
            assert(is_last_run(ks, ck, s as int, n as int));
        },
        None => {},
    }
    assert forall|q: V| #[trigger] en.contains_key(q) implies occurs(ks, q) by {
        lemma_occurs_push(keys, x, q);
        match open {
            Some((ck, s)) => {
                if q == ck {
                    assert(keys[s as int] == Some(ck));
                }
            },
            None => {},
        }
    }
    assert forall|q: V| occurs(ks, q) && !is_open_key(no, q) implies #[trigger] en.contains_key(q) by {
        lemma_occurs_push(keys, x, q);
    }
    assert forall|q: V| #[trigger] en.contains_key(q) && !is_open_key(no, q) implies exists|
        a: usize,
        b: usize,
    | en[q] == IndexShape::Contiguous(a, b) && is_last_run(ks, q, a as int, b as int) by {
        if open is Some && q == open.unwrap().0 {
            let (ck, s) = open.unwrap();
            assert(en[q] == IndexShape::Contiguous(s, n));
        } else {
            let (a, b) = choose|a: usize, b: usize|
                entries[q] == IndexShape::Contiguous(a, b) && is_last_run(
                    keys,
                    q,
                    a as int,
                    b as int,
                );
            lemma_last_run_push(keys, x, q, a as int, b as int);
        }
    }
}

proof fn lemma_contiguous_finish<V>(
    keys: Seq<Option<V>>,
    entries: Map<V, IndexShape>,
    open: Option<(V, usize)>,
)
    requires
        run_agrees(keys, open),
        is_partial_contiguous_index(keys, entries, open),
        keys.len() <= usize::MAX,
    ensures
        is_contiguous_index(keys, close_open(entries, open, keys.len() as usize)),
{
    let en = close_open(entries, open, keys.len() as usize);
    match open {
        Some((ck, s)) => {
            assert(keys[s as int] == Some(ck));
            assert(is_last_run(keys, ck, s as int, keys.len() as int));
        },
        None => {},
    }
    assert forall|q: V| #[trigger] en.contains_key(q) <==> occurs(keys, q) by {
        match open {
            Some((ck, s)) => {
                if q == ck {
                    assert(keys[s as int] == Some(ck));
                }
            },
            None => {},
        }
    }
}


/// One row of a night column: the contiguous mode closes runs through the
/// tracker, the split mode appends the row to its night's list.
fn night_column_step(
    map: &mut AHashMap<NightId, ObsMapIndex>,
    tracker: &mut GroupTracker<NightId>,
    contiguous: bool,
    row: usize,
    key: Option<NightId>,
    Ghost(keys): Ghost<Seq<Option<u32>>>,
)
    requires
        keys.len() == row,
        row < usize::MAX,
        column_ok(keys, night_index_entries(*old(map)), contiguous, old(tracker).open_run()),
        !contiguous ==> old(tracker).open_run() is None,
    ensures
        column_ok(
            keys.push(opt_view(key)),
            night_index_entries(*final(map)),
            contiguous,
            final(tracker).open_run(),
        ),
        !contiguous ==> final(tracker).open_run() is None,
{
    let ghost entries = night_index_entries(*map);
    let ghost open = tracker.open_run();
    if contiguous {
        let ghost same = match (key, open) {
            (Some(k), Some((ck, _))) => ck == k@,
            _ => false,
        };
        let closed = tracker.on_row(row, key);
        match closed {
            Some((k, e)) => night_index_insert(map, k, e),
            None => {},
        }
        proof {
            if same {
                let (ck, s) = open.unwrap();
                lemma_contiguous_same(keys, entries, ck, s);
            } else {
                lemma_contiguous_close(keys, entries, open, opt_view(key));
            }
        }
    } else {
        match key {
            Some(k) => {
                let ghost kv = k.0;
                let prev = night_index_remove(map, &k);
                match prev {
                    Some(mut e) => {
                        e.push_split(row);
                        night_index_insert(map, k, e);
                    },
                    None => {
                        let mut v: Vec<ObsIndex> = Vec::new();
                        v.push(row);
                        night_index_insert(map, k, ObsMapIndex::Split(v));
                        proof {
                            assert(positions_of(keys, kv) =~= Seq::<usize>::empty()) by {
                                lemma_positions_empty(keys, kv);
                            }
                        }
                    },
                }
                proof {
                    lemma_split_step(keys, entries, kv);
                    assert(night_index_entries(*map) =~= entries.insert(
                        kv,
                        IndexShape::Split(positions_of(keys, kv).push(keys.len() as usize)),
                    ));
                }
            },
            None => {
                proof {
                    lemma_split_none(keys, entries);
                }
            },
        }
    }
}

/// A key that occurs nowhere has no positions.
proof fn lemma_positions_empty<V>(keys: Seq<Option<V>>, k: V)
    requires
        !occurs(keys, k),
    ensures
        positions_of(keys, k) == Seq::<usize>::empty(),
    decreases keys.len(),
{
    if keys.len() > 0 {
        let init = keys.drop_last();
        assert(keys.last() == keys[keys.len() - 1]);
        assert(!occurs(init, k)) by {
            if occurs(init, k) {
                let i = choose|i: int| 0 <= i < init.len() && init[i] == Some(k);
                assert(keys[i] == Some(k));
            }
        }
        lemma_positions_empty(init, k);
    }
}


/// One row of a trajectory column, as [`night_column_step`] does for nights.
fn traj_column_step(
    map: &mut AHashMap<TrajId, ObsMapIndex>,
    tracker: &mut GroupTracker<TrajId>,
    contiguous: bool,
    row: usize,
    key: Option<TrajId>,
    Ghost(keys): Ghost<Seq<Option<TrajKey>>>,
)
    requires
        keys.len() == row,
        row < usize::MAX,
        column_ok(keys, traj_index_entries(*old(map)), contiguous, old(tracker).open_run()),
        !contiguous ==> old(tracker).open_run() is None,
    ensures
        column_ok(
            keys.push(opt_view(key)),
            traj_index_entries(*final(map)),
            contiguous,
            final(tracker).open_run(),
        ),
        !contiguous ==> final(tracker).open_run() is None,
{
    let ghost entries = traj_index_entries(*map);
    let ghost open = tracker.open_run();
    if contiguous {
        let ghost same = match (&key, open) {
            (Some(k), Some((ck, _))) => ck == k@,
            _ => false,
        };
        let closed = tracker.on_row(row, key);
        match closed {
            Some((k, e)) => traj_index_insert(map, k, e),
            None => {},
        }
        proof {
            if same {
                let (ck, s) = open.unwrap();
                lemma_contiguous_same(keys, entries, ck, s);
            } else {
                lemma_contiguous_close(keys, entries, open, opt_view(key));
            }
        }
    } else {
        match key {
            Some(k) => {
                let ghost kv = k@;
                let prev = traj_index_remove(map, &k);
                match prev {
                    Some(mut e) => {
                        e.push_split(row);
                        traj_index_insert(map, k, e);
                    },
                    None => {
                        let mut v: Vec<ObsIndex> = Vec::new();
                        v.push(row);
                        traj_index_insert(map, k, ObsMapIndex::Split(v));
                        proof {
                            assert(positions_of(keys, kv) =~= Seq::<usize>::empty()) by {
                                lemma_positions_empty(keys, kv);
                            }
                        }
                    },
                }
                proof {
                    lemma_split_step(keys, entries, kv);
                    assert(traj_index_entries(*map) =~= entries.insert(
                        kv,
                        IndexShape::Split(positions_of(keys, kv).push(keys.len() as usize)),
                    ));
                }
            },
            None => {
                proof {
                    lemma_split_none(keys, entries);
                }
            },
        }
    }
}

/// Builds the night and trajectory indices of an ingestion in one pass over
/// its rows.  A column the input lacks gets no index; the column named by
/// the [`ContiguousChoice`] is indexed by runs, the other by position lists.
pub struct IndexBuilder {
    night_map: Option<AHashMap<NightId, ObsMapIndex>>,
    traj_map: Option<AHashMap<TrajId, ObsMapIndex>>,
    night_contiguous: bool,
    traj_contiguous: bool,
    night_tracker: GroupTracker<NightId>,
    traj_tracker: GroupTracker<TrajId>,
    rows: usize,
    night_keys: Ghost<Seq<Option<u32>>>,
    traj_keys: Ghost<Seq<Option<TrajKey>>>,
}

impl IndexBuilder {
    /// The night keys of the rows seen so far.
    pub closed spec fn night_keys(&self) -> Seq<Option<u32>> {
        self.night_keys@
    }

    /// The trajectory keys of the rows seen so far.
    pub closed spec fn traj_keys(&self) -> Seq<Option<TrajKey>> {
        self.traj_keys@
    }

    /// The number of rows seen so far.
    pub closed spec fn rows(&self) -> nat {
        self.rows as nat
    }

    /// Whether the input has a night column.
    pub closed spec fn has_night(&self) -> bool {
        self.night_map is Some
    }

    /// Whether the input has a trajectory column.
    pub closed spec fn has_traj(&self) -> bool {
        self.traj_map is Some
    }

    /// Whether nights are indexed by runs.
    pub closed spec fn night_contiguous(&self) -> bool {
        self.night_contiguous
    }

    /// Whether trajectories are indexed by runs.
    pub closed spec fn traj_contiguous(&self) -> bool {
        self.traj_contiguous
    }

    /// The builder's internal invariant.
    pub closed spec fn wf(&self) -> bool {
        &&& self.night_keys@.len() == self.rows
        &&& self.traj_keys@.len() == self.rows
        &&& !(self.night_contiguous && self.traj_contiguous)
        &&& match self.night_map {
            Some(m) => column_ok(
                self.night_keys@,
                night_index_entries(m),
                self.night_contiguous,
                self.night_tracker.open_run(),
            ),
            None => true,
        }
        &&& !self.night_contiguous ==> self.night_tracker.open_run() is None
        &&& match self.traj_map {
            Some(m) => column_ok(
                self.traj_keys@,
                traj_index_entries(m),
                self.traj_contiguous,
                self.traj_tracker.open_run(),
            ),
            None => true,
        }
        &&& !self.traj_contiguous ==> self.traj_tracker.open_run() is None
    }

    /// A builder for an input with the given columns, sorted as `choice`
    /// says.
    pub fn new(has_night: bool, has_traj: bool, choice: Option<ContiguousChoice>) -> (b: Self)
        ensures
            b.wf(),
            b.rows() == 0,
            b.night_keys() == Seq::<Option<u32>>::empty(),
            b.traj_keys() == Seq::<Option<TrajKey>>::empty(),
            b.has_night() == has_night,
            b.has_traj() == has_traj,
            b.night_contiguous() == (choice == Some(ContiguousChoice::ContiguousNight)),
            b.traj_contiguous() == (choice == Some(ContiguousChoice::ContiguousTraj)),
    {
        let night_contiguous = match choice {
            Some(ContiguousChoice::ContiguousNight) => true,
            _ => false,
        };
        let traj_contiguous = match choice {
            Some(ContiguousChoice::ContiguousTraj) => true,
            _ => false,
        };
        let night_map = if has_night {
            let m = night_index_new();
            proof {
                assert(night_index_entries(m) =~= Map::<u32, IndexShape>::empty());
            }
            Some(m)
        } else {
            None
        };
        let traj_map = if has_traj {
            let m = traj_index_new();
            proof {
                assert(traj_index_entries(m) =~= Map::<TrajKey, IndexShape>::empty());
            }
            Some(m)
        } else {
            None
        };
        let b = IndexBuilder {
            night_map,
            traj_map,
            night_contiguous,
            traj_contiguous,
            night_tracker: GroupTracker::new(),
            traj_tracker: GroupTracker::new(),
            rows: 0,
            night_keys: Ghost(Seq::empty()),
            traj_keys: Ghost(Seq::empty()),
        };
        b
    }

    /// Record the next row, with its night and trajectory keys.  A key of a
    /// column the input lacks is ignored.
    pub fn on_row(&mut self, night: Option<NightId>, traj: Option<TrajId>)
        requires
            old(self).wf(),
            old(self).rows() < usize::MAX,
        ensures
            final(self).wf(),
            final(self).rows() == old(self).rows() + 1,
            final(self).night_keys() == old(self).night_keys().push(opt_view(night)),
            final(self).traj_keys() == old(self).traj_keys().push(opt_view(traj)),
            final(self).has_night() == old(self).has_night(),
            final(self).has_traj() == old(self).has_traj(),
            final(self).night_contiguous() == old(self).night_contiguous(),
            final(self).traj_contiguous() == old(self).traj_contiguous(),
    {
        let row = self.rows;
        match self.night_map.take() {
            Some(mut m) => {
                night_column_step(
                    &mut m,
                    &mut self.night_tracker,
                    self.night_contiguous,
                    row,
                    night,
                    Ghost(self.night_keys@),
                );
                self.night_map = Some(m);
            },
            None => {},
        }
        match self.traj_map.take() {
            Some(mut m) => {
                traj_column_step(
                    &mut m,
                    &mut self.traj_tracker,
                    self.traj_contiguous,
                    row,
                    traj,
                    Ghost(self.traj_keys@),
                );
                self.traj_map = Some(m);
            },
            None => {},
        }
        self.rows = row + 1;
        self.night_keys = Ghost(self.night_keys@.push(opt_view(night)));
        self.traj_keys = Ghost(self.traj_keys@.push(opt_view(traj)));
    }

    /// Close the open runs and hand out the indices: for each column the
    /// input has, the contiguous index of its keys when it was sorted by,
    /// else its split index.
    pub fn finish(self) -> (r: (Option<NightIndexMap>, Option<TrajIndexMap>))
        requires
            self.wf(),
        ensures
            r.0 is Some == self.has_night(),
            r.1 is Some == self.has_traj(),
            r.0 matches Some(m) ==> if self.night_contiguous() {
                is_contiguous_index(self.night_keys(), night_index_entries(m))
            } else {
                is_split_index(self.night_keys(), night_index_entries(m))
            },
            r.1 matches Some(m) ==> if self.traj_contiguous() {
                is_contiguous_index(self.traj_keys(), traj_index_entries(m))
            } else {
                is_split_index(self.traj_keys(), traj_index_entries(m))
            },
    {
        let IndexBuilder {
            night_map,
            traj_map,
            night_contiguous,
            traj_contiguous,
            night_tracker,
            traj_tracker,
            rows,
            night_keys,
            traj_keys,
        } = self;
        let ghost night_open = night_tracker.open_run();
        let ghost traj_open = traj_tracker.open_run();
        let night_out = match night_map {
            Some(mut m) => {
                let ghost entries = night_index_entries(m);
                if night_contiguous {
                    match night_tracker.finalize(rows) {
                        Some((k, e)) => night_index_insert(&mut m, k, e),
                        None => {},
                    }
                    proof {
                        lemma_contiguous_finish(night_keys@, entries, night_open);
                    }
                }
                Some(m)
            },
            None => None,
        };
        let traj_out = match traj_map {
            Some(mut m) => {
                let ghost entries = traj_index_entries(m);
                if traj_contiguous {
                    match traj_tracker.finalize(rows) {
                        Some((k, e)) => traj_index_insert(&mut m, k, e),
                        None => {},
                    }
                    proof {
                        lemma_contiguous_finish(traj_keys@, entries, traj_open);
                    }
                }
                Some(m)
            },
            None => None,
        };
        (night_out, traj_out)
    }
}


/// When `k` occurs exactly at the rows `s..e`, its positions are `s..e`.
proof fn lemma_positions_range<V>(keys: Seq<Option<V>>, k: V, s: int, e: int)
    requires
        0 <= s <= e <= keys.len(),
        keys.len() <= usize::MAX,
        forall|j: int| 0 <= j < keys.len() ==> (keys[j] == Some(k) <==> s <= j < e),
    ensures
        positions_of(keys, k).map_values(|p: usize| p as int) =~= Seq::new(
            (e - s) as nat,
            |i: int| s + i,
        ),
    decreases keys.len(),
{
    if keys.len() > 0 {
        let init = keys.drop_last();
        let n = keys.len() - 1;
        assert(keys.last() == keys[n]);
        if e == keys.len() && s < e {
            assert forall|j: int| 0 <= j < init.len() implies (init[j] == Some(k) <==> s <= j < e
                - 1) by {
                assert(init[j] == keys[j]);
            }
            lemma_positions_range(init, k, s, e - 1);
            let p = positions_of(init, k);
            assert(p.push(n as usize).map_values(|q: usize| q as int) =~= p.map_values(
                |q: usize| q as int,
            ).push(n));
        } else {
            assert(keys[n] != Some(k));
            let (s2, e2) = if e == keys.len() {
                (n, n)
            } else {
                (s, e)
            };
            assert forall|j: int| 0 <= j < init.len() implies (init[j] == Some(k) <==> s2 <= j
                < e2) by {
                assert(init[j] == keys[j]);
            }
            lemma_positions_range(init, k, s2, e2);
        }
    }
}

/// Sorting by a column makes its contiguous index hold the same positions
/// as its split index: on input whose keys form blocks, every range entry
/// of the contiguous index covers exactly the rows of its key, in order.
pub proof fn lemma_contiguous_matches_split<V>(keys: Seq<Option<V>>, entries: Map<V, IndexShape>)
    requires
        grouped(keys),
        is_contiguous_index(keys, entries),
        keys.len() <= usize::MAX,
    ensures
        forall|k: V| #[trigger]
            entries.contains_key(k) ==> shape_positions(entries[k]) =~= positions_of(
                keys,
                k,
            ).map_values(|p: usize| p as int),
{
    assert forall|k: V| #[trigger] entries.contains_key(k) implies shape_positions(entries[k])
        =~= positions_of(keys, k).map_values(|p: usize| p as int) by {
        let (s, e) = choose|s: usize, e: usize|
            entries[k] == IndexShape::Contiguous(s, e) && is_last_run(keys, k, s as int, e as int);
        lemma_last_run_positions(keys, k, s, e);
    }
}

/// On keys that form blocks, the last run of a key holds all its rows.
proof fn lemma_last_run_positions<V>(keys: Seq<Option<V>>, k: V, s: usize, e: usize)
    requires
        grouped(keys),
        is_last_run(keys, k, s as int, e as int),
        keys.len() <= usize::MAX,
    ensures
        shape_positions(IndexShape::Contiguous(s, e)) =~= positions_of(keys, k).map_values(
            |p: usize| p as int,
        ),
{
    assert forall|j: int| 0 <= j < keys.len() implies (keys[j] == Some(k) <==> s <= j < e) by {
        if keys[j] == Some(k) && j < s {
            if j < s - 1 {
                assert(keys[s as int] == Some(k));
                assert(keys[j] == keys[s as int]);
                assert(keys[s - 1] == keys[j]);
            }
        }
    }
    lemma_positions_range(keys, k, s as int, e as int);
}

/// `k` is the key of one of the runs `out`.
pub open spec fn lists_key<V>(out: Seq<(V, IndexShape)>, k: V) -> bool {
    exists|i: int| 0 <= i < out.len() && #[trigger] out[i].0 == k
}

/// `r` is a range entry holding the last run of rows of its key.
pub open spec fn is_run_of<V>(keys: Seq<Option<V>>, r: (V, IndexShape)) -> bool {
    match r.1 {
        IndexShape::Contiguous(s, e) => is_last_run(keys, r.0, s as int, e as int),
        IndexShape::Split(_) => false,
    }
}

/// What holds of a tracker after a pass over keys that form blocks: its
/// open run agrees with the keys, every run it handed out is the last (and
/// only) run of its key, no key is handed out twice or is also open, and
/// the keys seen are those handed out and the open one.
pub open spec fn pass_ok<V>(keys: Seq<Option<V>>, open: Option<(V, usize)>, out: Seq<(V, IndexShape)>) -> bool {
    &&& run_agrees(keys, open)
    &&& forall|i: int| 0 <= i < out.len() ==> is_run_of(keys, #[trigger] out[i])
    &&& forall|i: int, j: int| 0 <= i < j < out.len() ==> #[trigger] out[i].0 != #[trigger] out[j].0
    &&& forall|i: int| 0 <= i < out.len() ==> !is_open_key(open, #[trigger] out[i].0)
    &&& forall|k: V| occurs(keys, k) <==> (is_open_key(open, k) || lists_key(out, k))
}

/// A key that occurs before the last row, whose key differs, cannot come
/// back in the last row of keys that form blocks.
proof fn lemma_no_return<V>(keys: Seq<Option<V>>, k: V, i: int)
    requires
        grouped(keys),
        keys.len() >= 2,
        0 <= i < keys.len() - 1,
        keys[i] == Some(k),
        keys.last() == Some(k),
    ensures
        keys[keys.len() - 2] == Some(k),
{
    let n = keys.len() - 1;
    if i < n - 1 {
        assert(keys[i] == keys[n]);
        assert(keys[n - 1] == keys[i]);
    }
}

/// A prefix of keys that form blocks forms blocks.
proof fn lemma_grouped_prefix<V>(keys: Seq<Option<V>>)
    requires
        grouped(keys),
        keys.len() > 0,
    ensures
        grouped(keys.drop_last()),
{
    let init = keys.drop_last();
    assert forall|i: int, j: int, m: int|
        0 <= i < m < j < init.len() && init[i] is Some && #[trigger] init[i] == #[trigger] init[j]
            implies #[trigger] init[m] == init[i] by {
        assert(keys[i] == keys[j]);
        assert(keys[m] == keys[i]);
    }
    assert forall|i: int, j: int| 0 <= i < j < init.len() && #[trigger] init[i] is None implies #[trigger] init[j] is None by {
        assert(keys[i] is None);
        assert(keys[j] is None);
    }
}

proof fn lemma_tracker_pass_ok<V>(keys: Seq<Option<V>>)
    requires
        grouped(keys),
        keys.len() <= usize::MAX,
    ensures
        pass_ok(keys, tracker_pass(keys).0, tracker_pass(keys).1),
    decreases keys.len(),
{
    if keys.len() > 0 {
        let init = keys.drop_last();
        let n = init.len();
        lemma_grouped_prefix(keys);
        lemma_tracker_pass_ok(init);
        let open = tracker_pass(init).0;
        let out = tracker_pass(init).1;
        let x = keys.last();
        assert(keys =~= init.push(x));
        let o2 = tracker_step(open, n as usize, x).0;
        let em = tracker_step(open, n as usize, x).1;
        let out2 = match em {
            Some(r) => out.push(r),
            None => out,
        };
        assert(tracker_pass(keys).0 == o2 && tracker_pass(keys).1 == out2);
        // A key that opens a run was not seen before.
        if x is Some && !(open is Some && open.unwrap().0 == x.unwrap()) {
            let k = x.unwrap();
            if occurs(init, k) {
                let i = choose|i: int| 0 <= i < init.len() && init[i] == Some(k);
                assert(keys[i] == Some(k));
                lemma_no_return(keys, k, i);
                assert(init[n - 1] == Some(k));
                match open {
                    Some((ck, s)) => {
                        assert(init[n - 1] == Some(ck));
                    },
                    None => {},
                }
                assert(false);
            }
            assert(!lists_key(out, k));
        }
        // The runs handed out before stay last runs.
        assert forall|i: int| 0 <= i < out.len() implies is_run_of(keys, #[trigger] out[i]) by {
            let q = out[i].0;
            assert(is_run_of(init, out[i]));
            if x == Some(q) {
                assert(lists_key(out, q));
                assert(occurs(init, q));
                assert(!is_open_key(open, q));
            }
            match out[i].1 {
                IndexShape::Contiguous(a, b) => {
                    lemma_last_run_push(init, x, q, a as int, b as int);
                },
                IndexShape::Split(_) => {},
            }
        }
        match open {
            Some((ck, s)) => {
                if x == Some(ck) {
                    lemma_contiguous_same_run(init, ck, s);
                    assert(o2 == open && out2 == out);
                } else {
                    lemma_close_run(init, ck, s, x);
                    assert(o2 == open_at(x, n as usize));
                    assert(out2 == out.push((ck, IndexShape::Contiguous(s, n as usize))));
                    assert(init[s as int] == Some(ck));
                }
            },
            None => {
                match x {
                    Some(k) => {
                        lemma_open_run(init, k);
                        assert(o2 == Some((k, n as usize)));
                    },
                    None => {
                        assert(o2 is None);
                        if n > 0 {
                            assert(keys[n as int] is None);
                        }
                    },
                }
                assert(out2 == out);
            },
        }
        assert forall|i: int| 0 <= i < out2.len() implies is_run_of(keys, #[trigger] out2[i]) by {
            if i < out.len() {
                assert(out2[i] == out[i]);
            }
        }
        assert forall|i: int, j: int| 0 <= i < j < out2.len() implies #[trigger] out2[i].0
            != #[trigger] out2[j].0 by {
            assert(out2[i] == out[i]);
            if j < out.len() {
                assert(out2[j] == out[j]);
            }
        }
        assert forall|i: int| 0 <= i < out2.len() implies !is_open_key(o2, #[trigger] out2[i].0) by {
            if i < out.len() {
                assert(out2[i] == out[i]);
                if x is Some && out[i].0 == x.unwrap() {
                    assert(lists_key(out, x.unwrap()));
                }
            }
        }
        assert forall|q: V| occurs(keys, q) <==> (is_open_key(o2, q) || lists_key(out2, q)) by {
            lemma_occurs_push(init, x, q);
            if lists_key(out, q) {
                let i = choose|i: int| 0 <= i < out.len() && #[trigger] out[i].0 == q;
                assert(out2[i] == out[i]);
                assert(out2[i].0 == q);
            }
            if lists_key(out2, q) {
                let i = choose|i: int| 0 <= i < out2.len() && #[trigger] out2[i].0 == q;
                if i < out.len() {
                    assert(out2[i] == out[i]);
                }
            }
            if open is Some && out2.len() > out.len() && q == open.unwrap().0 {
                assert(out2[out.len() as int].0 == q);
            }
        }
    }
}

/// The open run goes on with one more row of its key.
proof fn lemma_contiguous_same_run<V>(keys: Seq<Option<V>>, k: V, s: usize)
    requires
        run_agrees(keys, Some((k, s))),
    ensures
        run_agrees(keys.push(Some(k)), Some((k, s))),
{
    let ks = keys.push(Some(k));
    assert forall|j: int| s <= j < ks.len() implies ks[j] == Some(k) by {
        if j < keys.len() {
            assert(ks[j] == keys[j]);
        }
    }
    if s > 0 {
        assert(ks[s - 1] == keys[s - 1]);
    }
}

/// A row with another key, or none, closes the open run: the run is then
/// the last run of its key, and the row opens the run of its own key.
proof fn lemma_close_run<V>(keys: Seq<Option<V>>, ck: V, s: usize, x: Option<V>)
    requires
        run_agrees(keys, Some((ck, s))),
        x != Some(ck),
        keys.len() < usize::MAX,
    ensures
        is_last_run(keys.push(x), ck, s as int, keys.len() as int),
        run_agrees(keys.push(x), open_at(x, keys.len() as usize)),
{
    let ks = keys.push(x);
    let n = keys.len();
    assert forall|j: int| s <= j < n implies ks[j] == Some(ck) by {
        assert(ks[j] == keys[j]);
    }
    if s > 0 {
        assert(ks[s - 1] == keys[s - 1]);
    }
    assert(ks[n as int] == x);
    match x {
        Some(k) => {
            assert(ks[n - 1] == keys[n - 1]);
            assert(keys[n - 1] == Some(ck));
        },
        None => {},
    }
}

/// A key row after no open run opens a run there.
proof fn lemma_open_run<V>(keys: Seq<Option<V>>, k: V)
    requires
        run_agrees(keys, None::<(V, usize)>),
        keys.len() < usize::MAX,
    ensures
        run_agrees(keys.push(Some(k)), Some((k, keys.len() as usize))),
{
    let ks = keys.push(Some(k));
    let n = keys.len();
    assert(ks[n as int] == Some(k));
    if n > 0 {
        assert(ks[n - 1] == keys[n - 1]);
    }
}

/// A pass of a fresh tracker over rows whose keys form blocks (rows without
/// a key last), closed by `finalize` at the row count, hands out every key
/// that occurs exactly once, and no other, each with the range of exactly
/// the rows of that key.
pub proof fn lemma_tracker_lists_each_run_once<V>(keys: Seq<Option<V>>)
    requires
        grouped(keys),
        keys.len() <= usize::MAX,
    ensures
        forall|k: V| occurs(keys, k) <==> lists_key(tracker_runs(keys), k),
        forall|i: int, j: int|
            0 <= i < j < tracker_runs(keys).len() ==> #[trigger] tracker_runs(keys)[i].0
                != #[trigger] tracker_runs(keys)[j].0,
        forall|i: int|
            0 <= i < tracker_runs(keys).len() ==> (#[trigger] tracker_runs(keys)[i]).1 is Contiguous
                && shape_positions(tracker_runs(keys)[i].1) =~= positions_of(
                keys,
                tracker_runs(keys)[i].0,
            ).map_values(|p: usize| p as int),
{
    lemma_tracker_pass_ok(keys);
    let (open, out) = tracker_pass(keys);
    let runs = tracker_runs(keys);
    let n = keys.len();
    match open {
        Some((ck, s)) => {
            assert(keys[s as int] == Some(ck));
            assert(is_last_run(keys, ck, s as int, n as int));
            assert(runs == out.push((ck, IndexShape::Contiguous(s, n as usize))));
        },
        None => {
            assert(runs == out);
        },
    }
    assert forall|i: int| 0 <= i < runs.len() implies (#[trigger] runs[i]).1 is Contiguous
        && shape_positions(runs[i].1) =~= positions_of(keys, runs[i].0).map_values(
        |p: usize| p as int,
    ) by {
        if i < out.len() {
            assert(runs[i] == out[i]);
            assert(is_run_of(keys, out[i]));
            match out[i].1 {
                IndexShape::Contiguous(a, b) => {
                    lemma_last_run_positions(keys, out[i].0, a, b);
                },
                IndexShape::Split(_) => {},
            }
        } else {
            let (ck, s) = open.unwrap();
            lemma_last_run_positions(keys, ck, s, n as usize);
        }
    }
    assert forall|i: int, j: int| 0 <= i < j < runs.len() implies #[trigger] runs[i].0
        != #[trigger] runs[j].0 by {
        assert(runs[i] == out[i]);
        if j < out.len() {
            assert(runs[j] == out[j]);
        }
    }
    assert forall|k: V| occurs(keys, k) <==> lists_key(runs, k) by {
        if lists_key(out, k) {
            let i = choose|i: int| 0 <= i < out.len() && #[trigger] out[i].0 == k;
            assert(runs[i] == out[i]);
        }
        if is_open_key(open, k) {
            assert(runs[out.len() as int].0 == k);
        }
        if lists_key(runs, k) {
            let i = choose|i: int| 0 <= i < runs.len() && #[trigger] runs[i].0 == k;
            if i < out.len() {
                assert(runs[i] == out[i]);
            }
        }
    }
}


// ── trajectory aliases ───────────────────────────────────────────────────────

/// Alternate trajectory designations and the identifier each stands for.
pub type TrajAliasMap = AHashMap<String, TrajId>;

/// The entries of an alias map, keyed by the text of the alias.  `String`
/// hashes and compares by its characters, so the map is keyed by them.
pub uninterp spec fn alias_entries(m: AHashMap<String, TrajId>) -> Map<Seq<char>, TrajKey>;

/// `AHashMap::new`: an empty map.
#[verifier::external_body]
pub(crate) fn alias_map_new() -> (m: AHashMap<String, TrajId>)
    ensures
        forall|k: Seq<char>| !(#[trigger] alias_entries(m).contains_key(k)),
{
    AHashMap::new()
}

/// `AHashMap::insert`: afterwards the alias stands for the identifier.
#[verifier::external_body]
pub(crate) fn alias_map_insert(m: &mut AHashMap<String, TrajId>, k: String, v: TrajId)
    ensures
        alias_entries(*final(m)) == alias_entries(*old(m)).insert(k@, v@),
{
    m.insert(k, v);
}

/// `AHashMap::get`: the identifier the alias stands for, if any.
#[verifier::external_body]
pub(crate) fn alias_map_get<'a>(m: &'a AHashMap<String, TrajId>, k: &str) -> (r: Option<&'a TrajId>)
    ensures
        match r {
            Some(v) => alias_entries(*m).contains_key(k@) && v@ == alias_entries(*m)[k@],
            None => !alias_entries(*m).contains_key(k@),
        },
{
    m.get(k)
}


/// In a split index every row with a key is listed once, in its key's
/// entry, and rows are listed in increasing order: the positions of `k`
/// are exactly the rows whose key is `k`.
pub proof fn lemma_split_positions_exact<V>(keys: Seq<Option<V>>, k: V)
    requires
        keys.len() <= usize::MAX,
    ensures
        forall|a: int, b: int|
            0 <= a < b < positions_of(keys, k).len() ==> positions_of(keys, k)[a]
                < positions_of(keys, k)[b],
        forall|i: int|
            0 <= i < keys.len() ==> (positions_of(keys, k).contains(i as usize) <==> keys[i]
                == Some(k)),
        forall|a: int|
            0 <= a < positions_of(keys, k).len() ==> positions_of(keys, k)[a] < keys.len(),
    decreases keys.len(),
{
    if keys.len() > 0 {
        let init = keys.drop_last();
        let n = keys.len() - 1;
        lemma_split_positions_exact(init, k);
        let p = positions_of(init, k);
        assert forall|i: int| 0 <= i < n implies keys[i] == init[i] by {}
        if keys.last() == Some(k) {
            let q = p.push(n as usize);
            assert(positions_of(keys, k) == q);
            assert forall|i: int| 0 <= i < keys.len() implies (q.contains(i as usize) <==> keys[i]
                == Some(k)) by {
                if i < n {
                    if q.contains(i as usize) {
                        let a = choose|a: int| 0 <= a < q.len() && q[a] == i as usize;
                        if a < p.len() {
                            assert(p[a] == i as usize);
                        }
                    }
                    if p.contains(i as usize) {
                        let a = choose|a: int| 0 <= a < p.len() && p[a] == i as usize;
                        assert(q[a] == i as usize);
                    }
                } else {
                    assert(q[p.len() as int] == n as usize);
                }
            }
        } else {
            assert(positions_of(keys, k) == p);
            assert forall|i: int| 0 <= i < keys.len() implies (p.contains(i as usize) <==> keys[i]
                == Some(k)) by {
                if i == n && p.contains(i as usize) {
                    let a = choose|a: int| 0 <= a < p.len() && p[a] == i as usize;
                    assert(p[a] < init.len());
                }
            }
        }
    }
}

} // verus!
