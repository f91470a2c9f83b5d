//! Assembling observations row by row from record batches.
//!
//! Custom geodetic sites are interned: each distinct site is stored once, in
//! the order it was first seen, and every row that names it refers to it by
//! its position.  Every accepted row appends one observation and steps the
//! night and trajectory indices; a refused row changes nothing.
use ahash::AHashMap;
use vstd::prelude::*;

use crate::index::{
    is_contiguous_index, is_split_index, night_index_entries, opt_view, traj_index_entries,
    ContiguousChoice, IndexBuilder, NightIndexMap, TrajIndexMap,
};
use crate::ingest::{
    at_row, bad_code_message, with_row, check_required_cells, missing_acc_message, partial_triplet_message,
    required_name, resolve_batch_observer, row_choice, LoadObsError, ObserverChoice, RawObsRow,
    ResolvedObserver,
};
use crate::observation::{Observation, ObserverId};
use crate::text::concat;
use crate::{NightId, TrajId, TrajKey};

verus! {

/// The bits of the five values of a geodetic site (longitude, latitude,
/// altitude and the two accuracies): two sites are the same site when their
/// keys are equal.
pub type SiteKey = [u64; 5];

/// The entries of a site lookup: site key ↦ position of the site.  An array
/// of integers hashes and compares element by element, so the map is keyed
/// by the array's value.
pub uninterp spec fn site_lookup_entries(m: AHashMap<[u64; 5], usize>) -> Map<[u64; 5], usize>;

/// `AHashMap::new`: an empty map.
#[verifier::external_body]
fn site_lookup_new() -> (m: AHashMap<[u64; 5], usize>)
    ensures
        site_lookup_entries(m).dom() == Set::<[u64; 5]>::empty(),
{
    AHashMap::new()
}

/// `AHashMap::get`: the position of the key, when it is in the map.
#[verifier::external_body]
fn site_lookup_get(m: &AHashMap<[u64; 5], usize>, k: &[u64; 5]) -> (r: Option<usize>)
    ensures
        match r {
            Some(v) => site_lookup_entries(*m).contains_key(*k) && v == site_lookup_entries(*m)[*k],
            None => !site_lookup_entries(*m).contains_key(*k),
        },
{
    m.get(k).copied()
}

/// `AHashMap::insert`: afterwards the key maps to the position.
#[verifier::external_body]
fn site_lookup_insert(m: &mut AHashMap<[u64; 5], usize>, k: [u64; 5], v: usize)
    ensures
        site_lookup_entries(*final(m)) == site_lookup_entries(*old(m)).insert(k, v),
{
    m.insert(k, v);
}

/// No key occurs twice.
pub open spec fn distinct_keys(keys: Seq<SiteKey>) -> bool {
    forall|i: int, j: int| 0 <= i < j < keys.len() ==> keys[i] != keys[j]
}

/// The position a key gets when it is interned among `keys`: its position
/// when it is already there, else the next one.
pub open spec fn interned_at(keys: Seq<SiteKey>, key: SiteKey) -> int {
    if keys.contains(key) {
        keys.index_of(key)
    } else {
        keys.len() as int
    }
}

/// The keys after interning `key`: unchanged when it is already there, else
/// with `key` added at the end.
pub open spec fn interned_keys(keys: Seq<SiteKey>, key: SiteKey) -> Seq<SiteKey> {
    if keys.contains(key) {
        keys
    } else {
        keys.push(key)
    }
}

/// The distinct sites seen so far, in the order they were first seen.
pub struct SiteTable<S> {
    sites: Vec<S>,
    lookup: AHashMap<[u64; 5], usize>,
    keys: Ghost<Seq<SiteKey>>,
}

impl<S> SiteTable<S> {
    /// The keys of the stored sites, by position.
    pub closed spec fn keys(&self) -> Seq<SiteKey> {
        self.keys@
    }

    /// The stored sites, by position.
    pub closed spec fn sites(&self) -> Seq<S> {
        self.sites@
    }

    /// One site per key, no key twice, and the lookup maps each key to its
    /// position.
    pub closed spec fn wf(&self) -> bool {
        &&& self.sites@.len() == self.keys@.len()
        &&& distinct_keys(self.keys@)
        &&& forall|k: SiteKey| #[trigger]
            site_lookup_entries(self.lookup).contains_key(k) <==> self.keys@.contains(k)
        &&& forall|i: int|
            0 <= i < self.keys@.len() ==> site_lookup_entries(self.lookup)[#[trigger] self.keys@[i]]
                == i
    }

    /// An empty table.
    pub fn new() -> (t: Self)
        ensures
            t.wf(),
            t.keys() == Seq::<SiteKey>::empty(),
            t.sites() == Seq::<S>::empty(),
    {
        let lookup = site_lookup_new();
        SiteTable { sites: Vec::new(), lookup, keys: Ghost(Seq::empty()) }
    }

    /// Intern a site under its key: a key seen before gives the position of
    /// its site and stores nothing; a new key stores the site at the next
    /// position and gives that position.
    pub fn intern(&mut self, key: SiteKey, site: S) -> (i: usize)
        requires
            old(self).wf(),
            old(self).keys().len() < usize::MAX,
        ensures
            final(self).wf(),
            i == interned_at(old(self).keys(), key),
            final(self).keys() == interned_keys(old(self).keys(), key),
            final(self).sites() == if old(self).keys().contains(key) {
                old(self).sites()
            } else {
                old(self).sites().push(site)
            },
            i < final(self).keys().len(),
            final(self).keys()[i as int] == key,
            distinct_keys(final(self).keys()),
    {
        match site_lookup_get(&self.lookup, &key) {
            Some(i) => {
                proof {
                    let j = choose|j: int| 0 <= j < self.keys@.len() && self.keys@[j] == key;
                    assert(site_lookup_entries(self.lookup)[self.keys@[j]] == j);
                    let q = self.keys@.index_of(key);
                    assert(0 <= q < self.keys@.len() && self.keys@[q] == key);
                    assert(q == j);
                }
                i
            },
            None => {
                let i = self.sites.len();
                self.sites.push(site);
                site_lookup_insert(&mut self.lookup, key, i);
                let ghost old_keys = self.keys@;
                proof {
                    assert(!old_keys.contains(key));
                    self.keys@ = old_keys.push(key);
                    assert forall|k: SiteKey| #[trigger]
                        site_lookup_entries(self.lookup).contains_key(k) <==> self.keys@.contains(k) by {
                        if old_keys.contains(k) {
                            let j = choose|j: int| 0 <= j < old_keys.len() && old_keys[j] == k;
                            assert(self.keys@[j] == k);
                        }
                        if self.keys@.contains(k) && k != key {
                            let j = choose|j: int| 0 <= j < self.keys@.len() && self.keys@[j] == k;
                            assert(old_keys[j] == k);
                        }
                        if k == key {
                            assert(self.keys@[old_keys.len() as int] == key);
                        }
                    }
                    assert forall|a: int| 0 <= a < self.keys@.len() implies site_lookup_entries(
                        self.lookup,
                    )[#[trigger] self.keys@[a]] == a by {
                        if a < old_keys.len() {
                            assert(self.keys@[a] == old_keys[a]);
                            assert(old_keys.contains(old_keys[a]));
                        }
                    }
                    assert(distinct_keys(self.keys@)) by {
                        assert forall|a: int, b: int| 0 <= a < b < self.keys@.len() implies self.keys@[a]
                            != self.keys@[b] by {
                            if b == old_keys.len() {
                                assert(self.keys@[a] == old_keys[a]);
                                assert(old_keys.contains(old_keys[a]));
                            } else {
                                assert(self.keys@[a] == old_keys[a] && self.keys@[b] == old_keys[b]);
                            }
                        }
                    }
                    assert(self.keys@[i as int] == key);
                }
                i
            },
        }
    }

    /// The stored sites.
    pub fn into_sites(self) -> (v: Vec<S>)
        ensures
            v@ == self.sites(),
    {
        self.sites
    }
}


/// The first null required cell at or after `i`, if any.
pub open spec fn first_null(nulls: [bool; 9], i: int) -> Option<int>
    decreases 9 - i,
{
    if i < 0 || i >= 9 {
        None
    } else if nulls[i] {
        Some(i)
    } else {
        first_null(nulls, i + 1)
    }
}

proof fn lemma_first_null(nulls: [bool; 9], i: int)
    requires
        0 <= i <= 9,
    ensures
        first_null(nulls, i) is None <==> (forall|j: int| i <= j < 9 ==> !nulls[j]),
        first_null(nulls, i) matches Some(k) ==> i <= k < 9 && nulls[k] && forall|j: int|
            i <= j < k ==> !nulls[j],
    decreases 9 - i,
{
    if i < 9 {
        lemma_first_null(nulls, i + 1);
    }
}

/// The text of the MPC code cell of a row, empty when the cell is null.
pub open spec fn code_text<'a, T>(row: &RawObsRow<'a, T>) -> Seq<char> {
    match row.mpc_code {
        Some(t) => t@,
        None => Seq::empty(),
    }
}

/// The reason a row's geodetic site was refused when it was built, if it
/// was.
pub open spec fn site_refusal<S>(site: Option<Result<(SiteKey, S), String>>) -> Option<Seq<char>> {
    match site {
        Some(Err(reason)) => Some(reason@),
        _ => None,
    }
}

/// Why a record-batch row at global row `g` is refused, if it is: the first
/// null required cell, else a breach of the observer rules, else a
/// geodetic site refused when it was built.
pub open spec fn row_refusal<'a, T, S>(
    nulls: [bool; 9],
    row: &RawObsRow<'a, T>,
    site: Option<Result<(SiteKey, S), String>>,
    g: usize,
) -> Option<Seq<char>> {
    match first_null(nulls, 0) {
        Some(i) => Some(at_row("null in required column '"@ + required_name(i) + "'"@, g)),
        None => match row_choice(row) {
            ObserverChoice::BadMpcCode => Some(bad_code_message(code_text(row), g)),
            ObserverChoice::MissingRaAcc => Some(missing_acc_message("obs_ra_acc is null"@, g)),
            ObserverChoice::MissingDecAcc => Some(missing_acc_message("obs_dec_acc is null"@, g)),
            ObserverChoice::PartialTriplet => Some(partial_triplet_message(g)),
            ObserverChoice::Geodetic => match site_refusal(site) {
                Some(reason) => Some(at_row("invalid observer"@, g) + ": "@ + reason),
                None => None,
            },
            _ => None,
        },
    }
}

/// The key of a site handed with a row (any key when none is).
pub open spec fn site_key<S>(site: Option<Result<(SiteKey, S), String>>) -> SiteKey {
    match site {
        Some(Ok((k, _))) => k,
        _ => [0u64, 0u64, 0u64, 0u64, 0u64],
    }
}

/// The observer of an accepted row: its MPC code, the position its site
/// gets when interned among `keys`, or none.
pub open spec fn row_observer(c: ObserverChoice, keys: Seq<SiteKey>, key: SiteKey) -> Option<
    ObserverId,
> {
    match c {
        ObserverChoice::Mpc(code) => Some(ObserverId::MpcCode(code)),
        ObserverChoice::Geodetic => Some(ObserverId::IntId(interned_at(keys, key) as usize)),
        _ => None,
    }
}

/// An observation that refers to a site refers to one of the first `n`.
pub open spec fn refers_within<M>(o: Observation<M>, n: nat) -> bool {
    match o.observer {
        Some(ObserverId::IntId(p)) => p < n,
        _ => true,
    }
}

/// The observations, sites and indices of the rows accepted so far.
pub struct RowIngest<M, S> {
    observations: Vec<Observation<M>>,
    sites: SiteTable<S>,
    index: IndexBuilder,
    global_row: usize,
}

impl<M, S> RowIngest<M, S> {
    /// The observations, one per accepted row, in row order.
    pub closed spec fn observations(&self) -> Seq<Observation<M>> {
        self.observations@
    }

    /// The keys of the interned sites, by position.
    pub closed spec fn site_keys(&self) -> Seq<SiteKey> {
        self.sites.keys()
    }

    /// The interned sites, by position.
    pub closed spec fn sites(&self) -> Seq<S> {
        self.sites.sites()
    }

    /// The number of rows accepted so far: the global position of the next
    /// row.
    pub closed spec fn rows(&self) -> nat {
        self.global_row as nat
    }

    /// The night keys of the accepted rows.
    pub closed spec fn night_keys(&self) -> Seq<Option<u32>> {
        self.index.night_keys()
    }

    /// The trajectory keys of the accepted rows.
    pub closed spec fn traj_keys(&self) -> Seq<Option<TrajKey>> {
        self.index.traj_keys()
    }

    /// A night index is built.
    pub closed spec fn has_night(&self) -> bool {
        self.index.has_night()
    }

    /// A trajectory index is built.
    pub closed spec fn has_traj(&self) -> bool {
        self.index.has_traj()
    }

    /// The night index is built as ranges.
    pub closed spec fn night_contiguous(&self) -> bool {
        self.index.night_contiguous()
    }

    /// The trajectory index is built as ranges.
    pub closed spec fn traj_contiguous(&self) -> bool {
        self.index.traj_contiguous()
    }

    /// One observation per accepted row, the sites and indices consistent,
    /// and every site an observation refers to stored.
    pub closed spec fn wf(&self) -> bool {
        &&& self.sites.wf()
        &&& self.index.wf()
        &&& self.observations@.len() == self.global_row
        &&& self.index.rows() == self.global_row
        &&& self.sites.keys().len() <= self.global_row
        &&& forall|i: int|
            0 <= i < self.observations@.len() ==> refers_within(
                #[trigger] self.observations@[i],
                self.sites.keys().len(),
            )
    }

    /// Nothing accepted yet; the indices are built as [`IndexBuilder::new`]
    /// says.
    pub fn new(has_night: bool, has_traj: bool, choice: Option<ContiguousChoice>) -> (t: Self)
        ensures
            t.wf(),
            t.rows() == 0,
            t.observations() == Seq::<Observation<M>>::empty(),
            t.site_keys() == Seq::<SiteKey>::empty(),
            t.sites() == Seq::<S>::empty(),
            t.night_keys() == Seq::<Option<u32>>::empty(),
            t.traj_keys() == Seq::<Option<TrajKey>>::empty(),
            t.has_night() == has_night,
            t.has_traj() == has_traj,
            t.night_contiguous() == (choice == Some(ContiguousChoice::ContiguousNight)),
            t.traj_contiguous() == (choice == Some(ContiguousChoice::ContiguousTraj)),
    {
        RowIngest {
            observations: Vec::new(),
            sites: SiteTable::new(),
            index: IndexBuilder::new(has_night, has_traj, choice),
            global_row: 0,
        }
    }

    /// The number of rows accepted so far.
    pub fn row_count(&self) -> (n: usize)
        ensures
            n == self.rows(),
    {
        self.global_row
    }

    /// Take one record-batch row: its null flags for the required columns,
    /// its observer cells, its geodetic site (given whenever the row has all
    /// five site cells: its key and value, or the reason its values make no
    /// site), its id, night, trajectory and measured values.  A refused row changes nothing; an accepted row
    /// interns its site, appends one observation, steps the indices and
    /// advances the global row.
    pub fn ingest_row<'a, T: Copy>(
        &mut self,
        nulls: [bool; 9],
        row: &RawObsRow<'a, T>,
        site: Option<Result<(SiteKey, S), String>>,
        id: u64,
        night: Option<NightId>,
        traj: Option<TrajId>,
        measurement: M,
    ) -> (r: Result<(), LoadObsError>)
        requires
            old(self).wf(),
            old(self).rows() < usize::MAX,
            row_choice(row) is Geodetic ==> site is Some,
        ensures
            final(self).wf(),
            r is Err <==> row_refusal(nulls, row, site, old(self).rows() as usize) is Some,
            r matches Err(e) ==> e matches LoadObsError::Arrow(m) && row_refusal(
                nulls,
                row,
                site,
                old(self).rows() as usize,
            ) == Some(m@),
            r is Err ==> *final(self) == *old(self),
            r is Ok ==> {
                &&& final(self).rows() == old(self).rows() + 1
                &&& final(self).observations() == old(self).observations().push(
                    Observation {
                        id,
                        night_id: night,
                        measurement,
                        observer: row_observer(row_choice(row), old(self).site_keys(), site_key(site)),
                    },
                )
                &&& final(self).site_keys() == if row_choice(row) is Geodetic {
                    interned_keys(old(self).site_keys(), site_key(site))
                } else {
                    old(self).site_keys()
                }
                &&& final(self).night_keys() == old(self).night_keys().push(opt_view(night))
                &&& final(self).traj_keys() == old(self).traj_keys().push(opt_view(traj))
            },
            final(self).has_night() == old(self).has_night(),
            final(self).has_traj() == old(self).has_traj(),
            final(self).night_contiguous() == old(self).night_contiguous(),
            final(self).traj_contiguous() == old(self).traj_contiguous(),
            distinct_keys(final(self).site_keys()),
    {
        proof {
            lemma_first_null(nulls, 0);
        }
        match check_required_cells(nulls, self.global_row) {
            Err(e) => {
                proof {
                    let i = choose|i: int|
                        0 <= i < 9 && nulls[i] && (forall|j: int| 0 <= j < i ==> !nulls[j]) && (
                        e matches LoadObsError::Arrow(m) && m@ == at_row(
                            "null in required column '"@ + required_name(i) + "'"@,
                            self.global_row,
                        ));
                    let k = first_null(nulls, 0).unwrap();
                    if k < i {
                        assert(!nulls[k]);
                    }
                    if i < k {
                        assert(!nulls[i]);
                    }
                }
                return Err(e);
            },
            Ok(()) => {},
        }
        let resolved = match resolve_batch_observer(row, self.global_row) {
            Err(e) => return Err(e),
            Ok(o) => o,
        };
        let ghost old_keys = self.sites.keys();
        let observer = match resolved {
            ResolvedObserver::Geodetic(_) => match site {
                Some(Ok((key, s))) => Some(ObserverId::IntId(self.sites.intern(key, s))),
                Some(Err(reason)) => {
                    let head = with_row("invalid observer", self.global_row);
                    let head = concat(head.as_str(), ": ");
                    return Err(LoadObsError::Arrow(concat(head.as_str(), reason.as_str())));
                },
                None => None,
            },
            ResolvedObserver::Mpc(o) => Some(o),
            ResolvedObserver::NoObserver => None,
        };
        self.index.on_row(night, traj);
        let ghost before = self.observations@;
        self.observations.push(Observation { id, night_id: night, measurement, observer });
        self.global_row = self.global_row + 1;
        proof {
            assert forall|i: int| 0 <= i < self.observations@.len() implies refers_within(
                #[trigger] self.observations@[i],
                self.sites.keys().len(),
            ) by {
                if i < before.len() {
                    assert(self.observations@[i] == before[i]);
                }
            }
        }
        Ok(())
    }

    /// The observations, the interned sites and the indices of the accepted
    /// rows (see [`IndexBuilder::finish`]).
    pub fn finish(self) -> (r: (Vec<Observation<M>>, Vec<S>, Option<NightIndexMap>, Option<TrajIndexMap>))
        requires
            self.wf(),
        ensures
            r.0@ == self.observations(),
            r.1@ == self.sites(),
            r.2 is Some == self.has_night(),
            r.3 is Some == self.has_traj(),
            r.2 matches Some(m) ==> if self.night_contiguous() {
                is_contiguous_index(self.night_keys(), night_index_entries(m))
            } else {
                is_split_index(self.night_keys(), night_index_entries(m))
            },
            r.3 matches Some(m) ==> if self.traj_contiguous() {
                is_contiguous_index(self.traj_keys(), traj_index_entries(m))
            } else {
                is_split_index(self.traj_keys(), traj_index_entries(m))
            },
    {
        let RowIngest { observations, sites, index, global_row: _ } = self;
        let (night, traj) = index.finish();
        (observations, sites.into_sites(), night, traj)
    }
}

} // verus!
