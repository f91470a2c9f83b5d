//! Identity rules of the ADES observation format.
//!
//! An ADES optical observation names its object by a permanent
//! designation, a provisional one or a tracklet label, and its observatory
//! either itself (`stn`) or through the context of its observation block.
//! These rules, and the trajectory index of a document, are stated here;
//! reading the XML and the measured values is the caller's.
use vstd::prelude::*;

use crate::index::{
    is_split_index, opt_view, traj_index_entries, traj_index_new, IndexBuilder, TrajIndexMap,
};
use crate::observation::{MpcCode, ObserverId, Observation};
use crate::text::{all_digits, digits_value, parse_u32, parse_u32_text};
use crate::{TrajId, TrajKey};

verus! {

/// The identity fields of an optical observation.
pub struct OpticalIds {
    /// Permanent designation (`permID`).
    pub perm_id: Option<String>,
    /// Provisional designation (`provID`).
    pub prov_id: Option<String>,
    /// Tracklet label (`trkSub`).
    pub trk_sub: Option<String>,
    /// Observatory code of the observation itself (`stn`).
    pub stn: String,
}

/// The view of an optional text.
pub open spec fn opt_text(s: Option<String>) -> Option<Seq<char>> {
    match s {
        Some(t) => Some(t@),
        None => None,
    }
}

/// The designation of an observation: the permanent designation, else the
/// provisional one, else the tracklet label; an integer when that text
/// parses as a `u32`, the text otherwise; none when all three are absent.
pub open spec fn designation(
    perm: Option<Seq<char>>,
    prov: Option<Seq<char>>,
    trk: Option<Seq<char>>,
) -> Option<TrajKey> {
    let id = match perm {
        Some(p) => Some(p),
        None => match prov {
            Some(p) => Some(p),
            None => trk,
        },
    };
    match id {
        Some(t) => match parse_u32(t) {
            Some(n) => Some(TrajKey::Int(n)),
            None => Some(TrajKey::Str(t)),
        },
        None => None,
    }
}

/// The identifier an observation is designated by: the permanent
/// designation, else the provisional one, else the tracklet label.
pub open spec fn chosen_id(
    perm: Option<Seq<char>>,
    prov: Option<Seq<char>>,
    trk: Option<Seq<char>>,
) -> Option<Seq<char>> {
    if perm is Some {
        perm
    } else if prov is Some {
        prov
    } else {
        trk
    }
}

/// The text of a `u32` as `str::parse` reads it: an optional `+`, then one
/// or more decimal digits.
pub open spec fn unsigned_digits(t: Seq<char>) -> Seq<char> {
    if t.len() > 0 && t[0] == '+' {
        t.drop_first()
    } else {
        t
    }
}

/// A designation is an integer only when the chosen identifier is, in
/// full, the decimal text of that integer (an optional `+` and digits whose
/// value it is, so `67P` is never the integer 67); any other identifier is
/// kept as its own text; there is none only when all three are absent.
pub proof fn lemma_designation_is_the_chosen_text(
    perm: Option<Seq<char>>,
    prov: Option<Seq<char>>,
    trk: Option<Seq<char>>,
)
    ensures
        designation(perm, prov, trk) is None <==> chosen_id(perm, prov, trk) is None,
        designation(perm, prov, trk) matches Some(TrajKey::Int(n)) ==> {
            let d = unsigned_digits(chosen_id(perm, prov, trk).unwrap());
            &&& d.len() > 0
            &&& forall|i: int| 0 <= i < d.len() ==> '0' <= #[trigger] d[i] <= '9'
            &&& digits_value(d) == n
        },
        designation(perm, prov, trk) matches Some(TrajKey::Str(t)) ==> Some(t) == chosen_id(
            perm,
            prov,
            trk,
        ) && !(unsigned_digits(t).len() > 0 && all_digits(unsigned_digits(t))
            && digits_value(unsigned_digits(t)) <= u32::MAX),
{
}

impl OpticalIds {
    /// The designation of the observation (see [`designation`]).
    pub fn traj_id(&self) -> (r: Option<TrajId>)
        ensures
            opt_view(r) == designation(
                opt_text(self.perm_id),
                opt_text(self.prov_id),
                opt_text(self.trk_sub),
            ),
    {
        let id: &String = match &self.perm_id {
            Some(p) => p,
            None => match &self.prov_id {
                Some(p) => p,
                None => match &self.trk_sub {
                    Some(t) => t,
                    None => return None,
                },
            },
        };
        match parse_u32_text(id.as_str()) {
            Some(n) => Some(TrajId::Int(n)),
            None => Some(TrajId::Str(id.clone())),
        }
    }

    /// The observatory code of `stn` as three bytes (see [`station_code`]).
    pub fn mpc_code_bytes(&self) -> (r: MpcCode)
        ensures
            r == station_code(vstd::utf8::encode_utf8(self.stn@)),
    {
        let b = self.stn.as_str().as_bytes();
        let n = b.len();
        let r: MpcCode = if n >= 3 {
            [b[0], b[1], b[2]]
        } else if n == 2 {
            [32u8, b[0], b[1]]
        } else if n == 1 {
            [32u8, 32u8, b[0]]
        } else {
            [32u8, 32u8, 32u8]
        };
        proof {
            assert(r@ =~= station_code(vstd::utf8::encode_utf8(self.stn@))@);
        }
        r
    }
}

/// The three bytes of a station code: its first three bytes, or, when it
/// is shorter, its bytes left-padded with spaces.
pub open spec fn station_code(b: Seq<u8>) -> MpcCode {
    if b.len() >= 3 {
        [b[0], b[1], b[2]]
    } else if b.len() == 2 {
        [32u8, b[0], b[1]]
    } else if b.len() == 1 {
        [32u8, 32u8, b[0]]
    } else {
        [32u8, 32u8, 32u8]
    }
}

/// The observatory of an observation: the code of its block's context when
/// it has one, else its own `stn`.
pub fn observer_code(context: Option<MpcCode>, optical: &OpticalIds) -> (r: MpcCode)
    ensures
        r == match context {
            Some(c) => c,
            None => station_code(vstd::utf8::encode_utf8(optical.stn@)),
        },
{
    match context {
        Some(c) => c,
        None => optical.mpc_code_bytes(),
    }
}

/// The views of the designations of a document's observations.
pub open spec fn designation_keys(ids: Seq<Option<TrajId>>) -> Seq<Option<TrajKey>> {
    ids.map_values(|t: Option<TrajId>| opt_view(t))
}

/// The trajectory index of a document: each designation ↦ the positions of
/// its observations, in document order; observations without a
/// designation are in no entry.
pub fn ades_traj_index(ids: &Vec<Option<TrajId>>) -> (r: TrajIndexMap)
    ensures
        is_split_index(designation_keys(ids@), traj_index_entries(r)),
{
    let mut b = IndexBuilder::new(false, true, None);
    let mut i: usize = 0;
    while i < ids.len()
        invariant
            i <= ids@.len(),
            b.wf(),
            b.rows() == i,
            b.has_traj(),
            !b.traj_contiguous(),
            b.traj_keys() == designation_keys(ids@).take(i as int),
        decreases ids@.len() - i,
    {
        let t: Option<TrajId> = match &ids[i] {
            Some(t) => Some(t.clone()),
            None => None,
        };
        proof {
            assert(opt_view(t) == designation_keys(ids@)[i as int]);
            assert(designation_keys(ids@).take(i + 1) =~= designation_keys(ids@).take(
                i as int,
            ).push(opt_view(t)));
        }
        b.on_row(None, t);
        i = i + 1;
    }
    proof {
        assert(designation_keys(ids@).take(ids@.len() as int) =~= designation_keys(ids@));
    }
    let (_, traj) = b.finish();
    match traj {
        Some(m) => m,
        None => {
            proof {
                assert(false);
            }
            traj_index_new()
        },
    }
}

/// One observation of an ADES document, ready to be indexed: its identity
/// fields, the observatory code of its observation block when the document
/// has blocks, and its measured values.
pub struct AdesRecord<M> {
    pub ids: OpticalIds,
    pub context: Option<MpcCode>,
    pub measurement: M,
}

/// The observations of an ADES document and its trajectory index.
pub struct AdesData<M> {
    pub observations: Vec<Observation<M>>,
    pub traj_index: TrajIndexMap,
}

/// The observatory of a record (see [`observer_code`]).
pub open spec fn record_observer<M>(r: AdesRecord<M>) -> MpcCode {
    match r.context {
        Some(c) => c,
        None => station_code(vstd::utf8::encode_utf8(r.ids.stn@)),
    }
}

/// The designation of each record (see [`designation`]).
pub open spec fn record_designations<M>(rs: Seq<AdesRecord<M>>) -> Seq<Option<TrajKey>> {
    rs.map_values(
        |r: AdesRecord<M>|
            designation(opt_text(r.ids.perm_id), opt_text(r.ids.prov_id), opt_text(r.ids.trk_sub)),
    )
}

/// The observation made from record `r` at position `i`.
pub open spec fn record_observation<M>(r: AdesRecord<M>, i: int) -> Observation<M> {
    Observation {
        id: i as u64,
        night_id: None,
        measurement: r.measurement,
        observer: Some(ObserverId::MpcCode(record_observer(r))),
    }
}

/// The dataset of an ADES document: the observation at position `i` has
/// id `i`, no night, the measurement of record `i` and the observatory of
/// its block, else its own station; the trajectory index maps each
/// designation to the positions of its observations, in document order.
pub fn build_dataset<M>(records: Vec<AdesRecord<M>>) -> (r: AdesData<M>)
    ensures
        r.observations@.len() == records@.len(),
        forall|i: int|
            0 <= i < records@.len() ==> #[trigger] r.observations@[i] == record_observation(
                records@[i],
                i,
            ),
        is_split_index(record_designations(records@), traj_index_entries(r.traj_index)),
{
    let ghost rs = records@;
    let mut observations: Vec<Observation<M>> = Vec::new();
    let mut ids: Vec<Option<TrajId>> = Vec::new();
    for rec in it: records.into_iter()
        invariant
            it.seq() == rs,
            observations@.len() == it.index(),
            ids@.len() == it.index(),
            forall|i: int|
                0 <= i < it.index() ==> #[trigger] observations@[i] == record_observation(rs[i], i),
            forall|i: int|
                0 <= i < it.index() ==> #[trigger] designation_keys(ids@)[i]
                    == record_designations(rs)[i],
    {
        let i = observations.len();
        let code = observer_code(rec.context, &rec.ids);
        let t = rec.ids.traj_id();
        let ghost before = ids@;
        ids.push(t);
        proof {
            assert forall|j: int| 0 <= j < ids@.len() implies #[trigger] designation_keys(ids@)[j]
                == record_designations(rs)[j] by {
                if j < before.len() {
                    assert(designation_keys(ids@)[j] == designation_keys(before)[j]);
                }
            }
        }
        observations.push(
            Observation {
                id: i as u64,
                night_id: None,
                measurement: rec.measurement,
                observer: Some(ObserverId::MpcCode(code)),
            },
        );
    }
    proof {
        assert(designation_keys(ids@) =~= record_designations(rs));
    }
    let traj_index = ades_traj_index(&ids);
    AdesData { observations, traj_index }
}

} // verus!
