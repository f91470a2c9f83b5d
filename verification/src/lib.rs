//! Loading, indexing and querying of astronomical observation datasets.
use vstd::prelude::*;

pub mod cache;
pub mod night;
pub mod observation;
pub mod ades;
pub mod batch;
pub mod index;
pub mod ingest;
pub mod layout;
pub mod mpc80;
pub mod text;
pub mod uri;

verus! {

/// Logical identifier for a night of observation (an integer MJD day number).
#[derive(Copy, Clone, Debug, PartialEq, Eq, PartialOrd, Ord, Hash)]
pub struct NightId(pub u32);

impl From<u32> for NightId {
    fn from(value: u32) -> (r: Self) {
        NightId(value)
    }
}

impl vstd::std_specs::convert::FromSpecImpl<u32> for NightId {
    open spec fn obeys_from_spec() -> bool {
        true
    }

    open spec fn from_spec(v: u32) -> Self {
        NightId(v)
    }
}

/// Identifier of a trajectory: an integer (e.g. a catalogue number) or a
/// string label (e.g. a provisional designation such as `"2020 AV2"`).
#[derive(PartialEq, Eq, Hash, Debug)]
pub enum TrajId {
    /// A 32-bit unsigned integer identifier.
    Int(u32),
    /// A string label.
    Str(String),
}

/// The value of a [`TrajId`].
pub enum TrajKey {
    Int(u32),
    Str(Seq<char>),
}

impl View for TrajId {
    type V = TrajKey;

    open spec fn view(&self) -> TrajKey {
        match self {
            TrajId::Int(n) => TrajKey::Int(*n),
            TrajId::Str(s) => TrajKey::Str(s@),
        }
    }
}

impl Clone for TrajId {
    fn clone(&self) -> (r: Self)
        ensures
            r@ == self@,
    {
        match self {
            TrajId::Int(n) => TrajId::Int(*n),
            TrajId::Str(s) => TrajId::Str(s.clone()),
        }
    }
}

impl TrajId {
    /// Whether two identifiers are the same (same variant, same value).
    pub fn same(&self, other: &TrajId) -> (r: bool)
        ensures
            r == (self@ == other@),
    {
        match (self, other) {
            (TrajId::Int(a), TrajId::Int(b)) => *a == *b,
            (TrajId::Str(a), TrajId::Str(b)) => *a == *b,
            _ => false,
        }
    }
}

} // verus!
