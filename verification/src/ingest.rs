//! Row-level rules of tabular ingestion.
//!
//! Whatever the source of a table (a data frame or Parquet record batches),
//! each row is turned into an observation by the same rules: which observer
//! the row names, which rows are refused, and how the night and trajectory
//! indices are built ([`crate::index::IndexBuilder`]).  The reading of the
//! columns and the floating-point values themselves are the caller's.
use vstd::prelude::*;
use vstd::string::StringSliceAdditionalSpecFns;

use crate::index::ContiguousChoice;
use crate::observation::{MpcCode, ObsErrorModel, ObserverId};
use crate::text::{concat, decimal, u64_decimal};
use crate::uri::{is_uri_message, UriStoreError};

verus! {

// ── configuration ────────────────────────────────────────────────────────────

/// Configuration of Parquet loading.
pub struct LoadObsArgs {
    /// Astrometric error model for MPC observatory accuracy look-up.
    pub error_model: Option<ObsErrorModel>,
    /// Which grouping column (if any) the rows are sorted by.
    pub contiguous_choice: Option<ContiguousChoice>,
}

impl Default for LoadObsArgs {
    /// No error model; sorted by night.
    fn default() -> (r: Self)
        ensures
            r.error_model is None,
            r.contiguous_choice == Some(ContiguousChoice::ContiguousNight),
    {
        LoadObsArgs { error_model: None, contiguous_choice: Some(ContiguousChoice::ContiguousNight) }
    }
}

/// Configuration of data-frame loading.
pub struct FromPolarsArgs {
    /// Astrometric error model for MPC observatory accuracy look-up.
    pub error_model: Option<ObsErrorModel>,
    /// Capacity of the observation cache (1 000 when `None`).
    pub lru_cache_size: Option<usize>,
    /// Whether to merge multi-chunk columns before ingestion.
    pub do_rechunk: Option<bool>,
    /// Which grouping column (if any) the rows are sorted by.
    pub contiguous_choice: Option<ContiguousChoice>,
}

impl Default for FromPolarsArgs {
    /// No error model, a cache of 10 000 entries, no explicit rechunk,
    /// sorted by night.
    fn default() -> (r: Self)
        ensures
            r.error_model is None,
            r.lru_cache_size == Some(10000usize),
            r.do_rechunk == Some(false),
            r.contiguous_choice == Some(ContiguousChoice::ContiguousNight),
    {
        FromPolarsArgs {
            error_model: None,
            lru_cache_size: Some(10000),
            do_rechunk: Some(false),
            contiguous_choice: Some(ContiguousChoice::ContiguousNight),
        }
    }
}

/// Whether the rows are sorted by the night column: the choice names it and
/// the input has it.
pub fn sorts_by_night(choice: Option<ContiguousChoice>, has_night: bool) -> (r: bool)
    ensures
        r == (choice == Some(ContiguousChoice::ContiguousNight) && has_night),
{
    match choice {
        Some(ContiguousChoice::ContiguousNight) => has_night,
        _ => false,
    }
}

/// Whether the rows are sorted by the trajectory column: the choice names it
/// and the input has it.
pub fn sorts_by_traj(choice: Option<ContiguousChoice>, has_traj: bool) -> (r: bool)
    ensures
        r == (choice == Some(ContiguousChoice::ContiguousTraj) && has_traj),
{
    match choice {
        Some(ContiguousChoice::ContiguousTraj) => has_traj,
        _ => false,
    }
}

/// Whether a frame is rechunked before ingestion: when some column has
/// several chunks, unless the caller turned rechunking off.
pub fn should_rechunk(multi_chunk: bool, do_rechunk: Option<bool>) -> (r: bool)
    ensures
        r == (multi_chunk && do_rechunk != Some(false)),
{
    multi_chunk && match do_rechunk {
        Some(b) => b,
        None => true,
    }
}

// ── errors ───────────────────────────────────────────────────────────────────

/// Errors of data-frame ingestion.
#[derive(Debug)]
pub enum PolarsError {
    /// The frame does not satisfy the required schema.
    SchemaValidationError(String),
    /// A column holds values of an unexpected type.
    ColumnTypeError(String),
    /// A required column is absent.
    MissingColumnError(String),
    /// A value could not be converted to its target type.
    DataConversionError(String),
    /// One or two of the three geodetic columns are null at `row`; the
    /// flags tell which were present.
    PartialTripletNull { row: usize, obs_lon: bool, obs_lat: bool, obs_alt: bool },
    /// The geodetic triplet is complete but an accuracy is null at the row.
    MissingAccuracyForGeodesic(usize),
    /// The MPC code text at the row is not exactly three ASCII bytes.
    InvalidMpcCode(String, usize),
    /// The `night_id` column has a type other than `UInt32`.
    NightIdColumnTypeError(String),
    /// The `traj_id` column has a type other than an integer or a string.
    TrajIdColumnTypeError(String),
    /// The `filter` column has an unsupported type.
    FilterColumnTypeError(String),
    /// An error of the data-frame library, by its message.
    Polars(String),
}

/// Errors of Parquet loading.
#[derive(Debug)]
pub enum LoadObsError {
    /// The resource does not exist.
    NotFound(String),
    /// URI parsing or storage resolution failed.
    Resolve(String),
    /// The query engine failed, by its message.
    DataFusion(String),
    /// A column was missing, mistyped or null where it may not be, or the
    /// observer columns of a row break the resolution rules.
    Arrow(String),
}

impl LoadObsError {
    /// The message of the error.
    pub fn message(&self) -> (m: String)
        ensures
            m@ == match self {
                LoadObsError::NotFound(s) => "resource not found: "@ + s@,
                LoadObsError::Resolve(s) => "URI resolution error: "@ + s@,
                LoadObsError::DataFusion(s) => "DataFusion error: "@ + s@,
                LoadObsError::Arrow(s) => "Arrow conversion error: "@ + s@,
            },
    {
        match self {
            LoadObsError::NotFound(s) => concat("resource not found: ", s.as_str()),
            LoadObsError::Resolve(s) => concat("URI resolution error: ", s.as_str()),
            LoadObsError::DataFusion(s) => concat("DataFusion error: ", s.as_str()),
            LoadObsError::Arrow(s) => concat("Arrow conversion error: ", s.as_str()),
        }
    }

    /// A resolution failure, by the message of the storage error.
    pub fn from_uri_error(e: &UriStoreError) -> (r: LoadObsError)
        ensures
            r matches LoadObsError::Resolve(m) && is_uri_message(e, m@),
    {
        LoadObsError::Resolve(e.message())
    }
}

/// The message of a refused row: `text` followed by the row number.
pub open spec fn at_row(text: Seq<char>, row: usize) -> Seq<char> {
    text + " at global row "@ + decimal(row as nat)
}

/// `text` followed by ` at global row ` and the row number.
pub(crate) fn with_row(text: &str, row: usize) -> (r: String)
    ensures
        r@ == at_row(text@, row),
{
    let a = concat(text, " at global row ");
    concat(a.as_str(), u64_decimal(row as u64).as_str())
}

/// The error of a null cell in a required column.
pub fn null_in_required(column: &str, global_row: usize) -> (e: LoadObsError)
    ensures
        e matches LoadObsError::Arrow(m) && m@ == at_row(
            "null in required column '"@ + column@ + "'"@,
            global_row,
        ),
{
    let a = concat("null in required column '", column);
    let b = concat(a.as_str(), "'");
    LoadObsError::Arrow(with_row(b.as_str(), global_row))
}

/// The required columns of a record batch, in the order their cells are
/// checked.
pub open spec fn required_name(i: int) -> Seq<char> {
    if i == 0 {
        "id"@
    } else if i == 1 {
        "ra"@
    } else if i == 2 {
        "ra_err"@
    } else if i == 3 {
        "dec"@
    } else if i == 4 {
        "dec_err"@
    } else if i == 5 {
        "magnitude"@
    } else if i == 6 {
        "mag_err"@
    } else if i == 7 {
        "mjd_tt"@
    } else {
        "filter"@
    }
}

/// The name of the `i`-th required column.
pub fn required_column(i: usize) -> (s: &'static str)
    requires
        i < 9,
    ensures
        s@ == required_name(i as int),
{
    match i {
        0 => "id",
        1 => "ra",
        2 => "ra_err",
        3 => "dec",
        4 => "dec_err",
        5 => "magnitude",
        6 => "mag_err",
        7 => "mjd_tt",
        _ => "filter",
    }
}

/// Check the required cells of a row, `nulls[i]` telling whether the cell
/// of the `i`-th required column is null: the first null one refuses the
/// row.
pub fn check_required_cells(nulls: [bool; 9], global_row: usize) -> (r: Result<(), LoadObsError>)
    ensures
        r is Ok <==> forall|i: int| 0 <= i < 9 ==> !nulls[i],
        r matches Err(e) ==> exists|i: int|
            0 <= i < 9 && nulls[i] && (forall|j: int| 0 <= j < i ==> !nulls[j]) && (e matches LoadObsError::Arrow(m)
                && m@ == at_row("null in required column '"@ + required_name(i) + "'"@, global_row)),
{
    let mut i: usize = 0;
    while i < 9
        invariant
            i <= 9,
            forall|j: int| 0 <= j < i ==> !nulls[j],
        decreases 9 - i,
    {
        if nulls[i] {
            return Err(null_in_required(required_column(i), global_row));
        }
        i = i + 1;
    }
    Ok(())
}

/// The error of a required column absent from a batch.
pub fn missing_column(column: &str) -> (e: LoadObsError)
    ensures
        e matches LoadObsError::Arrow(m) && m@ == "missing required column '"@ + column@ + "'"@,
{
    let a = concat("missing required column '", column);
    LoadObsError::Arrow(concat(a.as_str(), "'"))
}

/// The error of a required column of the wrong type (`expected` names the
/// type it should have).
pub fn column_type_mismatch(column: &str, expected: &str) -> (e: LoadObsError)
    ensures
        e matches LoadObsError::Arrow(m) && m@ == "column '"@ + column@ + "' is not "@ + expected@,
{
    let a = concat("column '", column);
    let b = concat(a.as_str(), "' is not ");
    LoadObsError::Arrow(concat(b.as_str(), expected))
}

// ── observer resolution ──────────────────────────────────────────────────────

/// The nullable observer cells of one row; `T` is the cell value type.  A
/// `None` is a null cell or an absent column.
pub struct RawObsRow<'a, T> {
    pub obs_lon: Option<T>,
    pub obs_lat: Option<T>,
    pub obs_alt: Option<T>,
    pub obs_ra_acc: Option<T>,
    pub obs_dec_acc: Option<T>,
    pub mpc_code: Option<&'a str>,
}

/// The five values of a complete geodetic site.
pub struct GeodeticSite<T> {
    pub lon: T,
    pub lat: T,
    pub alt: T,
    pub ra_acc: T,
    pub dec_acc: T,
}

/// The observer a row names.
pub enum ResolvedObserver<O> {
    /// A custom geodetic site, to be interned among the dataset's sites.
    Geodetic(O),
    /// An MPC-coded observatory.
    Mpc(ObserverId),
    /// No observer.
    NoObserver,
}

/// What the observer cells of a row decide, before any value is read.
pub enum ObserverChoice {
    /// The MPC code, which takes precedence over a complete triplet.
    Mpc(MpcCode),
    /// The MPC code is not exactly three ASCII bytes.
    BadMpcCode,
    /// A complete geodetic site.
    Geodetic,
    /// The triplet is complete but the right-ascension accuracy is null.
    MissingRaAcc,
    /// The triplet is complete but the declination accuracy is null.
    MissingDecAcc,
    /// No observer cells at all.
    NoObserver,
    /// One or two of the three geodetic cells are present.
    PartialTriplet,
}

/// The three bytes of an MPC code text, when it is exactly three ASCII bytes.
pub open spec fn mpc_code_of(bytes: Seq<u8>) -> Option<MpcCode> {
    if bytes.len() == 3 && bytes[0] < 128 && bytes[1] < 128 && bytes[2] < 128 {
        Some([bytes[0], bytes[1], bytes[2]])
    } else {
        None
    }
}

/// The resolution rules: a partial triplet (one or two of the three
/// geodetic cells filled) is refused whatever the other cells hold; else a
/// present MPC code wins, and must be three ASCII bytes; else a complete
/// triplet is a geodetic site, which needs both accuracies; else there is
/// no observer.
pub open spec fn observer_choice(
    mpc: Option<Seq<u8>>,
    lon: bool,
    lat: bool,
    alt: bool,
    ra_acc: bool,
    dec_acc: bool,
) -> ObserverChoice {
    if (lon || lat || alt) && !(lon && lat && alt) {
        ObserverChoice::PartialTriplet
    } else {
        match mpc {
            Some(b) => match mpc_code_of(b) {
                Some(c) => ObserverChoice::Mpc(c),
                None => ObserverChoice::BadMpcCode,
            },
            None => if lon && lat && alt {
                if !ra_acc {
                    ObserverChoice::MissingRaAcc
                } else if !dec_acc {
                    ObserverChoice::MissingDecAcc
                } else {
                    ObserverChoice::Geodetic
                }
            } else {
                ObserverChoice::NoObserver
            },
        }
    }
}

/// The bytes of the MPC code cell of a row.
pub open spec fn code_cell<'a, T>(row: &RawObsRow<'a, T>) -> Option<Seq<u8>> {
    match row.mpc_code {
        Some(s) => Some(s.spec_bytes()),
        None => None,
    }
}

/// The choice the cells of `row` make.
pub open spec fn row_choice<'a, T>(row: &RawObsRow<'a, T>) -> ObserverChoice {
    observer_choice(
        code_cell(row),
        row.obs_lon is Some,
        row.obs_lat is Some,
        row.obs_alt is Some,
        row.obs_ra_acc is Some,
        row.obs_dec_acc is Some,
    )
}

/// The three bytes of an MPC code text (see [`mpc_code_of`]).
fn parse_mpc_code(code: &str) -> (r: Option<MpcCode>)
    ensures
        r == mpc_code_of(code.spec_bytes()),
{
    let b = code.as_bytes();
    if b.len() == 3 && b[0] < 128 && b[1] < 128 && b[2] < 128 {
        Some([b[0], b[1], b[2]])
    } else {
        None
    }
}

/// Three ASCII bytes.
pub open spec fn ascii3(b: Seq<u8>) -> bool {
    b.len() == 3 && b[0] < 128 && b[1] < 128 && b[2] < 128
}

/// The precedence of the observer cells, whatever the accuracy cells hold:
/// one or two of the three site cells filled is refused; otherwise a code of
/// three ASCII bytes is the observer, even beside a complete site without
/// accuracies; otherwise a complete site needs both accuracies; a row with
/// no observer cell has no observer.
pub proof fn lemma_observer_precedence<'a, T>(row: &RawObsRow<'a, T>)
    ensures
        ({
            let some = row.obs_lon is Some || row.obs_lat is Some || row.obs_alt is Some;
            let all = row.obs_lon is Some && row.obs_lat is Some && row.obs_alt is Some;
            &&& (some && !all) ==> row_choice(row) == ObserverChoice::PartialTriplet
            &&& (!(some && !all) && row.mpc_code is Some && ascii3(code_cell(row).unwrap()))
                ==> row_choice(row) == ObserverChoice::Mpc(
                [code_cell(row).unwrap()[0], code_cell(row).unwrap()[1], code_cell(row).unwrap()[2]],
            )
            &&& (!(some && !all) && row.mpc_code is Some && !ascii3(code_cell(row).unwrap()))
                ==> row_choice(row) == ObserverChoice::BadMpcCode
            &&& (row.mpc_code is None && all && row.obs_ra_acc is Some && row.obs_dec_acc is Some)
                ==> row_choice(row) == ObserverChoice::Geodetic
            &&& (row.mpc_code is None && all && row.obs_ra_acc is None) ==> row_choice(row)
                == ObserverChoice::MissingRaAcc
            &&& (row.mpc_code is None && all && row.obs_ra_acc is Some && row.obs_dec_acc is None)
                ==> row_choice(row) == ObserverChoice::MissingDecAcc
            &&& (row.mpc_code is None && !some) ==> row_choice(row) == ObserverChoice::NoObserver
        }),
{
}

/// Decide the observer of a row (see [`observer_choice`]).
pub fn choose_observer<'a, T>(row: &RawObsRow<'a, T>) -> (c: ObserverChoice)
    ensures
        c == row_choice(row),
{
    let lon = row.obs_lon.is_some();
    let lat = row.obs_lat.is_some();
    let alt = row.obs_alt.is_some();
    if (lon || lat || alt) && !(lon && lat && alt) {
        return ObserverChoice::PartialTriplet;
    }
    match row.mpc_code {
        Some(code) => match parse_mpc_code(code) {
            Some(c) => ObserverChoice::Mpc(c),
            None => ObserverChoice::BadMpcCode,
        },
        None => {
            if lon && lat && alt {
                if row.obs_ra_acc.is_none() {
                    ObserverChoice::MissingRaAcc
                } else if row.obs_dec_acc.is_none() {
                    ObserverChoice::MissingDecAcc
                } else {
                    ObserverChoice::Geodetic
                }
            } else {
                ObserverChoice::NoObserver
            }
        },
    }
}

/// The observer of a data-frame row, with the data-frame errors.  A
/// geodetic site comes back with its five values; building the site from
/// them is the caller's.  A partial triplet is an error even in a row with
/// an MPC code (see [`observer_choice`]).
pub fn resolve_observer<'a, T: Copy>(row: &RawObsRow<'a, T>, row_idx: usize) -> (r: Result<
    ResolvedObserver<GeodeticSite<T>>,
    PolarsError,
>)
    ensures
        match row_choice(row) {
            ObserverChoice::Mpc(c) => r matches Ok(ResolvedObserver::Mpc(id)) && id
                == ObserverId::MpcCode(c),
            ObserverChoice::BadMpcCode => r matches Err(PolarsError::InvalidMpcCode(s, i)) && i
                == row_idx && Some(s@) == match row.mpc_code {
                Some(t) => Some(t@),
                None => None,
            },
            ObserverChoice::Geodetic => r matches Ok(ResolvedObserver::Geodetic(g)) && Some(g.lon)
                == row.obs_lon && Some(g.lat) == row.obs_lat && Some(g.alt) == row.obs_alt && Some(
                g.ra_acc,
            ) == row.obs_ra_acc && Some(g.dec_acc) == row.obs_dec_acc,
            ObserverChoice::MissingRaAcc | ObserverChoice::MissingDecAcc => r matches Err(
                PolarsError::MissingAccuracyForGeodesic(i),
            ) && i == row_idx,
            ObserverChoice::NoObserver => r matches Ok(ResolvedObserver::NoObserver),
            ObserverChoice::PartialTriplet => r matches Err(
                PolarsError::PartialTripletNull { row: i, obs_lon, obs_lat, obs_alt },
            ) && i == row_idx && obs_lon == row.obs_lon is Some && obs_lat == row.obs_lat is Some
                && obs_alt == row.obs_alt is Some,
        },
{
    match choose_observer(row) {
        ObserverChoice::Mpc(c) => Ok(ResolvedObserver::Mpc(ObserverId::MpcCode(c))),
        ObserverChoice::BadMpcCode => match row.mpc_code {
            Some(code) => Err(PolarsError::InvalidMpcCode(code.to_owned(), row_idx)),
            None => Err(PolarsError::InvalidMpcCode(String::new(), row_idx)),
        },
        ObserverChoice::Geodetic => match (
            row.obs_lon,
            row.obs_lat,
            row.obs_alt,
            row.obs_ra_acc,
            row.obs_dec_acc,
        ) {
            (Some(lon), Some(lat), Some(alt), Some(ra_acc), Some(dec_acc)) => Ok(
                ResolvedObserver::Geodetic(GeodeticSite { lon, lat, alt, ra_acc, dec_acc }),
            ),
            _ => Ok(ResolvedObserver::NoObserver),
        },
        ObserverChoice::MissingRaAcc | ObserverChoice::MissingDecAcc => Err(
            PolarsError::MissingAccuracyForGeodesic(row_idx),
        ),
        ObserverChoice::NoObserver => Ok(ResolvedObserver::NoObserver),
        ObserverChoice::PartialTriplet => Err(
            PolarsError::PartialTripletNull {
                row: row_idx,
                obs_lon: row.obs_lon.is_some(),
                obs_lat: row.obs_lat.is_some(),
                obs_alt: row.obs_alt.is_some(),
            },
        ),
    }
}

/// The message of an MPC code that is not three ASCII bytes.
pub open spec fn bad_code_message(code: Seq<char>, row: usize) -> Seq<char> {
    at_row("invalid MPC code '"@ + code + "'"@, row) + ": must be exactly 3 ASCII bytes"@
}

/// The message of a complete triplet without one of its accuracies;
/// `null_text` says which accuracy is null.
pub open spec fn missing_acc_message(null_text: Seq<char>, row: usize) -> Seq<char> {
    at_row(null_text, row) + " but geodetic triplet is fully set"@
}

/// The message of a partial triplet.
pub open spec fn partial_triplet_message(row: usize) -> Seq<char> {
    at_row("partial geodetic triplet (obs_lon/obs_lat/obs_alt)"@, row)
        + ": all three must be either all non-null or all null"@
}

/// The observer of a record-batch row, with the Parquet-loading errors.
/// A geodetic site comes back with its five values; building and
/// interning the site is the caller's.  The rules are those of
/// [`observer_choice`]: a partial triplet is an error even beside an MPC
/// code.
pub fn resolve_batch_observer<'a, T: Copy>(row: &RawObsRow<'a, T>, global_row: usize) -> (r:
    Result<ResolvedObserver<GeodeticSite<T>>, LoadObsError>)
    ensures
        match row_choice(row) {
            ObserverChoice::Mpc(c) => r matches Ok(ResolvedObserver::Mpc(id)) && id
                == ObserverId::MpcCode(c),
            ObserverChoice::BadMpcCode => r matches Err(LoadObsError::Arrow(m)) && (
            row.mpc_code matches Some(t) && m@ == bad_code_message(t@, global_row)),
            ObserverChoice::Geodetic => r matches Ok(ResolvedObserver::Geodetic(g)) && Some(g.lon)
                == row.obs_lon && Some(g.lat) == row.obs_lat && Some(g.alt) == row.obs_alt && Some(
                g.ra_acc,
            ) == row.obs_ra_acc && Some(g.dec_acc) == row.obs_dec_acc,
            ObserverChoice::MissingRaAcc => r matches Err(LoadObsError::Arrow(m)) && m@
                == missing_acc_message("obs_ra_acc is null"@, global_row),
            ObserverChoice::MissingDecAcc => r matches Err(LoadObsError::Arrow(m)) && m@
                == missing_acc_message("obs_dec_acc is null"@, global_row),
            ObserverChoice::NoObserver => r matches Ok(ResolvedObserver::NoObserver),
            ObserverChoice::PartialTriplet => r matches Err(LoadObsError::Arrow(m)) && m@
                == partial_triplet_message(global_row),
        },
{
    match choose_observer(row) {
        ObserverChoice::Mpc(c) => Ok(ResolvedObserver::Mpc(ObserverId::MpcCode(c))),
        ObserverChoice::BadMpcCode => {
            let code = match row.mpc_code {
                Some(code) => code,
                None => "",
            };
            let a = concat("invalid MPC code '", code);
            let b = concat(a.as_str(), "'");
            let c = with_row(b.as_str(), global_row);
            Err(LoadObsError::Arrow(concat(c.as_str(), ": must be exactly 3 ASCII bytes")))
        },
        ObserverChoice::Geodetic => match (
            row.obs_lon,
            row.obs_lat,
            row.obs_alt,
            row.obs_ra_acc,
            row.obs_dec_acc,
        ) {
            (Some(lon), Some(lat), Some(alt), Some(ra_acc), Some(dec_acc)) => Ok(
                ResolvedObserver::Geodetic(GeodeticSite { lon, lat, alt, ra_acc, dec_acc }),
            ),
            _ => Ok(ResolvedObserver::NoObserver),
        },
        ObserverChoice::MissingRaAcc => {
            let c = with_row("obs_ra_acc is null", global_row);
            Err(LoadObsError::Arrow(concat(c.as_str(), " but geodetic triplet is fully set")))
        },
        ObserverChoice::MissingDecAcc => {
            let c = with_row("obs_dec_acc is null", global_row);
            Err(LoadObsError::Arrow(concat(c.as_str(), " but geodetic triplet is fully set")))
        },
        ObserverChoice::NoObserver => Ok(ResolvedObserver::NoObserver),
        ObserverChoice::PartialTriplet => {
            let c = with_row("partial geodetic triplet (obs_lon/obs_lat/obs_alt)", global_row);
            Err(
                LoadObsError::Arrow(
                    concat(c.as_str(), ": all three must be either all non-null or all null"),
                ),
            )
        },
    }
}

} // verus!
