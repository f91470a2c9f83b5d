//! Reader of the MPC fixed-width 80-column observation format.
//!
//! Each line of at least 80 bytes that is not a satellite second line
//! (column 15 is `'s'`) describes one observation; its fields sit at fixed
//! byte columns.  The reader checks the
//! grammar of the date, right-ascension and declination fields and hands
//! back their exact text and integer parts, the object designation, the
//! magnitude text, band and observatory code.  Turning the texts into
//! angles and epochs is floating-point work left to the caller.
use vstd::prelude::*;
use vstd::string::StringSliceAdditionalSpecFns;

use vstd::utf8::{
    decode_utf8, encode_utf8, is_char_boundary, length_of_first_scalar, pop_first_scalar,
    valid_utf8,
};

use crate::text::{
    concat, digits_value, digits_value_upto, is_digit, is_space,
    lemma_trim_end_at, parse_u32, parse_u32_text, space_at, strip_zeros, trim,
    trim_end, trim_text, trim_zeros,
};
use crate::index::{
    alias_entries, alias_map_get, alias_map_insert, alias_map_new, traj_index_entries,
    traj_index_insert, traj_index_new, IndexShape, ObsMapIndex, TrajAliasMap, TrajIndexMap,
};
use crate::text::{line_ranges, line_ranges_from, lines_of};
use crate::observation::{ObserverId, Observation};
use crate::{TrajId, TrajKey};

verus! {

#[verifier::external_type_specification]
#[verifier::external_body]
pub struct ExIoError(std::io::Error);

/// Errors of reading an MPC 80-column file.
#[derive(Debug)]
pub enum Mpc80ColError {
    /// The file could not be opened or read.
    Io(std::io::Error),
    /// A line of 80+ columns could not be parsed.
    InvalidLine { line_no: usize, line: String, reason: String },
}

// ── designation ──────────────────────────────────────────────────────────────

// ── columns of a line ────────────────────────────────────────────────────────

/// The text of the bytes `a..b` of a line.
pub open spec fn column(line: Seq<u8>, a: int, b: int) -> Seq<char> {
    decode_utf8(line.subrange(a, b))
}

/// Columns `a..b` of a line, trimmed.
pub open spec fn field(line: Seq<u8>, a: int, b: int) -> Seq<char> {
    trim(column(line, a, b))
}

/// Every byte position at which a line is cut into its fields (5, 12, 15,
/// 32, 44, 56, 65, 70, 71, 77 and 80) starts a character or ends the line,
/// so that each field is text on its own.
pub open spec fn columns_split(line: Seq<u8>) -> bool {
    &&& is_char_boundary(line, 5)
    &&& is_char_boundary(line, 12)
    &&& is_char_boundary(line, 15)
    &&& is_char_boundary(line, 32)
    &&& is_char_boundary(line, 44)
    &&& is_char_boundary(line, 56)
    &&& is_char_boundary(line, 65)
    &&& is_char_boundary(line, 70)
    &&& is_char_boundary(line, 71)
    &&& is_char_boundary(line, 77)
    &&& is_char_boundary(line, 80)
}

/// A character boundary of a text is one of each of its suffixes that
/// start at a boundary, shifted.
proof fn lemma_boundary_in_suffix(b: Seq<u8>, x: int, y: int)
    requires
        valid_utf8(b),
        is_char_boundary(b, x),
        is_char_boundary(b, y),
        0 <= x <= y,
    ensures
        is_char_boundary(b.subrange(x, b.len() as int), y - x),
    decreases x,
{
    reveal_with_fuel(is_char_boundary, 2);
    if x == 0 {
        assert(b.subrange(0, b.len() as int) =~= b);
    } else {
        let l = length_of_first_scalar(b);
        let p = pop_first_scalar(b);
        assert(b.len() > 0);
        assert(valid_utf8(p));
        assert(1 <= l <= b.len());
        assert(is_char_boundary(p, x - l));
        assert(is_char_boundary(p, y - l));
        lemma_boundary_in_suffix(p, x - l, y - l);
        assert(p.subrange(x - l, p.len() as int) =~= b.subrange(x, b.len() as int));
    }
}

/// The position just after an ASCII byte that starts a character is a
/// character boundary.
proof fn lemma_boundary_after_ascii(b: Seq<u8>, i: int)
    requires
        valid_utf8(b),
        0 <= i < b.len(),
        b[i] < 128,
        is_char_boundary(b, i),
    ensures
        is_char_boundary(b, i + 1),
    decreases i,
{
    reveal_with_fuel(is_char_boundary, 2);
    let l = length_of_first_scalar(b);
    let p = pop_first_scalar(b);
    assert(valid_utf8(p));
    assert(1 <= l <= b.len());
    if i > 0 {
        assert(is_char_boundary(p, i - l));
        assert(p[i - l] == b[i]);
        lemma_boundary_after_ascii(p, i - l);
        assert(is_char_boundary(p, i + 1 - l));
    } else {
        assert(l == 1);
        assert(is_char_boundary(p, 0));
    }
}

/// The text of the bytes `a..b` of `s`, both of them character boundaries.
fn cut(s: &str, a: usize, b: usize) -> (r: &str)
    requires
        a <= b <= s.spec_bytes().len(),
        is_char_boundary(s.spec_bytes(), a as int),
        is_char_boundary(s.spec_bytes(), b as int),
    ensures
        r.spec_bytes() == s.spec_bytes().subrange(a as int, b as int),
        r@ == decode_utf8(s.spec_bytes().subrange(a as int, b as int)),
{
    broadcast use vstd::utf8::group_utf8_lib;

    let (_, tail) = s.split_at(a);
    proof {
        lemma_boundary_in_suffix(s.spec_bytes(), a as int, b as int);
    }
    let (mid, _) = tail.split_at(b - a);
    proof {
        assert(mid.spec_bytes() =~= s.spec_bytes().subrange(a as int, b as int));
        assert(decode_utf8(encode_utf8(mid@)) == mid@);
    }
    mid
}

// ── designation ──────────────────────────────────────────────────────────────

/// The trajectory identifier of a line: columns 1–5 without leading zeros,
/// trimmed, or, when that is empty, columns 6–12 trimmed; an integer when
/// the text parses as a `u32`, the text itself otherwise.
pub open spec fn line_traj_id(line: Seq<u8>) -> TrajKey {
    let num = trim(trim_zeros(column(line, 0, 5)));
    let raw = if num.len() == 0 {
        field(line, 5, 12)
    } else {
        num
    };
    match parse_u32(raw) {
        Some(n) => TrajKey::Int(n),
        None => TrajKey::Str(raw),
    }
}

/// The trajectory identifier of an 80-column line (see [`line_traj_id`]).
/// The line's bytes 5 and 12 must start characters, as the columns are cut
/// there.
pub fn extract_traj_id(line: &str) -> (r: TrajId)
    requires
        line.spec_bytes().len() >= 12,
        is_char_boundary(line.spec_bytes(), 5),
        is_char_boundary(line.spec_bytes(), 12),
    ensures
        r@ == line_traj_id(line.spec_bytes()),
{
    proof {
        broadcast use vstd::utf8::group_utf8_lib;

        assert(is_char_boundary(line.spec_bytes(), 0));
    }
    let head = cut(line, 0, 5);
    let num = trim_text(strip_zeros(head));
    let raw = if num.unicode_len() == 0 {
        trim_text(cut(line, 5, 12))
    } else {
        num
    };
    match parse_u32_text(raw) {
        Some(n) => TrajId::Int(n),
        None => TrajId::Str(raw.to_owned()),
    }
}

/// An MPC observatory code as three bytes: the first three bytes of the
/// text, right-padded with ASCII spaces.
pub open spec fn code_bytes(bytes: Seq<u8>) -> [u8; 3] {
    [
        if bytes.len() > 0 {
            bytes[0]
        } else {
            32u8
        },
        if bytes.len() > 1 {
            bytes[1]
        } else {
            32u8
        },
        if bytes.len() > 2 {
            bytes[2]
        } else {
            32u8
        },
    ]
}

/// Convert an MPC observatory code into three bytes (see [`code_bytes`]).
pub fn mpc_str_to_bytes(code: &str) -> (r: [u8; 3])
    ensures
        r == code_bytes(code.spec_bytes()),
{
    let bytes = code.as_bytes();
    let mut arr: [u8; 3] = [32u8; 3];
    if bytes.len() > 0 {
        arr[0] = bytes[0];
    }
    if bytes.len() > 1 {
        arr[1] = bytes[1];
    }
    if bytes.len() > 2 {
        arr[2] = bytes[2];
    }
    proof {
        assert(arr@ =~= code_bytes(code.spec_bytes())@);
    }
    arr
}

// ── field grammar ────────────────────────────────────────────────────────────

/// A space or a tab (what `nom::character::complete::space1` accepts).
pub open spec fn is_blank(c: char) -> bool {
    c == ' ' || c == '\t'
}

/// A digit or a decimal point.
pub open spec fn is_decimal_char(c: char) -> bool {
    is_digit(c) || c == '.'
}

/// The character classes the field grammar is made of.
#[derive(Clone, Copy)]
pub enum CharClass {
    Digit,
    Blank,
    Decimal,
}

/// `c` is of class `cls`.
pub open spec fn in_class(c: char, cls: CharClass) -> bool {
    match cls {
        CharClass::Digit => is_digit(c),
        CharClass::Blank => is_blank(c),
        CharClass::Decimal => is_decimal_char(c),
    }
}

/// The sign of an angle field is its leading character alone: a signed
/// field that parses is negative exactly when it starts with `-`, whatever
/// its digits (so `-00 30 12.3` is south of the equator); an unsigned field
/// is never negative.
pub proof fn lemma_angle_sign(s: Seq<char>, signed: bool)
    ensures
        angle_fields(s, signed) matches Some(f) ==> s.len() > 0 && (f.0 <==> (signed && s[0]
            == '-')),
{
}

/// A line is read as an observation exactly when it has at least 80 bytes
/// and byte 14 is not `'s'` (so a first line `'S'` of a satellite pair is
/// read, and only its `'s'` second line is skipped); a read line that cuts
/// cleanly adds its record, or its refusal, and a skipped line adds
/// nothing.
pub proof fn lemma_which_lines_are_read(ls: Seq<Seq<u8>>, line: Seq<u8>)
    ensures
        (line.len() >= 80 && line[14] != 115u8) ==> line_outcome(line) == Some(line_record(line)),
        (line.len() < 80 || line[14] == 115u8) ==> line_outcome(line) is None,
        (line.len() >= 80 && line[14] != 115u8) ==> match line_record(line) {
            Ok(v) => records_of(ls.push(line)) == records_of(ls).push(v),
            Err(_) => records_of(ls.push(line)) == records_of(ls) && (columns_split(line)
                ==> line_fails(line)),
        },
        (line.len() < 80 || line[14] == 115u8) ==> records_of(ls.push(line)) == records_of(ls)
            && !line_fails(line),
{
    lemma_records_push(ls, line);
}

/// Length of the longest run of characters of class `cls` from position `i`.
pub open spec fn run_len(s: Seq<char>, i: int, cls: CharClass) -> int
    decreases s.len() - i,
{
    if 0 <= i < s.len() && in_class(s[i], cls) {
        1 + run_len(s, i + 1, cls)
    } else {
        0
    }
}

/// A text `str::parse::<f64>` accepts, for a text of digits and decimal
/// points: at least one digit and at most one point.
pub open spec fn valid_decimal(t: Seq<char>) -> bool {
    &&& exists|i: int| 0 <= i < t.len() && is_digit(#[trigger] t[i])
    &&& forall|i: int, j: int|
        0 <= i < j < t.len() && #[trigger] t[i] == '.' ==> #[trigger] t[j] != '.'
}

/// The exact content of a sexagesimal angle field.
pub struct AngleFields {
    /// A leading `-` was present (declination only).
    pub negative: bool,
    /// The hours (right ascension) or degrees (declination) digits.
    pub whole: String,
    /// The minutes digits.
    pub minutes: String,
    /// The seconds text: digits with at most one decimal point.
    pub seconds: String,
}

impl View for AngleFields {
    type V = (bool, Seq<char>, Seq<char>, Seq<char>);

    open spec fn view(&self) -> Self::V {
        (self.negative, self.whole@, self.minutes@, self.seconds@)
    }
}

/// The exact content of a date field `YYYY MM DD.ddddd`.
pub struct DateFields {
    pub year: i32,
    pub month: u8,
    /// The day with its fraction: digits with at most one decimal point.
    pub day: String,
}

impl View for DateFields {
    type V = (i32, u8, Seq<char>);

    open spec fn view(&self) -> Self::V {
        (self.year, self.month, self.day@)
    }
}

/// The date field grammar: digits (year, an `i32`), blanks, digits (month, a
/// `u8`), blanks, then the longest run of digits and points, which must be a
/// valid decimal (the day).  Anything after that run is ignored.
pub open spec fn date_fields(s: Seq<char>) -> Option<(i32, u8, Seq<char>)> {
    let a = run_len(s, 0, CharClass::Digit);
    let b = run_len(s, a, CharClass::Blank);
    let c = run_len(s, a + b, CharClass::Digit);
    let d = run_len(s, a + b + c, CharClass::Blank);
    let e = run_len(s, a + b + c + d, CharClass::Decimal);
    let day = s.subrange(a + b + c + d, a + b + c + d + e);
    if a > 0 && b > 0 && c > 0 && d > 0 && e > 0 && digits_value(s.subrange(0, a))
        <= i32::MAX && digits_value(s.subrange(a + b, a + b + c)) <= 255 && valid_decimal(day) {
        Some(
            (
                digits_value(s.subrange(0, a)) as i32,
                digits_value(s.subrange(a + b, a + b + c)) as u8,
                day,
            ),
        )
    } else {
        None
    }
}

/// The angle field grammar: an optional sign (`+` or `-`, only when
/// `signed`), digits, blanks, digits, blanks, then the longest run of digits
/// and points, which must be a valid decimal (the seconds).  Anything after
/// that run is ignored.
pub open spec fn angle_fields(s: Seq<char>, signed: bool) -> Option<
    (bool, Seq<char>, Seq<char>, Seq<char>),
> {
    let z = if signed && s.len() > 0 && (s[0] == '+' || s[0] == '-') {
        1int
    } else {
        0int
    };
    let a = run_len(s, z, CharClass::Digit);
    let b = run_len(s, z + a, CharClass::Blank);
    let c = run_len(s, z + a + b, CharClass::Digit);
    let d = run_len(s, z + a + b + c, CharClass::Blank);
    let e = run_len(s, z + a + b + c + d, CharClass::Decimal);
    let secs = s.subrange(z + a + b + c + d, z + a + b + c + d + e);
    if a > 0 && b > 0 && c > 0 && d > 0 && e > 0 && valid_decimal(secs) {
        Some(
            (
                z == 1 && s[0] == '-',
                s.subrange(z, z + a),
                s.subrange(z + a + b, z + a + b + c),
                secs,
            ),
        )
    } else {
        None
    }
}

proof fn lemma_run_len_at(s: Seq<char>, i: int, k: int, cls: CharClass)
    requires
        0 <= i <= k <= s.len(),
        forall|j: int| i <= j < k ==> in_class(#[trigger] s[j], cls),
        k == s.len() || !in_class(s[k], cls),
    ensures
        run_len(s, i, cls) == k - i,
    decreases k - i,
{
    if i < k {
        lemma_run_len_at(s, i + 1, k, cls);
    }
}

/// Whether the character at `j` is of class `cls`.
fn class_at(s: &str, j: usize, cls: CharClass) -> (r: bool)
    requires
        j < s@.len(),
    ensures
        r == in_class(s@[j as int], cls),
{
    let c = s.get_char(j);
    match cls {
        CharClass::Digit => '0' <= c && c <= '9',
        CharClass::Blank => c == ' ' || c == '\t',
        CharClass::Decimal => ('0' <= c && c <= '9') || c == '.',
    }
}

/// Length of the longest run of characters of class `cls` from `i`.
fn class_run(s: &str, i: usize, n: usize, cls: CharClass) -> (k: usize)
    requires
        n == s@.len(),
        i <= n,
    ensures
        i + k <= n,
        k == run_len(s@, i as int, cls),
        forall|m: int| i <= m < i + k ==> in_class(#[trigger] s@[m], cls),
{
    let mut j = i;
    while j < n && class_at(s, j, cls)
        invariant
            n == s@.len(),
            i <= j <= n,
            forall|m: int| i <= m < j ==> in_class(#[trigger] s@[m], cls),
        decreases n - j,
    {
        j = j + 1;
    }
    proof {
        lemma_run_len_at(s@, i as int, j as int, cls);
    }
    j - i
}

/// Whether `s[from..to]` is a valid decimal.
fn valid_decimal_in(s: &str, from: usize, to: usize) -> (r: bool)
    requires
        from <= to <= s@.len(),
    ensures
        r == valid_decimal(s@.subrange(from as int, to as int)),
{
    let ghost t = s@.subrange(from as int, to as int);
    let mut seen_digit = false;
    let mut dot_at: Option<usize> = None;
    let mut i = from;
    while i < to
        invariant
            from <= i <= to <= s@.len(),
            t == s@.subrange(from as int, to as int),
            seen_digit <==> exists|m: int| from <= m < i && is_digit(#[trigger] s@[m]),
            match dot_at {
                Some(d) => from <= d < i && s@[d as int] == '.' && forall|m: int|
                    from <= m < i && m != d ==> #[trigger] s@[m] != '.',
                None => forall|m: int| from <= m < i ==> #[trigger] s@[m] != '.',
            },
        decreases to - i,
    {
        let c = s.get_char(i);
        if '0' <= c && c <= '9' {
            seen_digit = true;
        }
        if c == '.' {
            match dot_at {
                Some(d) => {
                    proof {
                        assert(t[d - from] == '.' && t[i - from] == '.');
                        assert(!(forall|x: int, y: int|
                            0 <= x < y < t.len() && #[trigger] t[x] == '.' ==> #[trigger] t[y]
                                != '.'));
                    }
                    return false;
                },
                None => {
                    dot_at = Some(i);
                },
            }
        }
        i = i + 1;
    }
    proof {
        if seen_digit {
            let m = choose|m: int| from <= m < i && is_digit(#[trigger] s@[m]);
            assert(t[m - from] == s@[m]);
        } else {
            assert forall|m: int| 0 <= m < t.len() implies !is_digit(#[trigger] t[m]) by {
                assert(t[m] == s@[from + m]);
            }
        }
        assert forall|x: int, y: int|
            0 <= x < y < t.len() && #[trigger] t[x] == '.' implies #[trigger] t[y] != '.' by {
            assert(t[x] == s@[from + x]);
            assert(t[y] == s@[from + y]);
        }
    }
    seen_digit
}

/// The date field grammar of [`date_fields`], on a trimmed date field.
pub fn parse_date(s: &str) -> (r: Option<DateFields>)
    ensures
        match r {
            Some(d) => date_fields(s@) == Some(d@),
            None => date_fields(s@) is None,
        },
{
    let n = s.unicode_len();
    let a = class_run(s, 0, n, CharClass::Digit);
    let b = class_run(s, a, n, CharClass::Blank);
    let c = class_run(s, a + b, n, CharClass::Digit);
    let d = class_run(s, a + b + c, n, CharClass::Blank);
    let e = class_run(s, a + b + c + d, n, CharClass::Decimal);
    if a == 0 || b == 0 || c == 0 || d == 0 || e == 0 {
        return None;
    }
    let year = match digits_value_upto(s, 0, a, 2147483647u64) {
        Some(v) => v as i32,
        None => return None,
    };
    let month = match digits_value_upto(s, a + b, a + b + c, 255u64) {
        Some(v) => v as u8,
        None => return None,
    };
    let start = a + b + c + d;
    if !valid_decimal_in(s, start, start + e) {
        return None;
    }
    let day = s.substring_char(start, start + e).to_owned();
    Some(DateFields { year, month, day })
}

/// The angle field grammar of [`angle_fields`], on a trimmed angle field.
pub fn parse_angle(s: &str, signed: bool) -> (r: Option<AngleFields>)
    ensures
        match r {
            Some(f) => angle_fields(s@, signed) == Some(f@),
            None => angle_fields(s@, signed) is None,
        },
        r matches Some(f) ==> (f.negative <==> (signed && s@[0] == '-')),
{
    let n = s.unicode_len();
    let z: usize = if signed && n > 0 && (s.get_char(0) == '+' || s.get_char(0) == '-') {
        1
    } else {
        0
    };
    let a = class_run(s, z, n, CharClass::Digit);
    let b = class_run(s, z + a, n, CharClass::Blank);
    let c = class_run(s, z + a + b, n, CharClass::Digit);
    let d = class_run(s, z + a + b + c, n, CharClass::Blank);
    let e = class_run(s, z + a + b + c + d, n, CharClass::Decimal);
    if a == 0 || b == 0 || c == 0 || d == 0 || e == 0 {
        return None;
    }
    let start = z + a + b + c + d;
    if !valid_decimal_in(s, start, start + e) {
        return None;
    }
    let negative = z == 1 && s.get_char(0) == '-';
    Some(
        AngleFields {
            negative,
            whole: s.substring_char(z, z + a).to_owned(),
            minutes: s.substring_char(z + a + b, z + a + b + c).to_owned(),
            seconds: s.substring_char(start, start + e).to_owned(),
        },
    )
}


// ── one line ─────────────────────────────────────────────────────────────────

/// `s` without its trailing characters that are neither digits nor points
/// (`str::trim_end_matches`).
pub open spec fn trim_end_nonnum(s: Seq<char>) -> Seq<char>
    decreases s.len(),
{
    if s.len() > 0 && !is_decimal_char(s.last()) {
        trim_end_nonnum(s.drop_last())
    } else {
        s
    }
}

proof fn lemma_trim_end_nonnum_at(s: Seq<char>, k: int)
    requires
        0 <= k <= s.len(),
        forall|j: int| k <= j < s.len() ==> !is_decimal_char(#[trigger] s[j]),
        k == 0 || is_decimal_char(s[k - 1]),
    ensures
        trim_end_nonnum(s) == s.subrange(0, k),
    decreases s.len() - k,
{
    if k < s.len() {
        lemma_trim_end_nonnum_at(s.drop_last(), k);
        assert(s.drop_last().subrange(0, k) =~= s.subrange(0, k));
    } else {
        assert(s.subrange(0, k) =~= s);
    }
}

/// `s` without its trailing characters that are neither digits nor points.
fn strip_nonnum_end(s: &str) -> (r: &str)
    ensures
        r@ == trim_end_nonnum(s@),
{
    let mut k = s.unicode_len();
    while k > 0 && !class_at(s, k - 1, CharClass::Decimal)
        invariant
            k <= s@.len(),
            forall|j: int| k <= j < s@.len() ==> !is_decimal_char(#[trigger] s@[j]),
        decreases k,
    {
        k = k - 1;
    }
    proof {
        lemma_trim_end_nonnum_at(s@, k as int);
    }
    s.substring_char(0, k)
}

/// The fields of one observation line.
pub struct LineRecord {
    /// The designation of the observed object.
    pub traj_id: TrajId,
    /// The date field (`YYYY MM DD.ddddd`, UTC).
    pub date: DateFields,
    /// The right-ascension field (`HH MM SS.sss`).
    pub ra: AngleFields,
    /// The declination field (`±DD MM SS.ss`).
    pub dec: AngleFields,
    /// The magnitude field, trimmed, without trailing characters that are
    /// neither digits nor points; it may still not be a number.
    pub mag: String,
    /// The band, when the band column is not blank.
    pub band: Option<String>,
    /// The observatory code, right-padded with spaces to three bytes.
    pub obs_code: [u8; 3],
}

/// The value of a [`LineRecord`].
pub struct LineRecordView {
    pub traj_id: TrajKey,
    pub date: (i32, u8, Seq<char>),
    pub ra: (bool, Seq<char>, Seq<char>, Seq<char>),
    pub dec: (bool, Seq<char>, Seq<char>, Seq<char>),
    pub mag: Seq<char>,
    pub band: Option<Seq<char>>,
    pub obs_code: [u8; 3],
}

impl View for LineRecord {
    type V = LineRecordView;

    open spec fn view(&self) -> LineRecordView {
        LineRecordView {
            traj_id: self.traj_id@,
            date: self.date@,
            ra: self.ra@,
            dec: self.dec@,
            mag: self.mag@,
            band: match self.band {
                Some(b) => Some(b@),
                None => None,
            },
            obs_code: self.obs_code,
        }
    }
}

/// What a line of 80+ bytes holds, or why it is refused.  The fields are
/// read from fixed byte columns (0-based, end excluded): date 15..32, right
/// ascension 32..44, declination 44..56, magnitude 65..70, band 70..71,
/// observatory code 77..80.
pub open spec fn line_record(line: Seq<u8>) -> Result<LineRecordView, Seq<char>> {
    let date = field(line, 15, 32);
    let ra = field(line, 32, 44);
    let dec = field(line, 44, 56);
    match date_fields(date) {
        None => Err("invalid date field: '"@ + date + "'"@),
        Some(d) => match angle_fields(ra, false) {
            None => Err("invalid RA field: '"@ + ra + "'"@),
            Some(a) => match angle_fields(dec, true) {
                None => Err("invalid Dec field: '"@ + dec + "'"@),
                Some(b) => Ok(
                    LineRecordView {
                        traj_id: line_traj_id(line),
                        date: d,
                        ra: a,
                        dec: b,
                        mag: trim_end_nonnum(field(line, 65, 70)),
                        band: if field(line, 70, 71).len() == 0 {
                            None
                        } else {
                            Some(field(line, 70, 71))
                        },
                        obs_code: code_bytes(encode_utf8(field(line, 77, 80))),
                    },
                ),
            },
        },
    }
}

/// `prefix`, the field between single quotes.
fn quoted_reason(prefix: &str, f: &str) -> (r: String)
    ensures
        r@ == prefix@ + f@ + "'"@,
{
    let a = concat(prefix, f);
    concat(a.as_str(), "'")
}

/// Columns `a..b` of a line, trimmed.
fn field_text(line: &str, a: usize, b: usize) -> (r: &str)
    requires
        a <= b <= line.spec_bytes().len(),
        is_char_boundary(line.spec_bytes(), a as int),
        is_char_boundary(line.spec_bytes(), b as int),
    ensures
        r@ == field(line.spec_bytes(), a as int, b as int),
{
    trim_text(cut(line, a, b))
}

/// Parse one observation line of 80+ bytes (see [`line_record`]).  The
/// line must be cut into its fields on character boundaries.
pub fn parse_line(line: &str) -> (r: Result<LineRecord, String>)
    requires
        line.spec_bytes().len() >= 80,
        columns_split(line.spec_bytes()),
    ensures
        match r {
            Ok(rec) => line_record(line.spec_bytes()) == Ok::<LineRecordView, Seq<char>>(rec@),
            Err(reason) => line_record(line.spec_bytes()) == Err::<LineRecordView, Seq<char>>(
                reason@,
            ),
        },
{
    let traj_id = extract_traj_id(line);
    let date_str = field_text(line, 15, 32);
    let ra_str = field_text(line, 32, 44);
    let dec_str = field_text(line, 44, 56);
    let mag_str = field_text(line, 65, 70);
    let band_str = field_text(line, 70, 71);
    let code_str = field_text(line, 77, 80);
    let date = match parse_date(date_str) {
        Some(d) => d,
        None => return Err(quoted_reason("invalid date field: '", date_str)),
    };
    let ra = match parse_angle(ra_str, false) {
        Some(a) => a,
        None => return Err(quoted_reason("invalid RA field: '", ra_str)),
    };
    let dec = match parse_angle(dec_str, true) {
        Some(a) => a,
        None => return Err(quoted_reason("invalid Dec field: '", dec_str)),
    };
    let mag = strip_nonnum_end(mag_str).to_owned();
    let band = if band_str.unicode_len() == 0 {
        None
    } else {
        Some(band_str.to_owned())
    };
    let obs_code = mpc_str_to_bytes(code_str);
    Ok(LineRecord { traj_id, date, ra, dec, mag, band, obs_code })
}


// ── whole file ───────────────────────────────────────────────────────────────

/// The line is read: it has at least 80 bytes and is not a satellite
/// second line (byte 14, column 15, is not `'s'`).
pub open spec fn kept(line: Seq<u8>) -> bool {
    line.len() >= 80 && line[14] != 115u8
}

/// What becomes of a line: `None` when it is skipped, else its record or
/// the reason it is refused.
pub open spec fn line_outcome(line: Seq<u8>) -> Option<Result<LineRecordView, Seq<char>>> {
    if kept(line) {
        Some(line_record(line))
    } else {
        None
    }
}

/// The line is read, cut into its fields, and refused.
pub open spec fn line_fails(line: Seq<u8>) -> bool {
    kept(line) && columns_split(line) && line_record(line) is Err
}

/// Every read line before the first refused one can be cut into its
/// fields (a line that cannot be is never reached otherwise).
pub open spec fn lines_cut_cleanly(ls: Seq<Seq<u8>>) -> bool {
    forall|k: int|
        #![trigger ls[k]]
        0 <= k < ls.len() && kept(ls[k]) && !columns_split(ls[k]) ==> exists|j: int|
            0 <= j < k && #[trigger] line_fails(ls[j])
}

/// The records of the accepted lines, in file order.
pub open spec fn records_of(ls: Seq<Seq<u8>>) -> Seq<LineRecordView>
    decreases ls.len(),
{
    if ls.len() == 0 {
        Seq::empty()
    } else {
        match line_outcome(ls.last()) {
            Some(Ok(v)) => records_of(ls.drop_last()).push(v),
            _ => records_of(ls.drop_last()),
        }
    }
}

/// The designation of each record.
pub open spec fn record_ids(rs: Seq<LineRecordView>) -> Seq<TrajKey> {
    rs.map_values(|v: LineRecordView| v.traj_id)
}

/// `i` is the first position of an integer designation in `ids`.
pub open spec fn is_first_int(ids: Seq<TrajKey>, i: int) -> bool {
    &&& 0 <= i < ids.len()
    &&& ids[i] is Int
    &&& forall|j: int| 0 <= j < i ==> !(ids[j] is Int)
}

/// The one designation a file's observations are grouped under: the first
/// integer designation, else the first designation, else the empty text.
pub open spec fn primary_key(ids: Seq<TrajKey>) -> TrajKey {
    if exists|i: int| is_first_int(ids, i) {
        ids[choose|i: int| is_first_int(ids, i)]
    } else if ids.len() > 0 {
        ids[0]
    } else {
        TrajKey::Str(Seq::empty())
    }
}

/// `a` is a text designation of `ids` other than `primary`.
pub open spec fn is_alias(ids: Seq<TrajKey>, primary: TrajKey, a: Seq<char>) -> bool {
    exists|i: int| 0 <= i < ids.len() && ids[i] == TrajKey::Str(a) && ids[i] != primary
}

/// A parsed MPC 80-column file: its records, the trajectory index that
/// groups all of them under the primary designation, and the other text
/// designations as aliases of it.
pub struct Mpc80Data {
    /// The records of the accepted lines, in file order; the observation
    /// made from the record at position `i` has index and id `i`.
    pub records: Vec<LineRecord>,
    /// The primary designation ↦ all positions.
    pub traj_index: TrajIndexMap,
    /// Every other text designation ↦ the primary designation.
    pub aliases: TrajAliasMap,
}

impl Mpc80Data {
    /// The identifier an alternate designation stands for.
    pub fn resolve_alias(&self, alias: &str) -> (r: Option<&TrajId>)
        ensures
            match r {
                Some(t) => alias_entries(self.aliases).contains_key(alias@) && t@ == alias_entries(
                    self.aliases,
                )[alias@],
                None => !alias_entries(self.aliases).contains_key(alias@),
            },
    {
        alias_map_get(&self.aliases, alias)
    }
}

/// The first integer designation has one position only.
proof fn lemma_first_int_unique(ids: Seq<TrajKey>, i: int, j: int)
    requires
        is_first_int(ids, i),
        is_first_int(ids, j),
    ensures
        i == j,
{
    if i < j {
        assert(!(ids[i] is Int));
    }
    if j < i {
        assert(!(ids[j] is Int));
    }
}

proof fn lemma_records_push(ls: Seq<Seq<u8>>, l: Seq<u8>)
    ensures
        records_of(ls.push(l)) == match line_outcome(l) {
            Some(Ok(v)) => records_of(ls).push(v),
            _ => records_of(ls),
        },
{
    assert(ls.push(l).drop_last() =~= ls);
}

/// The bounds of the lines are character boundaries: a line starts the
/// text or follows a line feed, and ends the text or stops at a line feed
/// or carriage return.
proof fn lemma_line_bounds_split(s: Seq<u8>, a: int, e: int)
    requires
        valid_utf8(s),
        0 <= a <= e <= s.len(),
        a < s.len(),
        a == 0 || (s[a - 1] == 10u8),
        e == s.len() || s[e] == 10u8 || s[e] == 13u8,
    ensures
        is_char_boundary(s, a),
        is_char_boundary(s, e),
{
    broadcast use vstd::utf8::group_utf8_lib;

    if a > 0 {
        assert(vstd::utf8::is_leading_byte_width_1(s[a - 1]));
        assert(is_char_boundary(s, a - 1));
        lemma_boundary_after_ascii(s, a - 1);
    }
    if e < s.len() {
        assert(vstd::utf8::is_leading_byte_width_1(s[e]));
        assert(is_char_boundary(s, e));
    }
}

/// The records of an MPC 80-column text, or the first refused line.
fn parse_records(content: &str) -> (r: Result<Vec<LineRecord>, Mpc80ColError>)
    requires
        lines_cut_cleanly(lines_of(content.spec_bytes())),
    ensures
        match r {
            Ok(rs) => (forall|k: int|
                0 <= k < lines_of(content.spec_bytes()).len() ==> !line_fails(
                    #[trigger] lines_of(content.spec_bytes())[k],
                )) && rs@.map_values(|x: LineRecord| x@) == records_of(
                lines_of(content.spec_bytes()),
            ),
            Err(Mpc80ColError::InvalidLine { line_no, line, reason }) => {
                &&& 1 <= line_no <= lines_of(content.spec_bytes()).len()
                &&& columns_split(lines_of(content.spec_bytes())[line_no - 1])
                &&& line@ == decode_utf8(lines_of(content.spec_bytes())[line_no - 1])
                &&& line_outcome(lines_of(content.spec_bytes())[line_no - 1]) == Some(
                    Err::<LineRecordView, Seq<char>>(reason@),
                )
                &&& forall|k: int|
                    0 <= k < line_no - 1 ==> !line_fails(
                        #[trigger] lines_of(content.spec_bytes())[k],
                    )
            },
            Err(Mpc80ColError::Io(_)) => false,
        },
{
    broadcast use vstd::utf8::group_utf8_lib;

    let ghost bs = content.spec_bytes();
    let ghost ls = lines_of(bs);
    let bytes = content.as_bytes();
    let ranges = line_ranges(content);
    proof {
        crate::text::lemma_line_ranges_edges(bs, 0);
        assert forall|j: int| 0 <= j < ranges@.len() implies {
            &&& (#[trigger] ranges@[j]).0 <= ranges@[j].1 <= bs.len()
            &&& ranges@[j].0 < bs.len()
            &&& (ranges@[j].0 == 0 || bs[ranges@[j].0 - 1] == 10u8)
            &&& (ranges@[j].1 == bs.len() || bs[ranges@[j].1 as int] == 10u8
                || bs[ranges@[j].1 as int] == 13u8)
            &&& ls[j] == bs.subrange(ranges@[j].0 as int, ranges@[j].1 as int)
        } by {
            let r = line_ranges_from(bs, 0)[j];
            assert(r.0 == ranges@[j].0 && r.1 == ranges@[j].1);
        }
    }
    let mut records: Vec<LineRecord> = Vec::new();
    let mut k: usize = 0;
    proof {
        assert(ls.take(0) =~= Seq::<Seq<u8>>::empty());
        assert(records@.map_values(|x: LineRecord| x@) =~= Seq::<LineRecordView>::empty());
    }
    while k < ranges.len()
        invariant
            bs == content.spec_bytes(),
            bytes@ == bs,
            valid_utf8(bs),
            ls == lines_of(bs),
            lines_cut_cleanly(ls),
            ranges@.len() == ls.len(),
            forall|j: int|
                0 <= j < ranges@.len() ==> (#[trigger] ranges@[j]).0 <= ranges@[j].1 <= bs.len()
                    && ranges@[j].0 < bs.len() && (ranges@[j].0 == 0 || bs[ranges@[j].0 - 1]
                    == 10u8) && (ranges@[j].1 == bs.len() || bs[ranges@[j].1 as int] == 10u8
                    || bs[ranges@[j].1 as int] == 13u8) && ls[j] == bs.subrange(
                    ranges@[j].0 as int,
                    ranges@[j].1 as int,
                ),
            k <= ranges@.len(),
            forall|j: int| 0 <= j < k ==> !line_fails(#[trigger] ls[j]),
            records@.map_values(|x: LineRecord| x@) == records_of(ls.take(k as int)),
        decreases ranges@.len() - k,
    {
        let (a, b) = ranges[k];
        proof {
            assert(ranges@[k as int] == (a, b));
            lemma_line_bounds_split(bs, a as int, b as int);
        }
        let line = cut(content, a, b);
        let ghost before = records@;
        let ghost lb = ls[k as int];
        proof {
            assert(line.spec_bytes() == lb);
            assert(ls.take(k + 1) =~= ls.take(k as int).push(lb));
            lemma_records_push(ls.take(k as int), lb);
        }
        let n = b - a;
        if n < 80 || bytes[a + 14] == 115 {
            proof {
                if n >= 80 {
                    assert(lb[14] == bs[a + 14]);
                }
                assert(!kept(lb));
            }
            k = k + 1;
        } else {
            proof {
                assert(lb[14] == bs[a + 14]);
                assert(kept(lb));
                if !columns_split(lb) {
                    assert(ls[k as int] == lb);
                    let j = choose|j: int| 0 <= j < k && #[trigger] line_fails(ls[j]);
                    assert(!line_fails(ls[j]));
                }
            }
            match parse_line(line) {
                Ok(rec) => {
                    records.push(rec);
                    proof {
                        assert(records@.map_values(|x: LineRecord| x@) =~= before.map_values(
                            |x: LineRecord| x@,
                        ).push(rec@));
                    }
                    k = k + 1;
                },
                Err(reason) => {
                    return Err(
                        Mpc80ColError::InvalidLine { line_no: k + 1, line: line.to_owned(), reason },
                    );
                },
            }
        }
    }
    proof {
        assert(ls.take(k as int) =~= ls);
    }
    Ok(records)
}


/// The designation the records are grouped under (see [`primary_key`]).
fn select_primary(records: &Vec<LineRecord>) -> (p: TrajId)
    ensures
        p@ == primary_key(record_ids(records@.map_values(|x: LineRecord| x@))),
{
    let ghost ids = record_ids(records@.map_values(|x: LineRecord| x@));
    let mut i: usize = 0;
    while i < records.len()
        invariant
            i <= records@.len(),
            ids == record_ids(records@.map_values(|x: LineRecord| x@)),
            ids.len() == records@.len(),
            forall|j: int| 0 <= j < i ==> !(#[trigger] ids[j] is Int),
        decreases records@.len() - i,
    {
        proof {
            assert(ids[i as int] == records@[i as int].traj_id@);
        }
        match &records[i].traj_id {
            TrajId::Int(n) => {
                proof {
                    assert(is_first_int(ids, i as int));
                    let c = choose|c: int| is_first_int(ids, c);
                    lemma_first_int_unique(ids, i as int, c);
                }
                return TrajId::Int(*n);
            },
            TrajId::Str(_) => {},
        }
        i = i + 1;
    }
    proof {
        assert(!exists|c: int| is_first_int(ids, c));
    }
    if records.len() > 0 {
        proof {
            assert(ids[0] == records@[0].traj_id@);
        }
        records[0].traj_id.clone()
    } else {
        TrajId::Str(String::new())
    }
}

/// The positions `0..n`.
fn all_positions(n: usize) -> (v: Vec<usize>)
    ensures
        v@ == Seq::new(n as nat, |i: int| i as usize),
{
    let mut v: Vec<usize> = Vec::new();
    let mut i: usize = 0;
    while i < n
        invariant
            i <= n,
            v@ == Seq::new(i as nat, |j: int| j as usize),
        decreases n - i,
    {
        v.push(i);
        proof {
            assert(v@ =~= Seq::new((i + 1) as nat, |j: int| j as usize));
        }
        i = i + 1;
    }
    v
}

/// The aliases of the records: each text designation other than `primary`
/// stands for `primary`.
fn collect_aliases(records: &Vec<LineRecord>, primary: &TrajId) -> (m: TrajAliasMap)
    ensures
        forall|a: Seq<char>| #[trigger]
            alias_entries(m).contains_key(a) <==> is_alias(
                record_ids(records@.map_values(|x: LineRecord| x@)),
                primary@,
                a,
            ),
        forall|a: Seq<char>| #[trigger] alias_entries(m).contains_key(a) ==> alias_entries(m)[a] == primary@,
{
    let ghost ids = record_ids(records@.map_values(|x: LineRecord| x@));
    let mut m = alias_map_new();
    let mut i: usize = 0;
    while i < records.len()
        invariant
            i <= records@.len(),
            ids == record_ids(records@.map_values(|x: LineRecord| x@)),
            ids.len() == records@.len(),
            forall|a: Seq<char>| #[trigger]
                alias_entries(m).contains_key(a) <==> is_alias(ids.take(i as int), primary@, a),
            forall|a: Seq<char>| #[trigger]
                alias_entries(m).contains_key(a) ==> alias_entries(m)[a] == primary@,
        decreases records@.len() - i,
    {
        let ghost old_m = alias_entries(m);
        proof {
            assert(ids[i as int] == records@[i as int].traj_id@);
        }
        let t = &records[i].traj_id;
        match t {
            TrajId::Str(s) => {
                if !t.same(primary) {
                    alias_map_insert(&mut m, s.clone(), primary.clone());
                }
            },
            TrajId::Int(_) => {},
        }
        proof {
            let ids2 = ids.take(i + 1);
            assert(ids2 =~= ids.take(i as int).push(ids[i as int]));
            assert forall|a: Seq<char>| #[trigger]
                alias_entries(m).contains_key(a) <==> is_alias(ids2, primary@, a) by {
                if is_alias(ids.take(i as int), primary@, a) {
                    let j = choose|j: int|
                        0 <= j < i && ids.take(i as int)[j] == TrajKey::Str(a) && ids.take(
                            i as int,
                        )[j] != primary@;
                    assert(ids2[j] == ids.take(i as int)[j]);
                }
                if is_alias(ids2, primary@, a) {
                    let j = choose|j: int|
                        0 <= j < i + 1 && ids2[j] == TrajKey::Str(a) && ids2[j] != primary@;
                    if j < i {
                        assert(ids.take(i as int)[j] == ids2[j]);
                    }
                }
                if ids[i as int] == TrajKey::Str(a) && ids[i as int] != primary@ {
                    assert(ids2[i as int] == ids[i as int]);
                }
            }
        }
        i = i + 1;
    }
    proof {
        assert(ids.take(records@.len() as int) =~= ids);
    }
    m
}

/// Parse an MPC 80-column text.  Lines shorter than 80 bytes and
/// satellite second lines are skipped; the first other line that does not
/// parse is refused with its 1-based number, its text and the reason.  All
/// observations are grouped under one trajectory, the primary designation
/// ([`primary_key`]); every other text designation becomes an alias of it.
/// Each read line before the first refused one must be cut into its fields
/// on character boundaries.
pub fn parse_mpc_80_col_str(content: &str) -> (r: Result<Mpc80Data, Mpc80ColError>)
    requires
        lines_cut_cleanly(lines_of(content.spec_bytes())),
    ensures
        match r {
            Ok(d) => {
                let ls = lines_of(content.spec_bytes());
                let rs = records_of(ls);
                let ids = record_ids(rs);
                &&& forall|k: int| 0 <= k < ls.len() ==> !line_fails(#[trigger] ls[k])
                &&& d.records@.map_values(|x: LineRecord| x@) == rs
                &&& traj_index_entries(d.traj_index) == map![
                    primary_key(ids) => IndexShape::Split(Seq::new(rs.len(), |i: int| i as usize)),
                ]
                &&& forall|a: Seq<char>| #[trigger]
                    alias_entries(d.aliases).contains_key(a) <==> is_alias(ids, primary_key(ids), a)
                &&& forall|a: Seq<char>| #[trigger]
                    alias_entries(d.aliases).contains_key(a) ==> alias_entries(d.aliases)[a]
                        == primary_key(ids)
            },
            Err(Mpc80ColError::InvalidLine { line_no, line, reason }) => {
                let ls = lines_of(content.spec_bytes());
                &&& 1 <= line_no <= ls.len()
                &&& columns_split(ls[line_no - 1])
                &&& line@ == decode_utf8(ls[line_no - 1])
                &&& line_outcome(ls[line_no - 1]) == Some(Err::<LineRecordView, Seq<char>>(reason@))
                &&& forall|k: int| 0 <= k < line_no - 1 ==> !line_fails(#[trigger] ls[k])
            },
            Err(Mpc80ColError::Io(_)) => false,
        },
{
    let records = match parse_records(content) {
        Ok(rs) => rs,
        Err(e) => return Err(e),
    };
    let primary = select_primary(&records);
    let aliases = collect_aliases(&records, &primary);
    let positions = all_positions(records.len());
    let mut traj_index = traj_index_new();
    traj_index_insert(&mut traj_index, primary, ObsMapIndex::Split(positions));
    proof {
        let rs = records_of(lines_of(content.spec_bytes()));
        assert(records@.len() == rs.len());
        assert(traj_index_entries(traj_index) =~= map![
            primary_key(record_ids(rs)) => IndexShape::Split(Seq::new(rs.len(), |i: int| i as usize)),
        ]);
    }
    Ok(Mpc80Data { records, traj_index, aliases })
}


/// The observation made from record `r` at position `i` with measurement
/// `m`.
pub open spec fn record_observation<M>(r: LineRecordView, i: int, m: M) -> Observation<M> {
    Observation {
        id: i as u64,
        night_id: None,
        measurement: m,
        observer: Some(ObserverId::MpcCode(r.obs_code)),
    }
}

/// The observations of a parsed file: the one at position `i` has id `i`,
/// no night, the `i`-th measurement (the values of record `i`, computed by
/// the caller) and the observatory code of record `i`.
pub fn observations_of<M>(records: &Vec<LineRecord>, measurements: Vec<M>) -> (obs: Vec<
    Observation<M>,
>)
    requires
        measurements@.len() == records@.len(),
    ensures
        obs@.len() == records@.len(),
        forall|i: int|
            0 <= i < records@.len() ==> #[trigger] obs@[i] == record_observation(
                records@[i]@,
                i,
                measurements@[i],
            ),
{
    let ghost ms = measurements@;
    let mut obs: Vec<Observation<M>> = Vec::new();
    for m in it: measurements.into_iter()
        invariant
            it.seq() == ms,
            ms.len() == records@.len(),
            obs@.len() == it.index(),
            forall|i: int|
                0 <= i < it.index() ==> #[trigger] obs@[i] == record_observation(
                    records@[i]@,
                    i,
                    ms[i],
                ),
    {
        let i = obs.len();
        let code = records[i].obs_code;
        obs.push(
            Observation {
                id: i as u64,
                night_id: None,
                measurement: m,
                observer: Some(ObserverId::MpcCode(code)),
            },
        );
    }
    obs
}


// ── precision of a seconds field ─────────────────────────────────────────────

/// The position of the first point of `s` at or after `i`.
pub open spec fn dot_from(s: Seq<char>, i: int) -> Option<int>
    decreases s.len() - i,
{
    if i < 0 || i >= s.len() {
        None
    } else if s[i] == '.' {
        Some(i)
    } else {
        dot_from(s, i + 1)
    }
}

/// The number of decimals of a seconds text: the bytes after its first
/// point, trailing whitespace excluded; zero without a point.  The
/// precision of the field is ten to the minus that number (seconds of time
/// for right ascension, arcseconds for declination).
pub open spec fn fraction_digits_of(s: Seq<char>) -> int {
    match dot_from(s, 0) {
        Some(d) => encode_utf8(trim_end(s).subrange(d + 1, trim_end(s).len() as int)).len() as int,
        None => 0,
    }
}

proof fn lemma_dot_from_at(s: Seq<char>, i: int, d: int)
    requires
        0 <= i <= d <= s.len(),
        forall|j: int| i <= j < d ==> #[trigger] s[j] != '.',
        d == s.len() || s[d] == '.',
    ensures
        dot_from(s, i) == if d < s.len() {
            Some(d)
        } else {
            None::<int>
        },
    decreases d - i,
{
    if i < d {
        lemma_dot_from_at(s, i + 1, d);
    }
}

/// The number of decimals of a seconds text (see [`fraction_digits_of`]).
pub fn fraction_digits(s: &str) -> (r: usize)
    ensures
        r as int == fraction_digits_of(s@),
{
    let n = s.unicode_len();
    let mut d: usize = 0;
    while d < n && s.get_char(d) != '.'
        invariant
            n == s@.len(),
            d <= n,
            forall|j: int| 0 <= j < d ==> #[trigger] s@[j] != '.',
        decreases n - d,
    {
        d = d + 1;
    }
    proof {
        lemma_dot_from_at(s@, 0, d as int);
    }
    if d == n {
        return 0;
    }
    let mut b = n;
    while b > d + 1 && space_at(s, b - 1)
        invariant
            n == s@.len(),
            d < n,
            s@[d as int] == '.',
            d + 1 <= b <= n,
            forall|j: int| b <= j < n ==> is_space(#[trigger] s@[j]),
        decreases b,
    {
        b = b - 1;
    }
    proof {
        assert(!is_space(s@[d as int]));
        lemma_trim_end_at(s@, b as int);
        assert(trim_end(s@).subrange(d + 1, trim_end(s@).len() as int) =~= s@.subrange(
            d + 1,
            b as int,
        ));
    }
    s.substring_char(d + 1, b).as_bytes().len()
}

} // verus!
