//! Small string helpers with exact contracts.
use vstd::prelude::*;
use vstd::string::StringSliceAdditionalSpecFns;

verus! {

/// Whether two strings hold the same characters.
pub fn str_eq(a: &str, b: &str) -> (r: bool)
    ensures
        r == (a@ == b@),
{
    let x: String = a.to_owned();
    let y: String = b.to_owned();
    x == y
}

/// `s` concatenated with `t`.
pub fn concat(s: &str, t: &str) -> (r: String)
    ensures
        r@ == s@ + t@,
{
    let mut r: String = s.to_owned();
    r.append(t);
    r
}

/// The decimal digit character of `d` (`0 <= d < 10`).
pub open spec fn digit_char(d: int) -> char {
    ((d + 48) as u8) as char
}

/// The decimal representation of `n`, without leading zeros.
pub open spec fn decimal(n: nat) -> Seq<char>
    decreases n,
{
    if n < 10 {
        seq![digit_char(n as int)]
    } else {
        decimal(n / 10).push(digit_char((n % 10) as int))
    }
}

/// The one-character string of the digit `d`.
fn digit_str(d: u64) -> (s: &'static str)
    requires
        d < 10,
    ensures
        s@ == seq![digit_char(d as int)],
{
    proof {
        reveal_strlit("0");
        reveal_strlit("1");
        reveal_strlit("2");
        reveal_strlit("3");
        reveal_strlit("4");
        reveal_strlit("5");
        reveal_strlit("6");
        reveal_strlit("7");
        reveal_strlit("8");
        reveal_strlit("9");
    }
    match d {
        0 => "0",
        1 => "1",
        2 => "2",
        3 => "3",
        4 => "4",
        5 => "5",
        6 => "6",
        7 => "7",
        8 => "8",
        _ => "9",
    }
}

/// The decimal representation of an unsigned integer.
pub fn u64_decimal(n: u64) -> (r: String)
    ensures
        r@ == decimal(n as nat),
    decreases n,
{
    if n < 10 {
        digit_str(n).to_owned()
    } else {
        let mut s = u64_decimal(n / 10);
        s.append(digit_str(n % 10));
        s
    }
}

} // verus!

verus! {

/// A whitespace character as `char::is_whitespace` sees it: a character
/// with the Unicode `White_Space` property.
pub open spec fn is_space(c: char) -> bool {
    ('\t' <= c && c <= '\r') || c == ' ' || c == '\u{85}' || c == '\u{A0}' || c == '\u{1680}'
        || ('\u{2000}' <= c && c <= '\u{200A}') || c == '\u{2028}' || c == '\u{2029}' || c
        == '\u{202F}' || c == '\u{205F}' || c == '\u{3000}'
}

/// Whether `c` is whitespace (see [`is_space`]).
pub fn is_white(c: char) -> (r: bool)
    ensures
        r == is_space(c),
{
    ('\t' <= c && c <= '\r') || c == ' ' || c == '\u{85}' || c == '\u{A0}' || c == '\u{1680}'
        || ('\u{2000}' <= c && c <= '\u{200A}') || c == '\u{2028}' || c == '\u{2029}' || c
        == '\u{202F}' || c == '\u{205F}' || c == '\u{3000}'
}

/// An ASCII decimal digit.
pub open spec fn is_digit(c: char) -> bool {
    '0' <= c && c <= '9'
}

/// Whether the character at `i` is whitespace.
pub fn space_at(s: &str, i: usize) -> (r: bool)
    requires
        i < s@.len(),
    ensures
        r == is_space(s@[i as int]),
{
    is_white(s.get_char(i))
}

/// `s` without its leading whitespace.
pub open spec fn trim_start(s: Seq<char>) -> Seq<char>
    decreases s.len(),
{
    if s.len() > 0 && is_space(s[0]) {
        trim_start(s.drop_first())
    } else {
        s
    }
}

/// `s` without its trailing whitespace.
pub open spec fn trim_end(s: Seq<char>) -> Seq<char>
    decreases s.len(),
{
    if s.len() > 0 && is_space(s.last()) {
        trim_end(s.drop_last())
    } else {
        s
    }
}

/// `s` without leading and trailing whitespace (`str::trim`).
pub open spec fn trim(s: Seq<char>) -> Seq<char> {
    trim_end(trim_start(s))
}

/// `s` without its leading `'0'` characters (`str::trim_start_matches('0')`).
pub open spec fn trim_zeros(s: Seq<char>) -> Seq<char>
    decreases s.len(),
{
    if s.len() > 0 && s[0] == '0' {
        trim_zeros(s.drop_first())
    } else {
        s
    }
}

proof fn lemma_trim_start_at(s: Seq<char>, k: int)
    requires
        0 <= k <= s.len(),
        forall|j: int| 0 <= j < k ==> is_space(#[trigger] s[j]),
        k == s.len() || !is_space(s[k]),
    ensures
        trim_start(s) == s.subrange(k, s.len() as int),
    decreases k,
{
    if k > 0 {
        lemma_trim_start_at(s.drop_first(), k - 1);
        assert(s.drop_first().subrange(k - 1, s.len() - 1) =~= s.subrange(k, s.len() as int));
    } else {
        assert(s.subrange(0, s.len() as int) =~= s);
    }
}

pub(crate) proof fn lemma_trim_end_at(s: Seq<char>, k: int)
    requires
        0 <= k <= s.len(),
        forall|j: int| k <= j < s.len() ==> is_space(#[trigger] s[j]),
        k == 0 || !is_space(s[k - 1]),
    ensures
        trim_end(s) == s.subrange(0, k),
    decreases s.len() - k,
{
    if k < s.len() {
        lemma_trim_end_at(s.drop_last(), k);
        assert(s.drop_last().subrange(0, k) =~= s.subrange(0, k));
    } else {
        assert(s.subrange(0, k) =~= s);
    }
}

proof fn lemma_trim_zeros_at(s: Seq<char>, k: int)
    requires
        0 <= k <= s.len(),
        forall|j: int| 0 <= j < k ==> #[trigger] s[j] == '0',
        k == s.len() || s[k] != '0',
    ensures
        trim_zeros(s) == s.subrange(k, s.len() as int),
    decreases k,
{
    if k > 0 {
        lemma_trim_zeros_at(s.drop_first(), k - 1);
        assert(s.drop_first().subrange(k - 1, s.len() - 1) =~= s.subrange(k, s.len() as int));
    } else {
        assert(s.subrange(0, s.len() as int) =~= s);
    }
}

/// The bounds `(a, b)` such that `s[a..b]` is `s[from..to]` trimmed.
pub fn trim_bounds(s: &str, from: usize, to: usize) -> (r: (usize, usize))
    requires
        from <= to <= s@.len(),
    ensures
        from <= r.0 <= r.1 <= to,
        s@.subrange(r.0 as int, r.1 as int) == trim(s@.subrange(from as int, to as int)),
{
    let mut a = from;
    while a < to && space_at(s, a)
        invariant
            from <= a <= to <= s@.len(),
            forall|j: int| from <= j < a ==> is_space(#[trigger] s@[j]),
        decreases to - a,
    {
        a = a + 1;
    }
    let mut b = to;
    while b > a && space_at(s, b - 1)
        invariant
            from <= a <= b <= to <= s@.len(),
            forall|j: int| b <= j < to ==> is_space(#[trigger] s@[j]),
        decreases b - a,
    {
        b = b - 1;
    }
    proof {
        let t = s@.subrange(from as int, to as int);
        assert forall|j: int| 0 <= j < a - from implies is_space(#[trigger] t[j]) by {
            assert(t[j] == s@[from + j]);
        }
        lemma_trim_start_at(t, a - from);
        let u = t.subrange(a - from, t.len() as int);
        assert forall|j: int| b - a <= j < u.len() implies is_space(#[trigger] u[j]) by {
            assert(u[j] == s@[a + j]);
        }
        lemma_trim_end_at(u, b - a);
        assert(u.subrange(0, b - a) =~= s@.subrange(a as int, b as int));
    }
    (a, b)
}

/// `s[from..to]`, trimmed.
pub fn trimmed(s: &str, from: usize, to: usize) -> (r: &str)
    requires
        from <= to <= s@.len(),
    ensures
        r@ == trim(s@.subrange(from as int, to as int)),
{
    let (a, b) = trim_bounds(s, from, to);
    s.substring_char(a, b)
}

/// `s` trimmed (`str::trim`).
pub fn trim_text(s: &str) -> (r: &str)
    ensures
        r@ == trim(s@),
{
    let n = s.unicode_len();
    proof {
        assert(s@.subrange(0, n as int) =~= s@);
    }
    trimmed(s, 0, n)
}

/// `s` without its leading `'0'` characters.
pub fn strip_zeros(s: &str) -> (r: &str)
    ensures
        r@ == trim_zeros(s@),
{
    let n = s.unicode_len();
    let mut k: usize = 0;
    while k < n && s.get_char(k) == '0'
        invariant
            n == s@.len(),
            k <= n,
            forall|j: int| 0 <= j < k ==> #[trigger] s@[j] == '0',
        decreases n - k,
    {
        k = k + 1;
    }
    proof {
        lemma_trim_zeros_at(s@, k as int);
    }
    s.substring_char(k, n)
}

/// The value of a sequence of decimal digits.
pub open spec fn digits_value(s: Seq<char>) -> nat
    decreases s.len(),
{
    if s.len() == 0 {
        0
    } else {
        digits_value(s.drop_last()) * 10 + ((s.last() as int - 48) as nat)
    }
}

/// All characters of `s` are decimal digits.
pub open spec fn all_digits(s: Seq<char>) -> bool {
    forall|i: int| 0 <= i < s.len() ==> is_digit(#[trigger] s[i])
}

/// What `str::parse::<u32>` returns for `s`: an optional `+` followed by one
/// or more decimal digits whose value fits in a `u32`.
pub open spec fn parse_u32(s: Seq<char>) -> Option<u32> {
    let d = if s.len() > 0 && s[0] == '+' {
        s.drop_first()
    } else {
        s
    };
    if d.len() > 0 && all_digits(d) && digits_value(d) <= u32::MAX {
        Some(digits_value(d) as u32)
    } else {
        None
    }
}

proof fn lemma_digits_value_step(s: Seq<char>, i: int)
    requires
        0 <= i < s.len(),
    ensures
        digits_value(s.subrange(0, i + 1)) == digits_value(s.subrange(0, i)) * 10 + ((s[i] as int
            - 48) as nat),
{
    assert(s.subrange(0, i + 1).drop_last() =~= s.subrange(0, i));
}

/// The value of the decimal digits `s[from..to]`, when it is at most `max`
/// (`max < 2^64 / 10`).
pub fn digits_value_upto(s: &str, from: usize, to: usize, max: u64) -> (r: Option<u64>)
    requires
        from <= to <= s@.len(),
        max <= 1_000_000_000_000u64,
        all_digits(s@.subrange(from as int, to as int)),
    ensures
        match r {
            Some(v) => v as nat == digits_value(s@.subrange(from as int, to as int)) && v <= max,
            None => digits_value(s@.subrange(from as int, to as int)) > max,
        },
{
    let ghost t = s@.subrange(from as int, to as int);
    let mut v: u64 = 0;
    let mut i = from;
    while i < to
        invariant
            from <= i <= to <= s@.len(),
            t == s@.subrange(from as int, to as int),
            all_digits(t),
            max <= 1_000_000_000_000u64,
            v <= max,
            v as nat == digits_value(t.subrange(0, i - from)),
        decreases to - i,
    {
        let c = s.get_char(i);
        proof {
            assert(is_digit(t[i - from]));
            lemma_digits_value_step(t, i - from);
            assert(t[i - from] == s@[i as int]);
        }
        let nv = v * 10 + (c as u64 - 48);
        if nv > max {
            proof {
                lemma_digits_prefix_mono(t, i - from + 1);
            }
            return None;
        }
        v = nv;
        i = i + 1;
    }
    proof {
        assert(t.subrange(0, to - from) =~= t);
    }
    Some(v)
}

/// The value of a digit prefix never exceeds the value of the whole.
proof fn lemma_digits_prefix_mono(s: Seq<char>, k: int)
    requires
        0 <= k <= s.len(),
        all_digits(s),
    ensures
        digits_value(s.subrange(0, k)) <= digits_value(s),
    decreases s.len() - k,
{
    if k < s.len() {
        lemma_digits_prefix_mono(s, k + 1);
        lemma_digits_value_step(s, k);
        assert(is_digit(s[k]));
    } else {
        assert(s.subrange(0, k) =~= s);
    }
}

/// The position of the first line-feed byte at or after `i`, or the length
/// of `s` when there is none.
pub open spec fn next_newline(s: Seq<u8>, i: int) -> int
    decreases s.len() - i,
{
    if i < 0 || i >= s.len() {
        s.len() as int
    } else if s[i] == 10u8 {
        i
    } else {
        next_newline(s, i + 1)
    }
}

/// The byte bounds of the lines of the text encoded by `s` from position
/// `i` on, as `str::lines` cuts them: at each line feed, without the line
/// feed and without a carriage return just before it; a final line feed
/// ends the last line.
pub open spec fn line_ranges_from(s: Seq<u8>, i: int) -> Seq<(int, int)>
    decreases s.len() + 1 - i,
{
    if i < 0 || i >= s.len() {
        Seq::empty()
    } else {
        let p = next_newline(s, i);
        let e = if p < s.len() && p > i && s[p - 1] == 13u8 {
            p - 1
        } else {
            p
        };
        proof {
            lemma_next_newline_bounds(s, i);
        }
        seq![(i, e)] + line_ranges_from(s, p + 1)
    }
}

/// The encodings of the lines of the text encoded by `s` (`str::lines`).
pub open spec fn lines_of(s: Seq<u8>) -> Seq<Seq<u8>> {
    line_ranges_from(s, 0).map_values(|r: (int, int)| s.subrange(r.0, r.1))
}

proof fn lemma_next_newline_at(s: Seq<u8>, i: int, p: int)
    requires
        0 <= i <= p <= s.len(),
        forall|j: int| i <= j < p ==> #[trigger] s[j] != 10u8,
        p == s.len() || s[p] == 10u8,
    ensures
        next_newline(s, i) == p,
    decreases p - i,
{
    if i < p {
        lemma_next_newline_at(s, i + 1, p);
    }
}

proof fn lemma_line_ranges_bounds(s: Seq<u8>, i: int)
    requires
        0 <= i,
    ensures
        forall|k: int|
            0 <= k < line_ranges_from(s, i).len() ==> i <= (#[trigger] line_ranges_from(s, i)[k]).0
                <= line_ranges_from(s, i)[k].1 <= s.len(),
    decreases s.len() + 1 - i,
{
    if i < s.len() {
        let p = next_newline(s, i);
        lemma_next_newline_bounds(s, i);
        lemma_line_ranges_bounds(s, p + 1);
        let e = if p < s.len() && p > i && s[p - 1] == 13u8 {
            p - 1
        } else {
            p
        };
        let rest = line_ranges_from(s, p + 1);
        assert forall|k: int| 0 <= k < line_ranges_from(s, i).len() implies i <= (
        #[trigger] line_ranges_from(s, i)[k]).0 <= line_ranges_from(s, i)[k].1 <= s.len() by {
            if k > 0 {
                assert(line_ranges_from(s, i)[k] == rest[k - 1]);
            }
        }
    }
}

/// Each line starts the text or follows a line feed, starts before the
/// end of the text, and ends the text or stops at a line feed or carriage
/// return.
pub proof fn lemma_line_ranges_edges(s: Seq<u8>, i: int)
    requires
        0 <= i,
        i == 0 || (i <= s.len() && s[i - 1] == 10u8),
    ensures
        forall|k: int|
            0 <= k < line_ranges_from(s, i).len() ==> {
                let r = #[trigger] line_ranges_from(s, i)[k];
                &&& r.0 < s.len()
                &&& (r.0 == 0 || s[r.0 - 1] == 10u8)
                &&& (r.1 == s.len() || s[r.1] == 10u8 || s[r.1] == 13u8)
            },
    decreases s.len() + 1 - i,
{
    if i < s.len() {
        let p = next_newline(s, i);
        lemma_next_newline_bounds(s, i);
        let rest = line_ranges_from(s, p + 1);
        if p < s.len() {
            lemma_line_ranges_edges(s, p + 1);
        }
        assert forall|k: int| 0 <= k < line_ranges_from(s, i).len() implies {
            let r = #[trigger] line_ranges_from(s, i)[k];
            &&& r.0 < s.len()
            &&& (r.0 == 0 || s[r.0 - 1] == 10u8)
            &&& (r.1 == s.len() || s[r.1] == 10u8 || s[r.1] == 13u8)
        } by {
            if k > 0 {
                assert(line_ranges_from(s, i)[k] == rest[k - 1]);
            }
        }
    }
}

/// The next line feed is at or after the start and within the text.
pub proof fn lemma_next_newline_bounds(s: Seq<u8>, i: int)
    requires
        0 <= i <= s.len(),
    ensures
        i <= next_newline(s, i) <= s.len(),
        next_newline(s, i) < s.len() ==> s[next_newline(s, i)] == 10u8,
    decreases s.len() - i,
{
    if i < s.len() && s[i] != 10u8 {
        lemma_next_newline_bounds(s, i + 1);
    }
}

/// The byte bounds of the lines of a text (see [`lines_of`]).
pub fn line_ranges(s: &str) -> (r: Vec<(usize, usize)>)
    ensures
        r@.len() == line_ranges_from(s.spec_bytes(), 0).len(),
        forall|k: int|
            0 <= k < r@.len() ==> (#[trigger] r@[k]).0 as int == line_ranges_from(s.spec_bytes(), 0)[k].0
                && r@[k].1 as int == line_ranges_from(s.spec_bytes(), 0)[k].1,
        forall|k: int| 0 <= k < r@.len() ==> (#[trigger] r@[k]).0 <= r@[k].1 <= s.spec_bytes().len(),
{
    let bytes = s.as_bytes();
    let n = bytes.len();
    let mut r: Vec<(usize, usize)> = Vec::new();
    let mut i: usize = 0;
    proof {
        lemma_line_ranges_bounds(s.spec_bytes(), 0);
    }
    while i < n
        invariant
            n == s.spec_bytes().len(),
            bytes@ == s.spec_bytes(),
            i <= n,
            r@.len() + line_ranges_from(s.spec_bytes(), i as int).len() == line_ranges_from(s.spec_bytes(), 0).len(),
            forall|k: int|
                0 <= k < r@.len() ==> (#[trigger] r@[k]).0 as int == line_ranges_from(s.spec_bytes(), 0)[k].0
                    && r@[k].1 as int == line_ranges_from(s.spec_bytes(), 0)[k].1,
            forall|k: int|
                0 <= k < line_ranges_from(s.spec_bytes(), i as int).len() ==> line_ranges_from(s.spec_bytes(), i as int)[k]
                    == line_ranges_from(s.spec_bytes(), 0)[r@.len() + k],
            forall|k: int| 0 <= k < r@.len() ==> (#[trigger] r@[k]).0 <= r@[k].1 <= n,
        decreases n - i,
    {
        let mut p = i;
        while p < n && bytes[p] != 10
            invariant
                    n == s.spec_bytes().len(),
            bytes@ == s.spec_bytes(),
                i <= p <= n,
                forall|j: int| i <= j < p ==> #[trigger] s.spec_bytes()[j] != 10u8,
            decreases n - p,
        {
            p = p + 1;
        }
        proof {
            lemma_next_newline_at(s.spec_bytes(), i as int, p as int);
        }
        let e = if p < n && p > i && bytes[p - 1] == 13 {
            p - 1
        } else {
            p
        };
        let ghost rest = line_ranges_from(s.spec_bytes(), p + 1);
        let ghost here = line_ranges_from(s.spec_bytes(), i as int);
        proof {
            assert(here == seq![(i as int, e as int)] + rest);
            assert(here[0] == (i as int, e as int));
            assert forall|k: int| 0 <= k < rest.len() implies rest[k] == line_ranges_from(
                s.spec_bytes(),
                0,
            )[r@.len() + 1 + k] by {
                assert(here[k + 1] == rest[k]);
            }
        }
        r.push((i, e));
        if p < n {
            i = p + 1;
        } else {
            proof {
                assert(rest.len() == 0);
            }
            i = n;
        }
    }
    r
}


/// `str::parse::<u32>` on any string.
pub fn parse_u32_text(s: &str) -> (r: Option<u32>)
    ensures
        r == parse_u32(s@),
{
    let n = s.unicode_len();
    let start: usize = if n > 0 && s.get_char(0) == '+' {
        1
    } else {
        0
    };
    let ghost d = s@.subrange(start as int, n as int);
    proof {
        if start == 1 {
            assert(s@.drop_first() =~= d);
        } else {
            assert(s@ =~= d);
        }
        assert(parse_u32(s@) == if d.len() > 0 && all_digits(d) && digits_value(d) <= u32::MAX {
            Some(digits_value(d) as u32)
        } else {
            None::<u32>
        });
    }
    if start == n {
        return None;
    }
    let mut v: u64 = 0;
    let mut i = start;
    while i < n
        invariant
            n == s@.len(),
            start <= i <= n,
            d == s@.subrange(start as int, n as int),
            parse_u32(s@) == if d.len() > 0 && all_digits(d) && digits_value(d) <= u32::MAX {
                Some(digits_value(d) as u32)
            } else {
                None::<u32>
            },
            all_digits(d.subrange(0, i - start)),
            v <= u32::MAX,
            v as nat == digits_value(d.subrange(0, i - start)),
        decreases n - i,
    {
        let c = s.get_char(i);
        if !('0' <= c && c <= '9') {
            proof {
                assert(d[i - start] == c);
                assert(!is_digit(d[i - start]));
                assert(!all_digits(d));
            }
            return None;
        }
        proof {
            assert(d[i - start] == c);
            lemma_digits_value_step(d, i - start);
            assert(d.subrange(0, i - start + 1).drop_last() =~= d.subrange(0, i - start));
        }
        let nv = v * 10 + (c as u64 - 48);
        if nv > 4294967295u64 {
            proof {
                assert forall|j: int| 0 <= j < d.len() && j <= i - start implies is_digit(
                    #[trigger] d[j],
                ) by {
                    if j < i - start {
                        assert(d.subrange(0, i - start)[j] == d[j]);
                    }
                }
                if all_digits(d) {
                    lemma_digits_prefix_mono(d, i - start + 1);
                    assert(digits_value(d.subrange(0, i - start + 1)) == nv);
                    assert(digits_value(d) > u32::MAX);
                }
            }
            return None;
        }
        v = nv;
        i = i + 1;
        proof {
            assert forall|j: int| 0 <= j < i - start implies is_digit(
                #[trigger] d.subrange(0, i - start)[j],
            ) by {
                if j < i - start - 1 {
                    assert(d.subrange(0, i - start)[j] == d.subrange(0, i - start - 1)[j]);
                }
            }
        }
    }
    proof {
        assert(d.subrange(0, n - start) =~= d);
    }
    Some(v as u32)
}

} // verus!
