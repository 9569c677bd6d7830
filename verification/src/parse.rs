//! The input format.
//!
//! The input is line-oriented text as bytes.  The first non-blank line
//! holds the vertex count; every following non-blank line holds one
//! edge, written `(u, v, w)` — surrounding whitespace is ignored, the
//! parentheses are optional, and the three fields are separated by
//! commas.  `u` and `v` are non-negative vertex numbers; `w` is an
//! integer weight, possibly negative.
//!
//! The grammar is written out as specification functions, and the
//! executable parser is proved to return exactly what the
//! specification says, error cases included.

use vstd::prelude::*;

verus! {

/// Why the input text was rejected.
#[derive(Clone, Copy, PartialEq, Eq, Structural, Debug)]
pub enum ParseError {
    /// No non-blank line holds the vertex count.
    MissingCount,
    /// A numeric field is empty or holds a non-digit.
    BadNumber,
    /// An edge line does not hold exactly three comma-separated
    /// fields.
    BadShape,
    /// A numeric field does not fit the machine word it must fit.
    TooLarge,
}

/// Space, tab or carriage return.
pub open spec fn is_ws(b: u8) -> bool {
    b == 32 || b == 9 || b == 13
}

/// An ASCII digit.
pub open spec fn is_digit(b: u8) -> bool {
    48 <= b <= 57
}

/// The first index at or after `i` (up to `hi`) whose byte is not
/// whitespace.
pub open spec fn skip_ws(s: Seq<u8>, i: int, hi: int) -> int
    decreases hi - i,
{
    if i < hi && is_ws(s[i]) {
        skip_ws(s, i + 1, hi)
    } else {
        i
    }
}

/// The end of the range `[lo, hi)` after trailing whitespace is
/// dropped.
pub open spec fn rtrim(s: Seq<u8>, lo: int, hi: int) -> int
    decreases hi - lo,
{
    if hi > lo && is_ws(s[hi - 1]) {
        rtrim(s, lo, hi - 1)
    } else {
        hi
    }
}

/// The first index at or after `i` (up to `hi`) whose byte is `b`, or
/// `hi` when there is none.
pub open spec fn find_byte(s: Seq<u8>, i: int, hi: int, b: u8) -> int
    decreases hi - i,
{
    if i >= hi {
        hi
    } else if s[i] == b {
        i
    } else {
        find_byte(s, i + 1, hi, b)
    }
}

/// The first index at or after `i` whose byte is not `b`.
pub open spec fn skip_byte(s: Seq<u8>, i: int, hi: int, b: u8) -> int
    decreases hi - i,
{
    if i < hi && s[i] == b {
        skip_byte(s, i + 1, hi, b)
    } else {
        i
    }
}

/// The end of the range `[lo, hi)` after trailing `b` bytes are
/// dropped.
pub open spec fn rstrip_byte(s: Seq<u8>, lo: int, hi: int, b: u8) -> int
    decreases hi - lo,
{
    if hi > lo && s[hi - 1] == b {
        rstrip_byte(s, lo, hi - 1, b)
    } else {
        hi
    }
}

/// Every byte of `[lo, hi)` is a digit.
pub open spec fn all_digits(s: Seq<u8>, lo: int, hi: int) -> bool {
    forall|k: int| lo <= k < hi ==> is_digit(#[trigger] s[k])
}

/// The number the digits of `[lo, hi)` write in base ten.
pub open spec fn nat_val(s: Seq<u8>, lo: int, hi: int) -> int
    decreases hi - lo,
{
    if hi <= lo {
        0
    } else {
        nat_val(s, lo, hi - 1) * 10 + (s[hi - 1] - 48)
    }
}

/// A digit range names a non-negative number, and a longer range never
/// names a smaller one.
proof fn lemma_nat_val_mono(s: Seq<u8>, lo: int, a: int, b: int)
    requires
        lo <= a <= b,
        all_digits(s, lo, b),
        forall|k: int| lo <= k < b ==> 0 <= #[trigger] s[k],
    ensures
        0 <= nat_val(s, lo, a) <= nat_val(s, lo, b),
    decreases b - a,
{
    if a == b {
        lemma_nat_val_nonneg(s, lo, a);
    } else {
        lemma_nat_val_mono(s, lo, a, b - 1);
        lemma_nat_val_nonneg(s, lo, b - 1);
    }
}

/// A digit range names a non-negative number.
proof fn lemma_nat_val_nonneg(s: Seq<u8>, lo: int, hi: int)
    requires
        all_digits(s, lo, hi),
    ensures
        nat_val(s, lo, hi) >= 0,
    decreases hi - lo,
{
    if hi > lo {
        lemma_nat_val_nonneg(s, lo, hi - 1);
    }
}

/// What a digit field of `[lo, hi)` is worth, bounded by `max`: the
/// field must be non-empty, all digits, and its value at most `max`.
pub open spec fn spec_scan_nat(s: Seq<u8>, lo: int, hi: int, max: u64) -> Result<u64, ParseError> {
    if lo >= hi {
        Err(ParseError::BadNumber)
    } else if !all_digits(s, lo, hi) {
        Err(ParseError::BadNumber)
    } else if nat_val(s, lo, hi) > max {
        Err(ParseError::TooLarge)
    } else {
        Ok(nat_val(s, lo, hi) as u64)
    }
}

/// A whitespace-trimmed digit field worth at most `max`.
pub open spec fn parse_nat_field(s: Seq<u8>, lo: int, hi: int, max: u64) -> Result<
    u64,
    ParseError,
> {
    let a = skip_ws(s, lo, hi);
    let b = rtrim(s, a, hi);
    spec_scan_nat(s, a, b, max)
}

/// A whitespace-trimmed integer field: an optional minus sign and
/// digits, fitting a signed 64-bit word.
pub open spec fn parse_int_field(s: Seq<u8>, lo: int, hi: int) -> Result<i64, ParseError> {
    let a = skip_ws(s, lo, hi);
    let b = rtrim(s, a, hi);
    if a < b && s[a] == 45 {
        match spec_scan_nat(s, a + 1, b, 9223372036854775808u64) {
            Err(e) => Err(e),
            Ok(m) => Ok((0 - (m as int)) as i64),
        }
    } else {
        match spec_scan_nat(s, a, b, 9223372036854775807u64) {
            Err(e) => Err(e),
            Ok(m) => Ok(m as i64),
        }
    }
}

/// One edge line of `[lo, hi)`: optional whitespace, optional
/// parentheses, and exactly three comma-separated numeric fields.
pub open spec fn parse_edge_line(s: Seq<u8>, lo: int, hi: int, vmax: u64) -> Result<
    (usize, usize, i64),
    ParseError,
> {
    let a = skip_ws(s, lo, hi);
    let b = rtrim(s, a, hi);
    let a2 = skip_byte(s, a, b, 40);
    let b2 = rstrip_byte(s, a2, b, 41);
    let c1 = find_byte(s, a2, b2, 44);
    if c1 >= b2 {
        Err(ParseError::BadShape)
    } else {
        let c2 = find_byte(s, c1 + 1, b2, 44);
        if c2 >= b2 {
            Err(ParseError::BadShape)
        } else if find_byte(s, c2 + 1, b2, 44) < b2 {
            Err(ParseError::BadShape)
        } else {
            match parse_nat_field(s, a2, c1, vmax) {
                Err(e) => Err(e),
                Ok(u) => match parse_nat_field(s, c1 + 1, c2, vmax) {
                    Err(e) => Err(e),
                    Ok(v) => match parse_int_field(s, c2 + 1, b2) {
                        Err(e) => Err(e),
                        Ok(w) => Ok((u as usize, v as usize, w)),
                    },
                },
            }
        }
    }
}

/// Where the line starting at `i` ends, and where the next one starts.
pub open spec fn line_end(s: Seq<u8>, i: int) -> int {
    find_byte(s, i, s.len() as int, 10)
}

/// The start of the line after the one starting at `i`.
pub open spec fn next_line(s: Seq<u8>, i: int) -> int {
    if line_end(s, i) < s.len() {
        line_end(s, i) + 1
    } else {
        s.len() as int
    }
}

/// `find_byte` stays within `[i, hi]`.
proof fn lemma_find_byte_bounds(s: Seq<u8>, i: int, hi: int, b: u8)
    requires
        i <= hi,
    ensures
        i <= find_byte(s, i, hi, b) <= hi,
    decreases hi - i,
{
    if i < hi && s[i] != b {
        lemma_find_byte_bounds(s, i + 1, hi, b);
    }
}

/// The line starting at `i` is blank: nothing but whitespace before
/// its end.
pub open spec fn line_blank(s: Seq<u8>, i: int) -> bool {
    skip_ws(s, i, line_end(s, i)) >= rtrim(s, skip_ws(s, i, line_end(s, i)), line_end(s, i))
}

#[via_fn]
proof fn parse_edges_from_decreases(s: Seq<u8>, i: int, vmax: u64) {
    if 0 <= i < s.len() {
        lemma_find_byte_bounds(s, i, s.len() as int, 10);
    }
}

/// The edges written on the non-blank lines from `i` on, in order; the
/// first bad line decides the error.
pub open spec fn parse_edges_from(s: Seq<u8>, i: int, vmax: u64) -> Result<
    Seq<(usize, usize, i64)>,
    ParseError,
>
    decreases s.len() - i,
    via parse_edges_from_decreases
{
    if i < 0 || i >= s.len() {
        Ok(Seq::<(usize, usize, i64)>::empty())
    } else {
        let rest = parse_edges_from(s, next_line(s, i), vmax);
        if line_blank(s, i) {
            rest
        } else {
            match parse_edge_line(s, i, line_end(s, i), vmax) {
                Err(e) => Err(e),
                Ok(t) => match rest {
                    Err(e) => Err(e),
                    Ok(ts) => Ok(seq![t] + ts),
                },
            }
        }
    }
}

#[via_fn]
proof fn spec_parse_from_decreases(s: Seq<u8>, i: int, nmax: u64, vmax: u64) {
    if 0 <= i < s.len() {
        lemma_find_byte_bounds(s, i, s.len() as int, 10);
    }
}

/// The whole input from `i` on: the first non-blank line is the vertex
/// count, the rest are edges.
pub open spec fn spec_parse_from(s: Seq<u8>, i: int, nmax: u64, vmax: u64) -> Result<
    (u64, Seq<(usize, usize, i64)>),
    ParseError,
>
    decreases s.len() - i,
    via spec_parse_from_decreases
{
    if i < 0 || i >= s.len() {
        Err(ParseError::MissingCount)
    } else if line_blank(s, i) {
        spec_parse_from(s, next_line(s, i), nmax, vmax)
    } else {
        match parse_nat_field(s, i, line_end(s, i), nmax) {
            Err(e) => Err(e),
            Ok(n) => match parse_edges_from(s, next_line(s, i), vmax) {
                Err(e) => Err(e),
                Ok(ts) => Ok((n, ts)),
            },
        }
    }
}

/// The meaning of the whole input text: the vertex count and the edge
/// list, or the first error.
pub open spec fn spec_parse(s: Seq<u8>, nmax: u64, vmax: u64) -> Result<
    (u64, Seq<(usize, usize, i64)>),
    ParseError,
> {
    spec_parse_from(s, 0, nmax, vmax)
}

/// Decides whether a byte is whitespace.
fn ws_byte(b: u8) -> (r: bool)
    ensures
        r == is_ws(b),
{
    b == 32 || b == 9 || b == 13
}

/// Finds the first non-whitespace position in `[lo, hi)`.
fn exec_skip_ws(s: &Vec<u8>, lo: usize, hi: usize) -> (r: usize)
    requires
        lo <= hi <= s@.len(),
    ensures
        r == skip_ws(s@, lo as int, hi as int),
        lo <= r <= hi,
{
    let mut i = lo;
    while i < hi && ws_byte(s[i])
        invariant
            lo <= i <= hi,
            hi <= s@.len(),
            skip_ws(s@, lo as int, hi as int) == skip_ws(s@, i as int, hi as int),
        decreases hi - i,
    {
        i = i + 1;
    }
    i
}

/// Drops trailing whitespace from `[lo, hi)`.
fn exec_rtrim(s: &Vec<u8>, lo: usize, hi: usize) -> (r: usize)
    requires
        lo <= hi <= s@.len(),
    ensures
        r == rtrim(s@, lo as int, hi as int),
        lo <= r <= hi,
{
    let mut h = hi;
    while h > lo && ws_byte(s[h - 1])
        invariant
            lo <= h <= hi,
            hi <= s@.len(),
            rtrim(s@, lo as int, hi as int) == rtrim(s@, lo as int, h as int),
        decreases h,
    {
        h = h - 1;
    }
    h
}

/// Finds the first occurrence of `b` in `[lo, hi)`, or `hi`.
fn exec_find_byte(s: &Vec<u8>, lo: usize, hi: usize, b: u8) -> (r: usize)
    requires
        lo <= hi <= s@.len(),
    ensures
        r == find_byte(s@, lo as int, hi as int, b),
        lo <= r <= hi,
{
    let mut i = lo;
    while i < hi && s[i] != b
        invariant
            lo <= i <= hi,
            hi <= s@.len(),
            find_byte(s@, lo as int, hi as int, b) == find_byte(s@, i as int, hi as int, b),
        decreases hi - i,
    {
        i = i + 1;
    }
    i
}

/// Skips leading `b` bytes in `[lo, hi)`.
fn exec_skip_byte(s: &Vec<u8>, lo: usize, hi: usize, b: u8) -> (r: usize)
    requires
        lo <= hi <= s@.len(),
    ensures
        r == skip_byte(s@, lo as int, hi as int, b),
        lo <= r <= hi,
{
    let mut i = lo;
    while i < hi && s[i] == b
        invariant
            lo <= i <= hi,
            hi <= s@.len(),
            skip_byte(s@, lo as int, hi as int, b) == skip_byte(s@, i as int, hi as int, b),
        decreases hi - i,
    {
        i = i + 1;
    }
    i
}

/// Drops trailing `b` bytes from `[lo, hi)`.
fn exec_rstrip_byte(s: &Vec<u8>, lo: usize, hi: usize, b: u8) -> (r: usize)
    requires
        lo <= hi <= s@.len(),
    ensures
        r == rstrip_byte(s@, lo as int, hi as int, b),
        lo <= r <= hi,
{
    let mut h = hi;
    while h > lo && s[h - 1] == b
        invariant
            lo <= h <= hi,
            hi <= s@.len(),
            rstrip_byte(s@, lo as int, hi as int, b) == rstrip_byte(s@, lo as int, h as int, b),
        decreases h,
    {
        h = h - 1;
    }
    h
}

/// Reads the digit field `[lo, hi)` as a number of at most `max`.
fn exec_scan_nat(s: &Vec<u8>, lo: usize, hi: usize, max: u64) -> (r: Result<u64, ParseError>)
    requires
        lo <= hi <= s@.len(),
    ensures
        r == spec_scan_nat(s@, lo as int, hi as int, max),
{
    if lo >= hi {
        return Err(ParseError::BadNumber);
    }
    let mut i = lo;
    while i < hi
        invariant
            lo <= i <= hi,
            hi <= s@.len(),
            forall|k: int| lo <= k < i ==> is_digit(#[trigger] s@[k]),
        decreases hi - i,
    {
        let c = s[i];
        if c < 48 || c > 57 {
            proof {
                assert(!is_digit(s@[i as int]));
            }
            return Err(ParseError::BadNumber);
        }
        i = i + 1;
    }
    let mut acc: u64 = 0;
    let mut j = lo;
    while j < hi
        invariant
            lo <= j <= hi,
            hi <= s@.len(),
            all_digits(s@, lo as int, hi as int),
            acc <= max,
            acc as int == nat_val(s@, lo as int, j as int),
        decreases hi - j,
    {
        let d = s[j] - 48;
        let wide: u128 = (acc as u128) * 10 + (d as u128);
        if wide > (max as u128) {
            proof {
                assert(nat_val(s@, lo as int, j as int + 1) == wide);
                lemma_nat_val_mono(s@, lo as int, j as int + 1, hi as int);
            }
            return Err(ParseError::TooLarge);
        }
        acc = wide as u64;
        j = j + 1;
    }
    proof {
        lemma_nat_val_nonneg(s@, lo as int, hi as int);
    }
    Ok(acc)
}

/// Reads a whitespace-trimmed digit field.
fn exec_parse_nat_field(s: &Vec<u8>, lo: usize, hi: usize, max: u64) -> (r: Result<
    u64,
    ParseError,
>)
    requires
        lo <= hi <= s@.len(),
    ensures
        r == parse_nat_field(s@, lo as int, hi as int, max),
{
    let a = exec_skip_ws(s, lo, hi);
    let b = exec_rtrim(s, a, hi);
    exec_scan_nat(s, a, b, max)
}

/// Reads a whitespace-trimmed signed 64-bit field.
fn exec_parse_int_field(s: &Vec<u8>, lo: usize, hi: usize) -> (r: Result<i64, ParseError>)
    requires
        lo <= hi <= s@.len(),
    ensures
        r == parse_int_field(s@, lo as int, hi as int),
{
    let a = exec_skip_ws(s, lo, hi);
    let b = exec_rtrim(s, a, hi);
    if a < b && s[a] == 45 {
        match exec_scan_nat(s, a + 1, b, 9223372036854775808u64) {
            Err(e) => Err(e),
            Ok(m) => {
                proof {
                    lemma_nat_val_nonneg(s@, a as int + 1, b as int);
                    assert(m as int == nat_val(s@, a as int + 1, b as int));
                }
                if m == 9223372036854775808u64 {
                    Ok(i64::MIN)
                } else {
                    Ok(-(m as i64))
                }
            },
        }
    } else {
        match exec_scan_nat(s, a, b, 9223372036854775807u64) {
            Err(e) => Err(e),
            Ok(m) => {
                proof {
                    lemma_nat_val_nonneg(s@, a as int, b as int);
                    assert(m as int == nat_val(s@, a as int, b as int));
                }
                Ok(m as i64)
            },
        }
    }
}

/// Reads one edge line.
fn exec_parse_edge_line(s: &Vec<u8>, lo: usize, hi: usize, vmax: u64) -> (r: Result<
    (usize, usize, i64),
    ParseError,
>)
    requires
        lo <= hi <= s@.len(),
    ensures
        r == parse_edge_line(s@, lo as int, hi as int, vmax),
{
    let a = exec_skip_ws(s, lo, hi);
    let b = exec_rtrim(s, a, hi);
    let a2 = exec_skip_byte(s, a, b, 40);
    let b2 = exec_rstrip_byte(s, a2, b, 41);
    let c1 = exec_find_byte(s, a2, b2, 44);
    if c1 >= b2 {
        return Err(ParseError::BadShape);
    }
    let c2 = exec_find_byte(s, c1 + 1, b2, 44);
    if c2 >= b2 {
        return Err(ParseError::BadShape);
    }
    let c3 = exec_find_byte(s, c2 + 1, b2, 44);
    if c3 < b2 {
        return Err(ParseError::BadShape);
    }
    let u = match exec_parse_nat_field(s, a2, c1, vmax) {
        Err(e) => {
            return Err(e);
        },
        Ok(u) => u,
    };
    let v = match exec_parse_nat_field(s, c1 + 1, c2, vmax) {
        Err(e) => {
            return Err(e);
        },
        Ok(v) => v,
    };
    match exec_parse_int_field(s, c2 + 1, b2) {
        Err(e) => Err(e),
        Ok(w) => Ok((u as usize, v as usize, w)),
    }
}

/// Reads the whole input: the vertex count off the first non-blank
/// line, one edge per non-blank line after it.  Returns exactly what
/// the specification-level parser says, with vertex numbers and the
/// count bounded by the machine word.
#[verifier::rlimit(60)]
pub fn parse_input(s: &Vec<u8>) -> (r: Result<(usize, Vec<(usize, usize, i64)>), ParseError>)
    ensures
        ({
            let m = usize::MAX as u64;
            match r {
                Ok((n, es)) => spec_parse(s@, m, m) == Ok::<_, ParseError>(((n as u64), es@)),
                Err(e) => spec_parse(s@, m, m) == Err::<(u64, Seq<(usize, usize, i64)>), _>(e),
            }
        }),
{
    let m: u64 = usize::MAX as u64;
    let len = s.len();
    let mut i: usize = 0;
    let mut n64: u64 = 0;
    let mut found = false;
    while i < len && !found
        invariant
            i <= len,
            len == s@.len(),
            !found ==> spec_parse_from(s@, 0, m, m) == spec_parse_from(s@, i as int, m, m),
            found ==> n64 <= m && (spec_parse_from(s@, 0, m, m) == match parse_edges_from(
                s@,
                i as int,
                m,
            ) {
                Err(e) => Err::<(u64, Seq<(usize, usize, i64)>), ParseError>(e),
                Ok(ts) => Ok((n64, ts)),
            }),
            m == usize::MAX as u64,
        decreases len - i,
    {
        let j = exec_find_byte(s, i, len, 10);
        let a = exec_skip_ws(s, i, j);
        let b = exec_rtrim(s, a, j);
        let next = if j < len {
            j + 1
        } else {
            len
        };
        proof {
            assert(line_end(s@, i as int) == j as int);
            assert(next_line(s@, i as int) == next as int);
            assert(line_blank(s@, i as int) == (a >= b));
        }
        if a < b {
            match exec_parse_nat_field(s, i, j, m) {
                Err(e) => {
                    return Err(e);
                },
                Ok(x) => {
                    proof {
                        lemma_nat_val_nonneg(s@, a as int, b as int);
                        assert(x as int == nat_val(s@, a as int, b as int));
                        assert(spec_parse_from(s@, i as int, m, m) == (match parse_edges_from(
                            s@,
                            next as int,
                            m,
                        ) {
                            Err(e2) => Err::<(u64, Seq<(usize, usize, i64)>), ParseError>(e2),
                            Ok(ts) => Ok((x, ts)),
                        }));
                    }
                    n64 = x;
                    found = true;
                },
            }
        }
        i = next;
    }
    if !found {
        return Err(ParseError::MissingCount);
    }
    let mut edges: Vec<(usize, usize, i64)> = Vec::new();
    proof {
        assert(edges@ =~= Seq::<(usize, usize, i64)>::empty());
    }
    while i < len
        invariant
            i <= len,
            len == s@.len(),
            n64 <= m,
            m == usize::MAX as u64,
            spec_parse_from(s@, 0, m, m) == (match parse_edges_from(s@, i as int, m) {
                Err(e) => Err::<(u64, Seq<(usize, usize, i64)>), ParseError>(e),
                Ok(ts) => Ok((n64, edges@ + ts)),
            }),
        decreases len - i,
    {
        let j = exec_find_byte(s, i, len, 10);
        let a = exec_skip_ws(s, i, j);
        let b = exec_rtrim(s, a, j);
        let next = if j < len {
            j + 1
        } else {
            len
        };
        proof {
            assert(line_end(s@, i as int) == j as int);
            assert(next_line(s@, i as int) == next as int);
            assert(line_blank(s@, i as int) == (a >= b));
        }
        if a < b {
            match exec_parse_edge_line(s, i, j, m) {
                Err(e) => {
                    return Err(e);
                },
                Ok(t) => {
                    let ghost edges0 = edges@;
                    edges.push(t);
                    proof {
                        match parse_edges_from(s@, next as int, m) {
                            Ok(ts) => {
                                assert(edges0 + (seq![t] + ts) =~= edges@ + ts);
                            },
                            Err(_) => {},
                        }
                    }
                },
            }
        }
        i = next;
    }
    proof {
        assert(edges@ + Seq::<(usize, usize, i64)>::empty() =~= edges@);
    }
    let n = n64 as usize;
    Ok((n, edges))
}

} // verus!
