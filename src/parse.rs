//! Decoding one `name;value` record.
//!
//! A value is an optional `-`, one or more decimal digits, a `.` and exactly
//! one digit. It is returned in tenths: `-12.3` is `-123`.

use vstd::prelude::*;
use vstd::slice::slice_subrange;
use vstd::slice::slice_to_vec;

verus! {

pub const NEWLINE: u8 = 10;

pub const SEMICOLON: u8 = 59;

pub const DOT: u8 = 46;

pub const MINUS: u8 = 45;

/// The longest station name, in bytes.
pub const MAX_NAME_LEN: usize = 100;

/// The largest magnitude of a reading, in tenths.
pub const MAX_READING: i32 = 999;

/// One decoded record: a station name and a reading in tenths.
pub type Record = (Seq<u8>, int);

pub open spec fn is_digit(b: u8) -> bool {
    48 <= b <= 57
}

pub open spec fn all_digits(s: Seq<u8>) -> bool {
    forall|i: int| 0 <= i < s.len() ==> is_digit(#[trigger] s[i])
}

/// The number that a string of decimal digits denotes.
pub open spec fn digits_value(s: Seq<u8>) -> int
    decreases s.len(),
{
    if s.len() == 0 {
        0
    } else {
        digits_value(s.drop_last()) * 10 + (s.last() - 48)
    }
}

/// The first index at or after `i` that holds `b`, or `s.len()` if none does.
pub open spec fn find_from(s: Seq<u8>, b: u8, i: int) -> int
    decreases s.len() - i,
{
    if i >= s.len() {
        s.len() as int
    } else if s[i] == b {
        i
    } else {
        find_from(s, b, i + 1)
    }
}

/// The reading that the text `v` denotes, in tenths, if it is one:
/// `-?[0-9]+\.[0-9]` with a magnitude of at most 99.9.
pub open spec fn value_of(v: Seq<u8>) -> Option<int> {
    let neg = v.len() > 0 && v[0] == MINUS;
    let start: int = if neg { 1 } else { 0 };
    let n = v.len() as int;
    if n >= start + 3 && v[n - 2] == DOT && is_digit(v[n - 1])
        && all_digits(v.subrange(start, n - 2)) && digits_value(v.subrange(start, n - 2)) <= 99 {
        let mag = digits_value(v.subrange(start, n - 2)) * 10 + (v[n - 1] - 48);
        Some(if neg { -mag } else { mag })
    } else {
        None
    }
}

/// The record that the line `line` (without its newline) denotes, if it is one:
/// the name is everything before the first `;`, 1 to 100 bytes long.
pub open spec fn record_of(line: Seq<u8>) -> Option<Record> {
    let semi = find_from(line, SEMICOLON, 0);
    if 1 <= semi <= MAX_NAME_LEN && semi < line.len() {
        match value_of(line.subrange(semi + 1, line.len() as int)) {
            Some(v) => Some((line.subrange(0, semi), v)),
            None => None,
        }
    } else {
        None
    }
}

pub proof fn lemma_find_from_bounds(s: Seq<u8>, b: u8, i: int)
    requires
        0 <= i <= s.len(),
    ensures
        i <= find_from(s, b, i) <= s.len(),
        find_from(s, b, i) < s.len() ==> s[find_from(s, b, i)] == b,
        forall|k: int| i <= k < find_from(s, b, i) ==> s[k] != b,
    decreases s.len() - i,
{
    if i < s.len() && s[i] != b {
        lemma_find_from_bounds(s, b, i + 1);
    }
}

/// A longer digit string never denotes a smaller number than its prefix.
proof fn lemma_digits_prefix(s: Seq<u8>, k: int)
    requires
        0 <= k <= s.len(),
        all_digits(s),
    ensures
        digits_value(s.subrange(0, k)) <= digits_value(s),
        0 <= digits_value(s),
    decreases s.len(),
{
    if s.len() == k {
        assert(s.subrange(0, k) =~= s);
        if s.len() > 0 {
            assert(all_digits(s.drop_last()));
            lemma_digits_prefix(s.drop_last(), 0);
        }
    } else {
        assert(all_digits(s.drop_last()));
        lemma_digits_prefix(s.drop_last(), k);
        assert(s.drop_last().subrange(0, k) =~= s.subrange(0, k));
    }
}

/// Index of the first `b` in `s` at or after `from`, or `s.len()`.
pub fn find_byte(s: &[u8], b: u8, from: usize) -> (r: usize)
    requires
        from <= s@.len(),
    ensures
        r == find_from(s@, b, from as int),
{
    let mut j: usize = from;
    while j < s.len() && s[j] != b
        invariant
            from <= j <= s@.len(),
            find_from(s@, b, from as int) == find_from(s@, b, j as int),
        decreases s@.len() - j,
    {
        j = j + 1;
    }
    j
}

/// Decodes the text of a reading into tenths.
pub fn parse_value(v: &[u8]) -> (r: Option<i32>)
    ensures
        r matches Some(x) ==> value_of(v@) == Some(x as int) && -MAX_READING <= x <= MAX_READING,
        r is None ==> value_of(v@) is None,
{
    let n = v.len();
    let neg = n > 0 && v[0] == MINUS;
    let start: usize = if neg { 1 } else { 0 };
    if n < start + 3 || v[n - 2] != DOT || !(48 <= v[n - 1] && v[n - 1] <= 57) {
        return None;
    }
    let mut acc: i32 = 0;
    let mut k: usize = start;
    while k < n - 2
        invariant
            start <= k <= n - 2,
            n == v@.len(),
            start == (if v@.len() > 0 && v@[0] == MINUS { 1int } else { 0int }),
            all_digits(v@.subrange(start as int, k as int)),
            acc == digits_value(v@.subrange(start as int, k as int)),
            0 <= acc <= 99,
        decreases n - 2 - k,
    {
        let c = v[k];
        assert(v@.subrange(start as int, k as int + 1).drop_last()
            =~= v@.subrange(start as int, k as int));
        if !(48 <= c && c <= 57) {
            proof {
                let ip = v@.subrange(start as int, n as int - 2);
                assert(ip[k - start] == c);
                assert(!all_digits(ip));
                assert(value_of(v@) is None);
            }
            return None;
        }
        acc = acc * 10 + (c - 48) as i32;
        k = k + 1;
        assert(v@.subrange(start as int, k as int).last() == c);
        assert(acc == digits_value(v@.subrange(start as int, k as int)));
        assert(all_digits(v@.subrange(start as int, k as int)));
        if acc > 99 {
            proof {
                let ip = v@.subrange(start as int, n as int - 2);
                if all_digits(ip) {
                    lemma_digits_prefix(ip, k - start);
                    assert(ip.subrange(0, k - start) =~= v@.subrange(start as int, k as int));
                    assert(digits_value(ip) > 99);
                }
                assert(value_of(v@) is None);
            }
            return None;
        }
    }
    let mag = acc * 10 + (v[n - 1] - 48) as i32;
    if neg {
        Some(-mag)
    } else {
        Some(mag)
    }
}

/// Splits one line (without its newline) into the position of its `;` and
/// its reading in tenths; `None` if the line is malformed.
pub fn parse_fields(line: &[u8]) -> (r: Option<(usize, i32)>)
    ensures
        r matches Some(p) ==> record_of(line@) == Some((line@.subrange(0, p.0 as int), p.1 as int))
            && 1 <= p.0 <= line@.len() && -MAX_READING <= p.1 <= MAX_READING,
        r is None ==> record_of(line@) is None,
{
    let semi = find_byte(line, SEMICOLON, 0);
    if semi < 1 || semi > MAX_NAME_LEN || semi >= line.len() {
        return None;
    }
    match parse_value(slice_subrange(line, semi + 1, line.len())) {
        Some(x) => Some((semi, x)),
        None => None,
    }
}

/// Decodes one line (without its newline) into a station name and a
/// reading in tenths; `None` if the line is malformed.
pub fn parse_record(line: &[u8]) -> (r: Option<(Vec<u8>, i32)>)
    ensures
        r matches Some(p) ==> record_of(line@) == Some((p.0@, p.1 as int)),
        r is None ==> record_of(line@) is None,
{
    match parse_fields(line) {
        Some((semi, x)) => Some((slice_to_vec(slice_subrange(line, 0, semi)), x)),
        None => None,
    }
}

} // verus!
