//! The local aggregator: one pass over a buffer of whole records.

use vstd::prelude::*;
use vstd::slice::slice_subrange;
use crate::error::EngineError;
use crate::parse::{find_byte, find_from, lemma_find_from_bounds, parse_fields, record_of, Record, NEWLINE};
use crate::table::{aggregate, StationTable};

verus! {

/// The lines of `s` from index `i` on, without their newlines. A last line
/// without a newline counts as a line.
pub open spec fn lines_from(s: Seq<u8>, i: int) -> Seq<Seq<u8>>
    decreases s.len() - i,
{
    let j = find_from(s, NEWLINE, i);
    // `j < i` never holds (see `lemma_find_from_bounds`); the test makes the
    // recursion visibly shorter.
    if i < 0 || i >= s.len() || j < i {
        Seq::empty()
    } else if j >= s.len() {
        seq![s.subrange(i, s.len() as int)]
    } else {
        seq![s.subrange(i, j)] + lines_from(s, j + 1)
    }
}

/// The lines of a buffer.
pub open spec fn lines(s: Seq<u8>) -> Seq<Seq<u8>> {
    lines_from(s, 0)
}

/// Every line is a well-formed record.
pub open spec fn all_records(ls: Seq<Seq<u8>>) -> bool {
    forall|i: int| 0 <= i < ls.len() ==> (#[trigger] record_of(ls[i])) is Some
}

/// The records that well-formed lines denote.
pub open spec fn records_of(ls: Seq<Seq<u8>>) -> Seq<Record> {
    ls.map_values(|l: Seq<u8>| record_of(l).unwrap())
}

/// Aggregates every record of `buf` into a fresh table; fails on the first
/// malformed line.
pub fn process_buffer(buf: &[u8]) -> (r: Result<StationTable, EngineError>)
    ensures
        r is Ok <==> all_records(lines(buf@)),
        r matches Ok(t) ==> t.wf() && t.view() == aggregate(records_of(lines(buf@)))
            && t.total() == lines(buf@).len(),
        r matches Err(e) ==> e matches EngineError::MalformedRecord { line }
            && line < lines(buf@).len() && record_of(lines(buf@)[line as int]) is None
            && forall|j: int| 0 <= j < line ==> (#[trigger] record_of(lines(buf@)[j])) is Some,
{
    let mut t = StationTable::new();
    let n = buf.len();
    let mut pos: usize = 0;
    let mut k: usize = 0;
    let ghost mut done: Seq<Seq<u8>> = Seq::empty();
    assert(lines(buf@) =~= done + lines_from(buf@, 0));
    while pos < n
        invariant
            pos <= n,
            n == buf@.len(),
            lines(buf@) == done + lines_from(buf@, pos as int),
            all_records(done),
            k == done.len(),
            k <= pos,
            t.wf(),
            t.view() == aggregate(records_of(done)),
            t.total() == done.len(),
        decreases n - pos,
    {
        let nl = find_byte(buf, NEWLINE, pos);
        proof {
            lemma_find_from_bounds(buf@, NEWLINE, pos as int);
        }
        let line = slice_subrange(buf, pos, nl);
        let ghost rest = if nl < n { lines_from(buf@, nl as int + 1) } else { Seq::empty() };
        assert(lines_from(buf@, pos as int) == seq![line@] + rest);
        assert(lines(buf@) =~= done.push(line@) + rest);
        assert(lines(buf@)[k as int] == line@);
        match parse_fields(line) {
            None => {
                return Err(EngineError::MalformedRecord { line: k });
            },
            Some((semi, v)) => {
                let ghost rec = record_of(line@).unwrap();
                t.add(slice_subrange(line, 0, semi), v);
                proof {
                    let d2 = done.push(line@);
                    assert(records_of(d2) =~= records_of(done).push(rec));
                    assert(records_of(d2).drop_last() =~= records_of(done));
                    done = d2;
                }
            },
        }
        k = k + 1;
        if nl < n {
            pos = nl + 1;
        } else {
            pos = n;
        }
    }
    assert(lines(buf@) =~= done);
    Ok(t)
}

} // verus!
