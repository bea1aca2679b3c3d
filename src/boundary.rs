//! The boundary resolver: which whole records of the bytes read for a chunk
//! belong to that chunk.
//!
//! A chunk's bytes are read at its nominal start and run past its nominal
//! length by an overrun margin. The chunk owns every record whose newline
//! lies after the first newline at or past its nominal start and up to the
//! first newline at or past its nominal end; the very first chunk of a file
//! owns its first line as well. Adjacent chunks so agree on one newline as
//! their common boundary.

use vstd::prelude::*;
use vstd::slice::slice_subrange;
use crate::error::EngineError;
use crate::parse::{find_byte, find_from, lemma_find_from_bounds, NEWLINE};
use crate::scan::{all_records, lines, process_buffer, records_of};
use crate::table::{aggregate, StationTable};

verus! {

/// Where the records that a chunk owns start within its bytes `buf`.
/// `at_start`: `buf` was read at offset 0 of the file; `at_eof`: `buf` runs
/// to the end of the file.
pub open spec fn owned_start(buf: Seq<u8>, at_start: bool, at_eof: bool) -> Option<int> {
    let f = find_from(buf, NEWLINE, 0);
    if at_start {
        Some(0)
    } else if f < buf.len() {
        Some(f + 1)
    } else if at_eof {
        Some(buf.len() as int)
    } else {
        None
    }
}

/// Where the records that a chunk of nominal length `nominal` owns end
/// within its bytes `buf`.
pub open spec fn owned_end(buf: Seq<u8>, nominal: int, at_eof: bool) -> Option<int> {
    let from = if nominal <= buf.len() { nominal } else { buf.len() as int };
    let e = find_from(buf, NEWLINE, from);
    if e < buf.len() {
        Some(e + 1)
    } else if at_eof {
        Some(buf.len() as int)
    } else {
        None
    }
}

/// The owned range `[start, end)` of a chunk, if both ends are found.
pub open spec fn owned_range(buf: Seq<u8>, nominal: int, at_start: bool, at_eof: bool) -> Option<(int, int)> {
    match (owned_start(buf, at_start, at_eof), owned_end(buf, nominal, at_eof)) {
        (Some(s), Some(e)) => Some((s, e)),
        _ => None,
    }
}

/// Finds the owned range of a chunk; fails when a boundary has no newline
/// within the bytes read and the file goes on.
pub fn resolve(buf: &[u8], nominal: usize, at_start: bool, at_eof: bool) -> (r: Result<(usize, usize), EngineError>)
    ensures
        r matches Ok(p) ==> owned_range(buf@, nominal as int, at_start, at_eof) == Some((p.0 as int, p.1 as int))
            && p.0 <= p.1 <= buf@.len(),
        r matches Err(e) ==> owned_range(buf@, nominal as int, at_start, at_eof) is None
            && e == EngineError::BoundaryOverrunExceeded,
{
    let n = buf.len();
    let f = find_byte(buf, NEWLINE, 0);
    let from = if nominal <= n { nominal } else { n };
    let e = find_byte(buf, NEWLINE, from);
    proof {
        lemma_find_from_bounds(buf@, NEWLINE, 0);
        lemma_find_from_bounds(buf@, NEWLINE, from as int);
    }
    let start = if at_start {
        0
    } else if f < n {
        f + 1
    } else if at_eof {
        n
    } else {
        return Err(EngineError::BoundaryOverrunExceeded);
    };
    let end = if e < n {
        e + 1
    } else if at_eof {
        n
    } else {
        return Err(EngineError::BoundaryOverrunExceeded);
    };
    Ok((start, end))
}

/// Resolves the owned range of a chunk and aggregates its records.
pub fn process_chunk(buf: &[u8], nominal: usize, at_start: bool, at_eof: bool) -> (r: Result<StationTable, EngineError>)
    ensures
        owned_range(buf@, nominal as int, at_start, at_eof) is None ==>
            r == Err::<StationTable, EngineError>(EngineError::BoundaryOverrunExceeded),
        owned_range(buf@, nominal as int, at_start, at_eof) matches Some(p) ==> {
            let owned = buf@.subrange(p.0, p.1);
            &&& (r is Ok <==> all_records(lines(owned)))
            &&& r matches Ok(t) ==> t.wf() && t.view() == aggregate(records_of(lines(owned)))
                && t.total() == lines(owned).len()
            &&& r matches Err(e) ==> e is MalformedRecord
        },
{
    match resolve(buf, nominal, at_start, at_eof) {
        Ok((s, e)) => process_buffer(slice_subrange(buf, s, e)),
        Err(err) => Err(err),
    }
}

} // verus!
