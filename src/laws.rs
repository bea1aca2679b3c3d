//! What holds of the engine as a whole: merging is order-free, splitting a
//! buffer into parts changes nothing, and chunk boundaries lose and repeat
//! no record.

use vstd::prelude::*;
use crate::boundary::owned_range;
use crate::parse::{find_from, lemma_find_from_bounds, Record, NEWLINE};
use crate::report::{is_report_of, lemma_lex_irreflexive, lemma_lex_transitive, lex_lt, StationReport};
use crate::scan::{all_records, lines, lines_from, records_of};
use crate::stats::{add_reading, merge_summary, single};
use crate::table::{add_record, aggregate, merge_maps, Stations};

verus! {

/// Merging two station maps does not depend on their order.
pub proof fn lemma_merge_commutative(a: Stations, b: Stations)
    ensures
        merge_maps(a, b) == merge_maps(b, a),
{
    assert(merge_maps(a, b) =~= merge_maps(b, a));
}

/// Merging station maps does not depend on how they are grouped.
pub proof fn lemma_merge_associative(a: Stations, b: Stations, c: Stations)
    ensures
        merge_maps(merge_maps(a, b), c) == merge_maps(a, merge_maps(b, c)),
{
    assert(merge_maps(merge_maps(a, b), c) =~= merge_maps(a, merge_maps(b, c)));
}

/// Merging with no stations changes nothing.
pub proof fn lemma_merge_empty(a: Stations)
    ensures
        merge_maps(a, Map::empty()) == a,
        merge_maps(Map::empty(), a) == a,
{
    assert(merge_maps(a, Map::empty()) =~= a);
    assert(merge_maps(Map::empty(), a) =~= a);
}

proof fn lemma_add_record_merge(a: Stations, b: Stations, x: Record)
    ensures
        add_record(merge_maps(a, b), x) == merge_maps(a, add_record(b, x)),
{
    let k = x.0;
    if a.contains_key(k) && !b.contains_key(k) {
        assert(merge_summary(a[k], single(x.1)) == add_reading(a[k], x.1));
    }
    assert(add_record(merge_maps(a, b), x) =~= merge_maps(a, add_record(b, x)));
}

/// The stations of two record sequences one after the other are the merge
/// of the stations of each.
pub proof fn lemma_aggregate_concat(r1: Seq<Record>, r2: Seq<Record>)
    ensures
        aggregate(r1 + r2) == merge_maps(aggregate(r1), aggregate(r2)),
    decreases r2.len(),
{
    if r2.len() == 0 {
        assert(r1 + r2 =~= r1);
        lemma_merge_empty(aggregate(r1));
    } else {
        assert((r1 + r2).drop_last() =~= r1 + r2.drop_last());
        assert((r1 + r2).last() == r2.last());
        lemma_aggregate_concat(r1, r2.drop_last());
        lemma_add_record_merge(aggregate(r1), aggregate(r2.drop_last()), r2.last());
    }
}

/// The records of some parts, one part after the other.
pub open spec fn concat_parts(parts: Seq<Seq<Record>>) -> Seq<Record>
    decreases parts.len(),
{
    if parts.len() == 0 {
        Seq::empty()
    } else {
        concat_parts(parts.drop_last()) + parts.last()
    }
}

/// The merge of some station maps, in order.
pub open spec fn merge_all(maps: Seq<Stations>) -> Stations
    decreases maps.len(),
{
    if maps.len() == 0 {
        Map::empty()
    } else {
        merge_maps(merge_all(maps.drop_last()), maps.last())
    }
}

/// However records are parted, merging the stations of the parts gives the
/// stations of all the records taken as one.
pub proof fn lemma_parts_merge(parts: Seq<Seq<Record>>)
    ensures
        merge_all(parts.map_values(|p: Seq<Record>| aggregate(p))) == aggregate(concat_parts(parts)),
    decreases parts.len(),
{
    let maps = parts.map_values(|p: Seq<Record>| aggregate(p));
    if parts.len() == 0 {
        assert(aggregate(concat_parts(parts)) =~= Map::empty());
    } else {
        assert(maps.drop_last() =~= parts.drop_last().map_values(|p: Seq<Record>| aggregate(p)));
        lemma_parts_merge(parts.drop_last());
        lemma_aggregate_concat(concat_parts(parts.drop_last()), parts.last());
    }
}

proof fn lemma_find_shift(a: Seq<u8>, b: Seq<u8>, t: int)
    requires
        0 <= t <= b.len(),
    ensures
        find_from(a + b, NEWLINE, a.len() + t) == a.len() + find_from(b, NEWLINE, t),
    decreases b.len() - t,
{
    if t < b.len() {
        assert((a + b)[a.len() + t] == b[t]);
        lemma_find_shift(a, b, t + 1);
    }
}

proof fn lemma_lines_shift(a: Seq<u8>, b: Seq<u8>, t: int)
    requires
        0 <= t <= b.len(),
    ensures
        lines_from(a + b, a.len() + t) == lines_from(b, t),
    decreases b.len() - t,
{
    if t < b.len() {
        lemma_find_shift(a, b, t);
        lemma_find_from_bounds(b, NEWLINE, t);
        let j = find_from(b, NEWLINE, t);
        assert((a + b).subrange(a.len() + t, a.len() + j) =~= b.subrange(t, j));
        if j < b.len() {
            lemma_lines_shift(a, b, j + 1);
        }
    }
}

proof fn lemma_find_prefix(a: Seq<u8>, b: Seq<u8>, i: int)
    requires
        0 <= i < a.len(),
        a.last() == NEWLINE,
    ensures
        find_from(a + b, NEWLINE, i) == find_from(a, NEWLINE, i),
        find_from(a, NEWLINE, i) < a.len(),
    decreases a.len() - i,
{
    assert((a + b)[i] == a[i]);
    if a[i] != NEWLINE {
        lemma_find_prefix(a, b, i + 1);
    }
}

proof fn lemma_lines_prefix(a: Seq<u8>, b: Seq<u8>, i: int)
    requires
        0 <= i <= a.len(),
        a.len() > 0,
        a.last() == NEWLINE,
    ensures
        lines_from(a + b, i) == lines_from(a, i) + lines_from(b, 0),
    decreases a.len() - i,
{
    if i == a.len() {
        lemma_lines_shift(a, b, 0);
        assert(lines_from(a, i) + lines_from(b, 0) =~= lines_from(b, 0));
    } else {
        lemma_find_prefix(a, b, i);
        lemma_find_from_bounds(a, NEWLINE, i);
        let j = find_from(a, NEWLINE, i);
        assert((a + b).subrange(i, j) =~= a.subrange(i, j));
        lemma_lines_prefix(a, b, j + 1);
        assert(lines_from(a + b, i) =~= lines_from(a, i) + lines_from(b, 0));
    }
}

/// A buffer that ends on a record boundary followed by another: the lines
/// of the whole are the lines of the first and then those of the second.
pub proof fn lemma_lines_concat(a: Seq<u8>, b: Seq<u8>)
    requires
        a.len() == 0 || a.last() == NEWLINE,
    ensures
        lines(a + b) == lines(a) + lines(b),
{
    if a.len() == 0 {
        assert(a + b =~= b);
        assert(lines(a) + lines(b) =~= lines(b));
    } else {
        lemma_lines_prefix(a, b, 0);
    }
}

/// Two buffers of whole records: the stations of their concatenation are
/// the merge of the stations of each, and the concatenation is well formed
/// exactly when both are.
pub proof fn lemma_buffer_split(a: Seq<u8>, b: Seq<u8>)
    requires
        a.len() == 0 || a.last() == NEWLINE,
    ensures
        all_records(lines(a + b)) <==> all_records(lines(a)) && all_records(lines(b)),
        all_records(lines(a + b)) ==> aggregate(records_of(lines(a + b)))
            == merge_maps(aggregate(records_of(lines(a))), aggregate(records_of(lines(b)))),
        lines(a + b).len() == lines(a).len() + lines(b).len(),
{
    lemma_lines_concat(a, b);
    let la = lines(a);
    let lb = lines(b);
    if all_records(la) && all_records(lb) {
        assert forall|i: int| 0 <= i < (la + lb).len() implies (#[trigger] crate::parse::record_of((la + lb)[i])) is Some by {
            if i < la.len() {
                assert((la + lb)[i] == la[i]);
            } else {
                assert((la + lb)[i] == lb[i - la.len()]);
            }
        }
    }
    if all_records(la + lb) {
        assert forall|i: int| 0 <= i < la.len() implies (#[trigger] crate::parse::record_of(la[i])) is Some by {
            assert((la + lb)[i] == la[i]);
        }
        assert forall|i: int| 0 <= i < lb.len() implies (#[trigger] crate::parse::record_of(lb[i])) is Some by {
            assert((la + lb)[la.len() + i] == lb[i]);
        }
    }
    assert(records_of(la + lb) =~= records_of(la) + records_of(lb));
    lemma_aggregate_concat(records_of(la), records_of(lb));
}

proof fn lemma_find_take(s: Seq<u8>, t: int, i: int)
    requires
        0 <= i <= t <= s.len(),
    ensures
        find_from(s.subrange(0, t), NEWLINE, i)
            == if find_from(s, NEWLINE, i) < t { find_from(s, NEWLINE, i) } else { t },
    decreases t - i,
{
    lemma_find_from_bounds(s, NEWLINE, i);
    if i < t {
        assert(s.subrange(0, t)[i] == s[i]);
        lemma_find_take(s, t, i + 1);
    }
}

/// A file split at any offset `split` into two chunks: the first read from
/// offset 0 for `split + margin` bytes (or up to the end), the second from
/// `split` up to the end. The second always resolves; where the first does
/// too, the bytes that the two own are the whole file, the first's before
/// the second's, and so every line of the file is owned by exactly one of
/// them.
#[verifier::spinoff_prover]
#[verifier::rlimit(80)]
pub proof fn lemma_split_boundary(file: Seq<u8>, split: int, margin: int)
    requires
        0 <= split <= file.len(),
        0 <= margin,
    ensures
        ({
            let n = file.len() as int;
            let t = if split + margin <= n { split + margin } else { n };
            let first = owned_range(file.subrange(0, t), split, true, split + margin >= n);
            let second = owned_range(file.subrange(split, n), n - split, false, true);
            &&& second is Some
            &&& first matches Some(p0) ==> {
                let q = second.unwrap();
                let own0 = file.subrange(p0.0, p0.1);
                let own1 = file.subrange(split + q.0, split + q.1);
                &&& own0 + own1 == file
                &&& lines(own0) + lines(own1) == lines(file)
            }
        }),
{
    let n = file.len() as int;
    let t = if split + margin <= n { split + margin } else { n };
    let buf0 = file.subrange(0, t);
    let buf1 = file.subrange(split, n);
    let big_p = find_from(file, NEWLINE, split);
    lemma_find_from_bounds(file, NEWLINE, split);
    lemma_find_take(file, t, split);
    let head = file.subrange(0, split);
    assert(file =~= head + buf1);
    lemma_find_shift(head, buf1, 0);
    lemma_find_from_bounds(buf1, NEWLINE, 0);
    let first = owned_range(buf0, split, true, split + margin >= n);
    let second = owned_range(buf1, n - split, false, true);
    assert(find_from(buf1, NEWLINE, n - split) == n - split);
    if first is Some {
        let p0 = first.unwrap();
        let q = second.unwrap();
        let own0 = file.subrange(p0.0, p0.1);
        let own1 = file.subrange(split + q.0, split + q.1);
        if big_p < t {
            assert(p0 == (0int, big_p + 1));
            assert(split + q.0 == big_p + 1);
            assert(own0 + own1 =~= file);
            assert(own0.last() == NEWLINE);
            lemma_lines_concat(own0, own1);
        } else {
            assert(t == n);
            assert(own0 =~= file);
            assert(own1 =~= Seq::<u8>::empty());
            assert(own0 + own1 =~= file);
            assert(lines(own1) =~= Seq::<Seq<u8>>::empty());
            assert(lines(own0) + lines(own1) =~= lines(file));
        }
    }
}

/// Two reports say the same: the same stations in the same order with the
/// same figures.
pub open spec fn same_report(r1: Seq<StationReport>, r2: Seq<StationReport>) -> bool {
    &&& r1.len() == r2.len()
    &&& forall|i: int| 0 <= i < r1.len() ==> {
        &&& (#[trigger] r1[i]).name@ == r2[i].name@
        &&& r1[i].min == r2[i].min
        &&& r1[i].mean == r2[i].mean
        &&& r1[i].max == r2[i].max
        &&& r1[i].count == r2[i].count
    }
}

proof fn lemma_report_names_agree(r1: Seq<StationReport>, r2: Seq<StationReport>, m: Stations, i: int)
    requires
        is_report_of(r1, m),
        is_report_of(r2, m),
        0 <= i < r1.len(),
    ensures
        r1[i].name@ == r2[i].name@,
    decreases i,
{
    assert forall|j: int| 0 <= j < i implies r1[j].name@ == r2[j].name@ by {
        lemma_report_names_agree(r1, r2, m, j);
    }
    let k1 = r1[i].name@;
    let k2 = r2[i].name@;
    assert(m.contains_key(k1));
    assert(m.contains_key(k2));
    let j2 = choose|j: int| 0 <= j < r2.len() && r2[j].name@ == k1;
    let j1 = choose|j: int| 0 <= j < r1.len() && r1[j].name@ == k2;
    lemma_lex_irreflexive(k1);
    lemma_lex_irreflexive(k2);
    if j2 < i {
        assert(r1[j2].name@ == k1);
        assert(lex_lt(r1[j2].name@, r1[i].name@));
    }
    if j1 < i {
        assert(r2[j1].name@ == k2);
        assert(lex_lt(r2[j1].name@, r2[i].name@));
    }
    if k1 != k2 {
        assert(j2 != i && j1 != i);
        assert(lex_lt(r2[i].name@, r2[j2].name@));
        assert(lex_lt(r1[i].name@, r1[j1].name@));
        lemma_lex_transitive(k1, k2, k1);
    }
}

/// A report is fixed by the stations it reports: two reports of the same
/// stations say the same.
pub proof fn lemma_report_unique(r1: Seq<StationReport>, r2: Seq<StationReport>, m: Stations)
    requires
        is_report_of(r1, m),
        is_report_of(r2, m),
    ensures
        same_report(r1, r2),
{
    assert forall|i: int| 0 <= i < r1.len() implies {
        &&& (#[trigger] r1[i]).name@ == r2[i].name@
        &&& r1[i].min == r2[i].min
        &&& r1[i].mean == r2[i].mean
        &&& r1[i].max == r2[i].max
        &&& r1[i].count == r2[i].count
    } by {
        lemma_report_names_agree(r1, r2, m, i);
    }
}

/// The report of a buffer read in one pass is the report of the same buffer
/// cut at a record boundary into two parts that are aggregated apart and
/// merged.
pub proof fn lemma_single_pass_equivalence(
    a: Seq<u8>,
    b: Seq<u8>,
    whole: Seq<StationReport>,
    parted: Seq<StationReport>,
)
    requires
        a.len() == 0 || a.last() == NEWLINE,
        all_records(lines(a + b)),
        is_report_of(whole, aggregate(records_of(lines(a + b)))),
        is_report_of(parted, merge_maps(aggregate(records_of(lines(a))), aggregate(records_of(lines(b))))),
    ensures
        same_report(whole, parted),
{
    lemma_buffer_split(a, b);
    lemma_report_unique(whole, parted, aggregate(records_of(lines(a + b))));
}

/// The bytes read for chunk `k` of `file`, chunks `buffer` bytes apart with
/// `margin` bytes of overrun.
pub open spec fn chunk_bytes(file: Seq<u8>, buffer: int, margin: int, k: int) -> Seq<u8> {
    let start = k * buffer;
    let n = file.len() as int;
    let end = if start + buffer + margin <= n { start + buffer + margin } else { n };
    file.subrange(start, end)
}

/// The owned range of chunk `k`, in the chunk's own offsets.
pub open spec fn chunk_owned(file: Seq<u8>, buffer: int, margin: int, k: int) -> Option<(int, int)> {
    owned_range(
        chunk_bytes(file, buffer, margin, k),
        buffer,
        k == 0,
        k * buffer + buffer + margin >= file.len(),
    )
}

/// The bytes that chunk `k` owns.
pub open spec fn owned_piece(file: Seq<u8>, buffer: int, margin: int, k: int) -> Seq<u8> {
    let p = chunk_owned(file, buffer, margin, k).unwrap();
    file.subrange(k * buffer + p.0, k * buffer + p.1)
}

/// The bytes that the first `j` chunks own, one chunk after the other.
pub open spec fn owned_prefix(file: Seq<u8>, buffer: int, margin: int, j: nat) -> Seq<u8>
    decreases j,
{
    if j == 0 {
        Seq::empty()
    } else {
        owned_prefix(file, buffer, margin, (j - 1) as nat) + owned_piece(file, buffer, margin, j - 1)
    }
}

/// The lines of the first `j` chunks, one chunk after the other.
pub open spec fn owned_lines(file: Seq<u8>, buffer: int, margin: int, j: nat) -> Seq<Seq<u8>>
    decreases j,
{
    if j == 0 {
        Seq::empty()
    } else {
        owned_lines(file, buffer, margin, (j - 1) as nat) + lines(owned_piece(file, buffer, margin, j - 1))
    }
}

/// Where chunk `k`'s owned bytes start and end in the file, given the first
/// newline at or past its nominal start and past its nominal end.
proof fn lemma_chunk_ends(file: Seq<u8>, buffer: int, margin: int, k: int)
    requires
        buffer >= 1,
        margin >= 0,
        k >= 0,
        k * buffer < file.len(),
        chunk_owned(file, buffer, margin, k) is Some,
    ensures
        ({
            let p = chunk_owned(file, buffer, margin, k).unwrap();
            let n = file.len() as int;
            let lo = find_from(file, NEWLINE, k * buffer);
            let hi_from = if (k + 1) * buffer <= n { (k + 1) * buffer } else { n };
            let hi = find_from(file, NEWLINE, hi_from);
            &&& 0 <= p.0 <= p.1 <= chunk_bytes(file, buffer, margin, k).len()
            &&& k * buffer + p.0 == (if k == 0 { 0 } else if lo < n { lo + 1 } else { n })
            &&& k * buffer + p.1 == (if hi < n { hi + 1 } else { n })
        }),
{
    let n = file.len() as int;
    let st = k * buffer;
    assert((k + 1) * buffer == st + buffer) by (nonlinear_arith)
        requires st == k * buffer;
    let end = if st + buffer + margin <= n { st + buffer + margin } else { n };
    let buf = chunk_bytes(file, buffer, margin, k);
    let upto = file.subrange(0, end);
    assert(buf =~= upto.subrange(st, end));
    let head = upto.subrange(0, st);
    assert(upto =~= head + buf);
    let from = if buffer <= buf.len() { buffer } else { buf.len() as int };
    lemma_find_take(file, end, st);
    lemma_find_take(file, end, st + from);
    lemma_find_shift(head, buf, 0);
    lemma_find_shift(head, buf, from);
    lemma_find_from_bounds(file, NEWLINE, st);
    lemma_find_from_bounds(file, NEWLINE, st + from);
    lemma_find_from_bounds(buf, NEWLINE, 0);
    lemma_find_from_bounds(buf, NEWLINE, from);
    let hi_from = if (k + 1) * buffer <= n { (k + 1) * buffer } else { n };
    assert(st + from == hi_from);
}

proof fn lemma_owned_prefix(file: Seq<u8>, buffer: int, margin: int, count: nat, j: nat)
    requires
        buffer >= 1,
        margin >= 0,
        j <= count,
        count * buffer >= file.len(),
        count == 0 || (count - 1) * buffer < file.len(),
        forall|k: int| 0 <= k < count ==> (#[trigger] chunk_owned(file, buffer, margin, k)) is Some,
    ensures
        ({
            let n = file.len() as int;
            let a = if j == 0 {
                0
            } else if j == count {
                n
            } else {
                let lo = find_from(file, NEWLINE, j * buffer);
                if lo < n { lo + 1 } else { n }
            };
            &&& 0 <= a <= n
            &&& owned_prefix(file, buffer, margin, j) == file.subrange(0, a)
            &&& owned_lines(file, buffer, margin, j) == lines(file.subrange(0, a))
            &&& (a == 0 || a == n || file[a - 1] == NEWLINE)
        }),
    decreases j,
{
    let n = file.len() as int;
    if j == 0 {
        assert(file.subrange(0, 0) =~= Seq::<u8>::empty());
        assert(lines(Seq::<u8>::empty()) =~= Seq::<Seq<u8>>::empty());
    } else {
        let k = j - 1;
        lemma_owned_prefix(file, buffer, margin, count, (j - 1) as nat);
        assert(k * buffer < n) by (nonlinear_arith)
            requires k <= count - 1, (count - 1) * buffer < n, buffer >= 1, k >= 0;
        assert(chunk_owned(file, buffer, margin, k) is Some);
        lemma_chunk_ends(file, buffer, margin, k);
        lemma_find_from_bounds(file, NEWLINE, k * buffer);
        let a0 = if k == 0 {
            0
        } else {
            let lo = find_from(file, NEWLINE, k * buffer);
            if lo < n { lo + 1 } else { n }
        };
        let p = chunk_owned(file, buffer, margin, k).unwrap();
        assert(k * buffer + p.0 == a0);
        assert((k + 1) * buffer == k * buffer + buffer) by (nonlinear_arith);
        let hi_from = if (k + 1) * buffer <= n { (k + 1) * buffer } else { n };
        lemma_find_from_bounds(file, NEWLINE, hi_from);
        let hi = find_from(file, NEWLINE, hi_from);
        let a1 = if hi < n { hi + 1 } else { n };
        assert(k * buffer + p.1 == a1);
        if j == count {
            assert(hi_from == n) by (nonlinear_arith)
                requires j * buffer >= n, j == k + 1, hi_from == (if (k + 1) * buffer <= n { (k + 1) * buffer } else { n });
        }
        let piece = owned_piece(file, buffer, margin, k);
        assert(piece =~= file.subrange(a0, a1));
        assert(file.subrange(0, a0) + piece =~= file.subrange(0, a1));
        if a0 == n {
            assert(piece =~= Seq::<u8>::empty());
            assert(lines(piece) =~= Seq::<Seq<u8>>::empty());
            assert(lines(file.subrange(0, a0)) + lines(piece) =~= lines(file.subrange(0, a1)));
        } else {
            if a0 > 0 {
                assert(file.subrange(0, a0).last() == file[a0 - 1]);
            }
            lemma_lines_concat(file.subrange(0, a0), piece);
        }
        if a1 > 0 && a1 < n {
            assert(file[a1 - 1] == NEWLINE);
        }
    }
}

/// Every chunk of a planned file resolving, the bytes that the chunks own
/// are the whole file, chunk after chunk, and so are their lines: no record
/// is lost or owned twice, wherever the chunk boundaries fall.
pub proof fn lemma_chunks_tile(file: Seq<u8>, buffer: int, margin: int, count: nat)
    requires
        buffer >= 1,
        margin >= 0,
        count * buffer >= file.len(),
        count == 0 || (count - 1) * buffer < file.len(),
        forall|k: int| 0 <= k < count ==> (#[trigger] chunk_owned(file, buffer, margin, k)) is Some,
    ensures
        owned_prefix(file, buffer, margin, count) == file,
        owned_lines(file, buffer, margin, count) == lines(file),
{
    lemma_owned_prefix(file, buffer, margin, count, count);
    if count == 0 {
        assert(file.len() == 0) by (nonlinear_arith)
            requires count * buffer >= file.len(), count == 0;
    }
    assert(file.subrange(0, file.len() as int) =~= file);
}

/// The stations of each of the first `count` chunks of a file, by what each
/// chunk owns.
pub open spec fn chunk_maps(file: Seq<u8>, buffer: int, margin: int, count: nat) -> Seq<Stations> {
    Seq::new(count, |k: int| aggregate(records_of(lines(owned_piece(file, buffer, margin, k)))))
}

proof fn lemma_chunk_maps_prefix(file: Seq<u8>, buffer: int, margin: int, j: nat)
    ensures
        merge_all(chunk_maps(file, buffer, margin, j))
            == aggregate(records_of(owned_lines(file, buffer, margin, j))),
    decreases j,
{
    let maps = chunk_maps(file, buffer, margin, j);
    if j == 0 {
        assert(records_of(owned_lines(file, buffer, margin, 0)) =~= Seq::<Record>::empty());
    } else {
        let prev = owned_lines(file, buffer, margin, (j - 1) as nat);
        let last = lines(owned_piece(file, buffer, margin, j - 1));
        assert(maps.drop_last() =~= chunk_maps(file, buffer, margin, (j - 1) as nat));
        lemma_chunk_maps_prefix(file, buffer, margin, (j - 1) as nat);
        assert(records_of(prev + last) =~= records_of(prev) + records_of(last));
        lemma_aggregate_concat(records_of(prev), records_of(last));
    }
}

/// The staged pipeline computes what one pass computes: where every chunk
/// of the plan resolves, merging the stations of the chunks in plan order
/// gives the stations of the whole file read as one buffer. With the merge
/// laws above, any other order or grouping of the merges gives the same.
pub proof fn lemma_pipeline_equivalence(file: Seq<u8>, buffer: int, margin: int, count: nat)
    requires
        buffer >= 1,
        margin >= 0,
        count * buffer >= file.len(),
        count == 0 || (count - 1) * buffer < file.len(),
        forall|k: int| 0 <= k < count ==> (#[trigger] chunk_owned(file, buffer, margin, k)) is Some,
    ensures
        merge_all(chunk_maps(file, buffer, margin, count)) == aggregate(records_of(lines(file))),
{
    lemma_chunks_tile(file, buffer, margin, count);
    lemma_chunk_maps_prefix(file, buffer, margin, count);
}

} // verus!
