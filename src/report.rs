//! The finalizer: one line of results per station, in byte-lexicographic
//! order of the names.

use vstd::prelude::*;
use vstd::slice::slice_to_vec;
use crate::stats::{mean_of, Summary};
use crate::table::{StationTable, Stations};

verus! {

/// `a` comes strictly before `b` in byte-lexicographic order.
pub open spec fn lex_lt(a: Seq<u8>, b: Seq<u8>) -> bool
    decreases a.len(),
{
    if a.len() == 0 {
        b.len() > 0
    } else if b.len() == 0 {
        false
    } else if a[0] != b[0] {
        a[0] < b[0]
    } else {
        lex_lt(a.drop_first(), b.drop_first())
    }
}

pub proof fn lemma_lex_irreflexive(a: Seq<u8>)
    ensures
        !lex_lt(a, a),
    decreases a.len(),
{
    if a.len() > 0 {
        lemma_lex_irreflexive(a.drop_first());
    }
}

pub proof fn lemma_lex_transitive(a: Seq<u8>, b: Seq<u8>, c: Seq<u8>)
    requires
        lex_lt(a, b),
        lex_lt(b, c),
    ensures
        lex_lt(a, c),
    decreases a.len(),
{
    if a.len() > 0 && b.len() > 0 && c.len() > 0 && a[0] == b[0] && b[0] == c[0] {
        lemma_lex_transitive(a.drop_first(), b.drop_first(), c.drop_first());
    }
}

pub proof fn lemma_lex_total(a: Seq<u8>, b: Seq<u8>)
    requires
        a != b,
    ensures
        lex_lt(a, b) || lex_lt(b, a),
    decreases a.len(),
{
    if a.len() > 0 && b.len() > 0 && a[0] == b[0] {
        if a.drop_first() == b.drop_first() {
            assert(a =~= seq![a[0]] + a.drop_first());
            assert(b =~= seq![b[0]] + b.drop_first());
        }
        lemma_lex_total(a.drop_first(), b.drop_first());
    } else if a.len() == 0 && b.len() == 0 {
        assert(a =~= b);
    }
}

/// Whether `a` comes strictly before `b` in byte-lexicographic order.
pub fn name_less(a: &[u8], b: &[u8]) -> (r: bool)
    ensures
        r == lex_lt(a@, b@),
{
    let mut i: usize = 0;
    assert(a@.skip(0) =~= a@);
    assert(b@.skip(0) =~= b@);
    while i < a.len() && i < b.len()
        invariant
            i <= a@.len(),
            i <= b@.len(),
            lex_lt(a@, b@) == lex_lt(a@.skip(i as int), b@.skip(i as int)),
        decreases a@.len() - i,
    {
        if a[i] != b[i] {
            return a[i] < b[i];
        }
        assert(a@.skip(i as int).drop_first() =~= a@.skip(i as int + 1));
        assert(b@.skip(i as int).drop_first() =~= b@.skip(i as int + 1));
        i = i + 1;
    }
    i < b.len()
}

/// The final results of one station, readings in tenths.
#[derive(Debug)]
pub struct StationReport {
    pub name: Vec<u8>,
    pub min: i32,
    pub mean: i32,
    pub max: i32,
    pub count: u64,
}

/// `r` reports station `name` with summary `s`: its extremes, its count and
/// its mean rounded to a tenth, halves going up.
pub open spec fn describes(r: StationReport, name: Seq<u8>, s: Summary) -> bool {
    &&& r.name@ == name
    &&& r.min == s.min
    &&& r.max == s.max
    &&& r.count == s.count
    &&& r.mean == mean_of(s)
}

/// The report of a table: one entry per station, in strictly increasing
/// byte-lexicographic order of the names.
pub open spec fn is_report_of(r: Seq<StationReport>, m: Stations) -> bool {
    &&& r.len() == m.dom().len()
    &&& forall|i: int| 0 <= i < r.len() ==>
            m.contains_key((#[trigger] r[i]).name@) && describes(r[i], r[i].name@, m[r[i].name@])
    &&& forall|k: Seq<u8>| #[trigger] m.contains_key(k) ==> exists|i: int| 0 <= i < r.len() && r[i].name@ == k
    &&& forall|i: int, j: int| 0 <= i < j < r.len() ==> lex_lt((#[trigger] r[i]).name@, (#[trigger] r[j]).name@)
}

/// The slots of `t` in increasing order of their names.
fn sorted_slots(t: &StationTable) -> (order: Vec<usize>)
    requires
        t.wf(),
    ensures
        order.len() == t.slots(),
        forall|q: int| 0 <= q < order.len() ==> (#[trigger] order[q]) < t.slots(),
        forall|s: int| 0 <= s < t.slots() ==> #[trigger] order@.contains(s as usize),
        forall|q1: int, q2: int| 0 <= q1 < q2 < order.len() ==>
            lex_lt(t.name_at(#[trigger] order[q1] as int), t.name_at(#[trigger] order[q2] as int)),
{
    let n = t.len();
    proof { t.lemma_names_distinct(); }
    let mut order: Vec<usize> = Vec::new();
    let mut i: usize = 0;
    while i < n
        invariant
            i <= n,
            n == t.slots(),
            t.wf(),
            order.len() == i,
            forall|a: int, b: int| 0 <= a < n && 0 <= b < n && a != b ==>
                #[trigger] t.name_at(a) != #[trigger] t.name_at(b),
            forall|q: int| 0 <= q < order.len() ==> (#[trigger] order[q]) < i,
            forall|s: int| 0 <= s < i ==> #[trigger] order@.contains(s as usize),
            forall|q1: int, q2: int| 0 <= q1 < q2 < order.len() ==>
                lex_lt(t.name_at(#[trigger] order[q1] as int), t.name_at(#[trigger] order[q2] as int)),
        decreases n - i,
    {
        let (name, _) = t.entry(i);
        let mut p: usize = 0;
        while p < order.len() && !name_less(name, t.entry(order[p]).0)
            invariant
                p <= order.len(),
                t.wf(),
                name@ == t.name_at(i as int),
                forall|q: int| 0 <= q < p ==> lex_lt(t.name_at(#[trigger] order[q] as int), t.name_at(i as int)),
                i < n,
                n == t.slots(),
                forall|a: int, b: int| 0 <= a < n && 0 <= b < n && a != b ==>
                    #[trigger] t.name_at(a) != #[trigger] t.name_at(b),
                forall|q: int| 0 <= q < order.len() ==> (#[trigger] order[q]) < i,
            decreases order.len() - p,
        {
            proof {
                let o = order[p as int] as int;
                assert(t.name_at(o) != t.name_at(i as int));
                lemma_lex_total(t.name_at(o), t.name_at(i as int));
            }
            p = p + 1;
        }
        let ghost old_order = order@;
        order.insert(p, i);
        proof {
            let ni = t.name_at(i as int);
            assert forall|q2: int| p < q2 < order.len() implies
                lex_lt(ni, t.name_at(#[trigger] order[q2] as int)) by {
                assert(order[q2] == old_order[q2 - 1]);
                assert(lex_lt(ni, t.name_at(old_order[p as int] as int)));
                if q2 > p + 1 {
                    lemma_lex_transitive(ni, t.name_at(old_order[p as int] as int), t.name_at(old_order[q2 - 1] as int));
                }
            }
            assert forall|q1: int, q2: int| 0 <= q1 < q2 < order.len() implies
                lex_lt(t.name_at(#[trigger] order[q1] as int), t.name_at(#[trigger] order[q2] as int)) by {
                if q1 < p && q2 == p {
                    assert(order[q1] == old_order[q1]);
                } else if q1 < p && q2 > p {
                    assert(order[q1] == old_order[q1]);
                    assert(lex_lt(ni, t.name_at(order[q2] as int)));
                    lemma_lex_transitive(t.name_at(order[q1] as int), ni, t.name_at(order[q2] as int));
                } else if q1 == p {
                    assert(lex_lt(ni, t.name_at(order[q2] as int)));
                } else if q1 > p {
                    assert(order[q1] == old_order[q1 - 1]);
                    assert(order[q2] == old_order[q2 - 1]);
                } else {
                    assert(order[q1] == old_order[q1]);
                    assert(order[q2] == old_order[q2]);
                }
            }
            assert forall|s: int| 0 <= s < i + 1 implies #[trigger] order@.contains(s as usize) by {
                if s == i {
                    assert(order[p as int] == s);
                } else {
                    assert(old_order.contains(s as usize));
                    let q0 = choose|q: int| 0 <= q < old_order.len() && old_order[q] == s as usize;
                    if q0 < p {
                        assert(order[q0] == s);
                    } else {
                        assert(order[q0 + 1] == s);
                    }
                }
            }
        }
        i = i + 1;
    }
    order
}

/// The report of every station of `t`: extremes, count and rounded mean, in
/// increasing byte-lexicographic order of the names.
pub fn finalize(t: &StationTable) -> (r: Vec<StationReport>)
    requires
        t.wf(),
    ensures
        is_report_of(r@, t.view()),
{
    let order = sorted_slots(t);
    let mut r: Vec<StationReport> = Vec::new();
    let mut q: usize = 0;
    while q < order.len()
        invariant
            q <= order.len(),
            t.wf(),
            r.len() == q,
            order.len() == t.slots(),
            forall|j: int| 0 <= j < order.len() ==> (#[trigger] order[j]) < t.slots(),
            forall|j: int| 0 <= j < q ==> (#[trigger] r[j]).name@ == t.name_at(order[j] as int)
                && describes(r[j], r[j].name@, t.view()[r[j].name@]),
        decreases order.len() - q,
    {
        let (name, s) = t.entry(order[q]);
        let m = s.mean();
        r.push(StationReport { name: slice_to_vec(name), min: s.min, mean: m, max: s.max, count: s.count });
        q = q + 1;
    }
    proof {
        t.lemma_slots();
        t.lemma_dom_len();
        assert forall|k: Seq<u8>| #[trigger] t.view().contains_key(k) implies
            exists|i: int| 0 <= i < r.len() && r[i].name@ == k by {
            let s = choose|s: int| 0 <= s < t.slots() && t.name_at(s) == k;
            assert(order@.contains(s as usize));
            let j = choose|j: int| 0 <= j < order.len() && order[j] == s as usize;
            assert(r[j].name@ == k);
        }
        assert forall|i: int, j: int| 0 <= i < j < r.len() implies
            lex_lt((#[trigger] r[i]).name@, (#[trigger] r[j]).name@) by {
            assert(lex_lt(t.name_at(order[i] as int), t.name_at(order[j] as int)));
        }
    }
    r
}

} // verus!
