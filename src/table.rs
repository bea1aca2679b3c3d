//! The table of all stations seen in some records: a mapping from station
//! name to its statistics, with the number of records it was built from.
//!
//! Names are found through an `ahash` hash map from name to slot; the
//! statistics themselves sit in a vector at that slot.

use vstd::prelude::*;
use vstd::slice::slice_to_vec;
use ahash::AHashMap;
use crate::parse::{Record, MAX_READING};
use crate::stats::{add_reading, merge_summary, single, StationStats, Summary};

verus! {

#[verifier::external_type_specification]
#[verifier::external_body]
#[verifier::reject_recursive_types(K)]
#[verifier::reject_recursive_types(V)]
#[verifier::reject_recursive_types(S)]
pub struct ExAHashMap<K, V, S>(AHashMap<K, V, S>);

#[verifier::external_type_specification]
#[verifier::external_body]
pub struct ExRandomState(ahash::RandomState);

/// A hash map from station name to slot.
pub type NameIndex = AHashMap<Vec<u8>, usize>;

/// The name-to-slot pairs that an index map holds.
pub uninterp spec fn index_contents(m: NameIndex) -> Map<Seq<u8>, usize>;

/// Relies on `AHashMap::with_capacity`: a new map holds nothing.
#[verifier::external_body]
fn index_new(capacity: usize) -> (r: NameIndex)
    ensures
        index_contents(r).dom() == Set::<Seq<u8>>::empty(),
{
    AHashMap::with_capacity(capacity)
}

/// Relies on `AHashMap::get`: the slot stored under `key`, if any.
#[verifier::external_body]
fn index_get(m: &NameIndex, key: &[u8]) -> (r: Option<usize>)
    ensures
        r == (if index_contents(*m).contains_key(key@) {
            Some(index_contents(*m)[key@])
        } else {
            None
        }),
{
    m.get(key).copied()
}

/// Relies on `AHashMap::insert`: `key` now maps to `slot`, other keys are
/// unchanged.
#[verifier::external_body]
fn index_insert(m: &mut NameIndex, key: Vec<u8>, slot: usize)
    ensures
        index_contents(*final(m)) == index_contents(*old(m)).insert(key@, slot),
{
    m.insert(key, slot);
}

/// Station name to summary of its readings.
pub type Stations = Map<Seq<u8>, Summary>;

/// The stations after one more record.
pub open spec fn add_record(m: Stations, rec: Record) -> Stations {
    if m.contains_key(rec.0) {
        m.insert(rec.0, add_reading(m[rec.0], rec.1))
    } else {
        m.insert(rec.0, single(rec.1))
    }
}

/// The stations of a sequence of records, taken in order.
pub open spec fn aggregate(recs: Seq<Record>) -> Stations
    decreases recs.len(),
{
    if recs.len() == 0 {
        Map::empty()
    } else {
        add_record(aggregate(recs.drop_last()), recs.last())
    }
}

/// Two station maps combined: a name in both gets the merged summary, a name
/// in one keeps its summary.
pub open spec fn merge_maps(a: Stations, b: Stations) -> Stations {
    Map::new(
        |k: Seq<u8>| a.contains_key(k) || b.contains_key(k),
        |k: Seq<u8>|
            if a.contains_key(k) && b.contains_key(k) {
                merge_summary(a[k], b[k])
            } else if a.contains_key(k) {
                a[k]
            } else {
                b[k]
            },
    )
}

pub struct StationTable {
    index: NameIndex,
    names: Vec<Vec<u8>>,
    stats: Vec<StationStats>,
    records: u64,
}

impl StationTable {
    /// Every name has one slot and every slot one name; every count is at
    /// most `bound`.
    pub closed spec fn inv(&self, bound: nat) -> bool {
        let c = index_contents(self.index);
        &&& self.names.len() == self.stats.len()
        &&& forall|k: Seq<u8>| #[trigger] c.contains_key(k) ==>
                c[k] < self.names.len() && self.names[c[k] as int]@ == k
        &&& forall|i: int| 0 <= i < self.names.len() ==>
                c.contains_key(#[trigger] self.names[i]@) && c[self.names[i]@] == i
        &&& forall|i: int| 0 <= i < self.stats.len() ==>
                (#[trigger] self.stats[i]).wf() && self.stats[i].count <= bound
    }

    pub closed spec fn wf(&self) -> bool {
        self.inv(self.records as nat)
    }

    /// The summary of each station in the table.
    pub closed spec fn view(&self) -> Stations {
        let c = index_contents(self.index);
        Map::new(|k: Seq<u8>| c.contains_key(k), |k: Seq<u8>| self.stats[c[k] as int]@)
    }

    /// How many records the table was built from.
    pub closed spec fn total(&self) -> nat {
        self.records as nat
    }

    /// The name in slot `i`.
    pub closed spec fn name_at(&self, i: int) -> Seq<u8> {
        self.names[i]@
    }

    /// The number of slots, one per station.
    pub closed spec fn slots(&self) -> nat {
        self.names.len() as nat
    }

    pub proof fn lemma_slots(&self)
        requires
            self.wf(),
        ensures
            forall|i: int| 0 <= i < self.slots() ==> self.view().contains_key(#[trigger] self.name_at(i)),
            forall|i: int, j: int| 0 <= i < self.slots() && 0 <= j < self.slots() && i != j ==>
                #[trigger] self.name_at(i) != #[trigger] self.name_at(j),
            forall|k: Seq<u8>| #[trigger] self.view().contains_key(k) ==>
                exists|i: int| 0 <= i < self.slots() && self.name_at(i) == k,
            forall|k: Seq<u8>| #[trigger] self.view().contains_key(k) ==>
                self.view()[k].count >= 1 && self.view()[k].count <= self.total()
                && -MAX_READING <= self.view()[k].min <= self.view()[k].max <= MAX_READING
                && self.view()[k].count * self.view()[k].min <= self.view()[k].sum
                && self.view()[k].sum <= self.view()[k].count * self.view()[k].max,
    {
        let c = index_contents(self.index);
        assert forall|k: Seq<u8>| #[trigger] self.view().contains_key(k) implies
            exists|i: int| 0 <= i < self.slots() && self.name_at(i) == k by {
            assert(self.name_at(c[k] as int) == k);
        }
        assert forall|k: Seq<u8>| #[trigger] self.view().contains_key(k) implies
            self.view()[k].count >= 1 && self.view()[k].count <= self.total()
                && -MAX_READING <= self.view()[k].min <= self.view()[k].max <= MAX_READING
                && self.view()[k].count * self.view()[k].min <= self.view()[k].sum
                && self.view()[k].sum <= self.view()[k].count * self.view()[k].max by {
            assert(self.stats[c[k] as int].wf());
        }
    }

    /// An empty table.
    pub fn new() -> (t: StationTable)
        ensures
            t.wf(),
            t.view() == Map::<Seq<u8>, Summary>::empty(),
            t.total() == 0,
    {
        let t = StationTable { index: index_new(1024), names: Vec::new(), stats: Vec::new(), records: 0 };
        assert(t.view() =~= Map::<Seq<u8>, Summary>::empty());
        t
    }

    /// The number of records the table was built from.
    pub fn records(&self) -> (n: u64)
        ensures
            n == self.total(),
    {
        self.records
    }

    /// The number of stations in the table.
    pub fn len(&self) -> (n: usize)
        requires
            self.wf(),
        ensures
            n == self.slots(),
            n == self.view().dom().len(),
    {
        proof { self.lemma_dom_len(); }
        self.names.len()
    }

    pub proof fn lemma_dom_len(&self)
        requires
            self.wf(),
        ensures
            self.view().dom().len() == self.slots(),
    {
        let c = index_contents(self.index);
        let names = self.names@.map_values(|n: Vec<u8>| n@);
        assert forall|i: int, j: int| 0 <= i < names.len() && 0 <= j < names.len() && i != j
            implies names[i] != names[j] by {
            assert(c[self.names[i]@] == i);
            assert(c[self.names[j]@] == j);
        }
        names.unique_seq_to_set();
        assert(self.view().dom() =~= names.to_set()) by {
            assert forall|k: Seq<u8>| self.view().dom().contains(k) implies names.to_set().contains(k) by {
                assert(names[c[k] as int] == k);
            }
            assert forall|k: Seq<u8>| names.to_set().contains(k) implies self.view().dom().contains(k) by {
                let i = choose|i: int| 0 <= i < names.len() && names[i] == k;
                assert(c.contains_key(self.names[i]@));
            }
        }
    }

    /// The name and statistics in slot `i`.
    pub fn entry(&self, i: usize) -> (r: (&[u8], StationStats))
        requires
            self.wf(),
            i < self.slots(),
        ensures
            r.0@ == self.name_at(i as int),
            r.1@ == self.view()[self.name_at(i as int)],
            r.1.wf(),
    {
        (self.names[i].as_slice(), self.stats[i])
    }

    /// Folds `s`, the statistics of `name` from `bound`-limited counts, into
    /// the table; a new name gets a new slot.
    fn merge_entry(&mut self, name: &[u8], s: &StationStats, Ghost(bound): Ghost<nat>)
        requires
            old(self).inv(bound),
            s.wf(),
            old(self).view().contains_key(name@) ==> old(self).view()[name@].count + s.count <= bound,
            s.count <= bound,
            bound <= u64::MAX,
        ensures
            final(self).inv(bound),
            final(self).records == old(self).records,
            final(self).view() == old(self).view().insert(
                name@,
                if old(self).view().contains_key(name@) {
                    merge_summary(old(self).view()[name@], s@)
                } else {
                    s@
                },
            ),
    {
        let ghost c0 = index_contents(self.index);
        match index_get(&self.index, name) {
            Some(i) => {
                let mut cur = self.stats[i];
                assert(self.stats[i as int].wf());
                cur.merge(s);
                self.stats.set(i, cur);
                assert(self.view() =~= old(self).view().insert(name@, merge_summary(old(self).view()[name@], s@)));
            },
            None => {
                let i = self.names.len();
                index_insert(&mut self.index, slice_to_vec(name), i);
                self.names.push(slice_to_vec(name));
                self.stats.push(*s);
                let ghost c = index_contents(self.index);
                assert forall|k: Seq<u8>| #[trigger] c.contains_key(k) implies
                    c[k] < self.names.len() && self.names[c[k] as int]@ == k by {
                    if k != name@ {
                        assert(c0.contains_key(k));
                    }
                }
                assert forall|j: int| 0 <= j < self.names.len() implies
                    c.contains_key(#[trigger] self.names[j]@) && c[self.names[j]@] == j by {
                    if j < i {
                        assert(c0.contains_key(old(self).names[j]@));
                    }
                }
                assert(self.view() =~= old(self).view().insert(name@, s@));
            },
        }
    }

    /// Takes one more record of station `name` with reading `r` into account.
    pub fn add(&mut self, name: &[u8], r: i32)
        requires
            old(self).wf(),
            old(self).total() < u64::MAX,
            -MAX_READING <= r <= MAX_READING,
        ensures
            final(self).wf(),
            final(self).view() == add_record(old(self).view(), (name@, r as int)),
            final(self).total() == old(self).total() + 1,
    {
        let s = StationStats::new(r);
        let ghost bound = (self.records + 1) as nat;
        proof {
            self.lemma_slots();
            self.lemma_inv_weaken(self.records as nat, bound);
        }
        self.merge_entry(name, &s, Ghost(bound));
        self.records = self.records + 1;
        proof {
            let v0 = old(self).view();
            if v0.contains_key(name@) {
                assert(merge_summary(v0[name@], single(r as int)) == add_reading(v0[name@], r as int));
            }
        }
    }

    /// Distinct slots hold distinct names.
    pub proof fn lemma_names_distinct(&self)
        requires
            self.wf(),
        ensures
            forall|a: int, b: int| 0 <= a < self.slots() && 0 <= b < self.slots() && a != b ==>
                #[trigger] self.name_at(a) != #[trigger] self.name_at(b),
    {
        self.lemma_slots();
    }

    proof fn lemma_inv_weaken(&self, a: nat, b: nat)
        requires
            self.inv(a),
            a <= b,
        ensures
            self.inv(b),
    {
    }

    /// Folds every station of `other` into `self`.
    pub fn merge(&mut self, other: &StationTable)
        requires
            old(self).wf(),
            other.wf(),
            old(self).total() + other.total() <= u64::MAX,
        ensures
            final(self).wf(),
            final(self).view() == merge_maps(old(self).view(), other.view()),
            final(self).total() == old(self).total() + other.total(),
    {
        let ghost bound: nat = (self.records + other.records) as nat;
        let ghost v0 = self.view();
        let ghost ov = other.view();
        let ghost oc = index_contents(other.index);
        proof {
            self.lemma_slots();
            other.lemma_slots();
            self.lemma_inv_weaken(self.records as nat, bound);
        }
        let n = other.names.len();
        let mut i: usize = 0;
        while i < n
            invariant
                0 <= i <= n,
                n == other.names.len(),
                other.wf(),
                oc == index_contents(other.index),
                ov == other.view(),
                self.inv(bound),
                self.records == old(self).records,
                bound == old(self).records + other.records,
                bound <= u64::MAX,
                forall|k: Seq<u8>| #[trigger] v0.contains_key(k) ==> v0[k].count <= old(self).records,
                forall|k: Seq<u8>| #[trigger] ov.contains_key(k) ==> ov[k].count <= other.records,
                forall|k: Seq<u8>| #[trigger] self.view().contains_key(k) <==>
                    (v0.contains_key(k) || (oc.contains_key(k) && oc[k] < i)),
                forall|k: Seq<u8>| #[trigger] self.view().contains_key(k) ==> self.view()[k] == (
                    if oc.contains_key(k) && oc[k] < i {
                        if v0.contains_key(k) { merge_summary(v0[k], ov[k]) } else { ov[k] }
                    } else {
                        v0[k]
                    }),
            decreases n - i,
        {
            let (name, s) = other.entry(i);
            let ghost before = self.view();
            proof {
                assert(oc[name@] == i);
                if before.contains_key(name@) {
                    assert(before[name@] == v0[name@]);
                }
            }
            self.merge_entry(name, &s, Ghost(bound));
            i = i + 1;
            proof {
                let after = self.view();
                assert forall|k: Seq<u8>| #[trigger] after.contains_key(k) <==>
                    (v0.contains_key(k) || (oc.contains_key(k) && oc[k] < i)) by {
                    if oc.contains_key(k) && oc[k] == i - 1 {
                        assert(other.names[oc[k] as int]@ == k);
                    }
                }
                assert forall|k: Seq<u8>| #[trigger] after.contains_key(k) implies after[k] == (
                    if oc.contains_key(k) && oc[k] < i {
                        if v0.contains_key(k) { merge_summary(v0[k], ov[k]) } else { ov[k] }
                    } else {
                        v0[k]
                    }) by {
                    if oc.contains_key(k) && oc[k] == i - 1 {
                        assert(other.names[oc[k] as int]@ == k);
                    }
                }
            }
        }
        proof {
            let m = merge_maps(v0, ov);
            assert forall|k: Seq<u8>| #[trigger] oc.contains_key(k) implies oc[k] < n by {}
            assert forall|k: Seq<u8>| #[trigger] self.view().contains_key(k) <==> m.contains_key(k) by {
                assert(ov.contains_key(k) <==> oc.contains_key(k));
            }
            assert forall|k: Seq<u8>| #[trigger] self.view().contains_key(k) implies self.view()[k] == m[k] by {
                assert(ov.contains_key(k) <==> oc.contains_key(k));
            }
            assert(self.view() =~= m);
        }
        let ghost vb = self.view();
        self.records = self.records + other.records;
        assert(self.view() =~= vb);
    }
}

} // verus!
