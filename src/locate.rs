//! Binary search by identifier over a built index.
use vstd::prelude::*;

use crate::builder::{encode_records, index_bytes, lemma_encode_records_at, sorted_by_rsid};
use crate::codec::{
    MapRecord, RECORD_COUNTER_SIZE, RECORD_SIZE, get_map_seek_index, lemma_record_round_trip,
    lemma_u64_round_trip, read_record_at, read_u32_at, record_from, seek_index, u64_be_bytes,
    u64_from_be,
};

verus! {

/// Record `i` of an index file.
pub open spec fn index_record(index: Seq<u8>, i: int) -> MapRecord {
    record_from(index, seek_index(i))
}

/// The first `count` records of the index are in non-decreasing order of identifier.
pub open spec fn index_sorted(index: Seq<u8>, count: int) -> bool {
    forall|i: int, j: int|
        0 <= i <= j < count ==> (#[trigger] index_record(index, i)).rsid <= (#[trigger] index_record(
            index,
            j,
        )).rsid
}

/// What a lookup of `target` among the first `count` records may return: a
/// record with that identifier, or nothing exactly when none has it.
pub open spec fn lookup_result(index: Seq<u8>, count: int, target: u32, r: Option<MapRecord>) -> bool {
    match r {
        None => forall|i: int| 0 <= i < count ==> (#[trigger] index_record(index, i)).rsid != target,
        Some(m) => m.rsid == target && exists|i: int|
            0 <= i < count && #[trigger] index_record(index, i) == m,
    }
}

/// The first of the first `count` records that has identifier `target`.
pub open spec fn linear_scan(index: Seq<u8>, count: int, target: u32) -> Option<MapRecord>
    decreases count,
{
    if count <= 0 {
        None
    } else {
        match linear_scan(index, count - 1, target) {
            Some(m) => Some(m),
            None => if index_record(index, count - 1).rsid == target {
                Some(index_record(index, count - 1))
            } else {
                None
            },
        }
    }
}

/// The state of a search for the first record whose identifier is not
/// smaller than the one sought: that record lies in `[lo, hi]`.
#[derive(Clone, Copy, Debug, PartialEq, Eq, Structural)]
pub struct Search {
    pub lo: u64,
    pub hi: u64,
}

pub open spec fn middle(lo: u64, hi: u64) -> u64 {
    (lo + (hi - lo) / 2) as u64
}

impl Search {
    /// A search over records `0 .. count`.
    pub fn new(count: u64) -> (r: Search)
        ensures
            r.lo == 0,
            r.hi == count,
    {
        Search { lo: 0, hi: count }
    }

    /// The record to compare next, or `None` once `lo` and `hi` meet.
    pub fn probe(&self) -> (r: Option<u64>)
        ensures
            r == if self.lo < self.hi {
                Some(middle(self.lo, self.hi))
            } else {
                None
            },
    {
        if self.lo < self.hi {
            Some(self.lo + (self.hi - self.lo) / 2)
        } else {
            None
        }
    }

    /// Takes in the identifier `stored` of the probed record and keeps the
    /// half of the range where the first record not smaller than `target` lies.
    pub fn narrow(&mut self, stored: u32, target: u32)
        requires
            old(self).lo < old(self).hi,
        ensures
            stored < target ==> final(self).lo == middle(old(self).lo, old(self).hi) + 1
                && final(self).hi == old(self).hi,
            stored >= target ==> final(self).lo == old(self).lo && final(self).hi == middle(
                old(self).lo,
                old(self).hi,
            ),
    {
        let mid = self.lo + (self.hi - self.lo) / 2;
        if stored < target {
            self.lo = mid + 1;
        } else {
            self.hi = mid;
        }
    }

    /// Once the probes are done, the one record that may hold the identifier
    /// sought, if it lies among the `count` records.
    pub fn candidate(&self, count: u64) -> (r: Option<u64>)
        ensures
            r == if self.lo < count {
                Some(self.lo)
            } else {
                None
            },
    {
        if self.lo < count {
            Some(self.lo)
        } else {
            None
        }
    }

    /// The outcome of the search, given the record `at_lo` read at the
    /// candidate place (`None` where there is no candidate): that record if
    /// it has identifier `target`, else nothing.
    pub fn finish(&self, count: u64, at_lo: Option<MapRecord>, target: u32) -> (r: Option<MapRecord>)
        ensures
            r == if self.lo < count && at_lo is Some && at_lo->Some_0.rsid == target {
                at_lo
            } else {
                None
            },
    {
        if self.lo < count {
            match at_lo {
                Some(m) => if m.rsid == target {
                    Some(m)
                } else {
                    None
                },
                None => None,
            }
        } else {
            None
        }
    }
}

/// A linear scan finds the first record with the identifier, where one has it.
proof fn lemma_scan_first(index: Seq<u8>, count: int, target: u32, k: int)
    requires
        0 <= k < count,
        index_record(index, k).rsid == target,
        forall|i: int| 0 <= i < k ==> (#[trigger] index_record(index, i)).rsid != target,
    ensures
        linear_scan(index, count, target) == Some(index_record(index, k)),
    decreases count,
{
    if count - 1 > k {
        lemma_scan_first(index, count - 1, target, k);
    } else {
        lemma_scan(index, k, target);
    }
}

/// Looks up `rsid` among the `count` records of an index held in memory, by
/// binary search; of several records with that identifier it finds the first.
pub fn lookup(index: &[u8], count: u64, rsid: u32) -> (r: Option<MapRecord>)
    requires
        seek_index(count as int) <= index@.len(),
        index_sorted(index@, count as int),
    ensures
        r == linear_scan(index@, count as int, rsid),
        lookup_result(index@, count as int, rsid, r),
{
    let _len = index.len();
    let mut search = Search::new(count);
    proof {
        lemma_scan(index@, count as int, rsid);
    }
    loop
        invariant
            search.lo <= search.hi <= count,
            seek_index(count as int) <= index@.len(),
            index@.len() <= usize::MAX,
            index_sorted(index@, count as int),
            lookup_result(index@, count as int, rsid, linear_scan(index@, count as int, rsid)),
            forall|i: int| 0 <= i < search.lo ==> (#[trigger] index_record(index@, i)).rsid < rsid,
            forall|i: int|
                search.hi <= i < count ==> (#[trigger] index_record(index@, i)).rsid >= rsid,
        ensures
            search.lo == search.hi,
            search.hi <= count,
            forall|i: int| 0 <= i < search.lo ==> (#[trigger] index_record(index@, i)).rsid < rsid,
            forall|i: int|
                search.hi <= i < count ==> (#[trigger] index_record(index@, i)).rsid >= rsid,
        decreases search.hi - search.lo,
    {
        let mid = match search.probe() {
            Some(m) => m,
            None => break,
        };
        let stored = read_u32_at(index, get_map_seek_index(mid) as usize);
        let ghost before = search;
        search.narrow(stored, rsid);
        proof {
            if stored < rsid {
                assert forall|i: int| 0 <= i < search.lo implies (#[trigger] index_record(
                    index@,
                    i,
                )).rsid < rsid by {
                    if i >= before.lo {
                        assert(index_record(index@, i).rsid <= index_record(index@, mid as int).rsid);
                    }
                }
            } else {
                assert forall|i: int| search.hi <= i < count implies (#[trigger] index_record(
                    index@,
                    i,
                )).rsid >= rsid by {
                    if i < before.hi {
                        assert(index_record(index@, mid as int).rsid <= index_record(index@, i).rsid);
                    }
                }
            }
        }
    }
    let at_lo = match search.candidate(count) {
        Some(first) => Some(read_record_at(index, get_map_seek_index(first) as usize)),
        None => None,
    };
    let r = search.finish(count, at_lo, rsid);
    proof {
        let first = search.lo;
        if first < count {
            if index_record(index@, first as int).rsid == rsid {
                lemma_scan_first(index@, count as int, rsid, first as int);
            } else {
                assert forall|i: int| first <= i < count implies (#[trigger] index_record(
                    index@,
                    i,
                )).rsid != rsid by {
                    assert(index_record(index@, first as int).rsid <= index_record(index@, i).rsid);
                }
            }
        }
    }
    r
}

/// A built index holds its record count in its first eight bytes, then
/// exactly that many nine-byte records, each as it was given.
pub proof fn lemma_index_layout(recs: Seq<MapRecord>)
    requires
        recs.len() <= u64::MAX,
    ensures
        index_bytes(recs).len() == RECORD_COUNTER_SIZE + RECORD_SIZE * recs.len(),
        u64_from_be(index_bytes(recs), 0) == recs.len(),
        forall|i: int| 0 <= i < recs.len() ==> #[trigger] index_record(index_bytes(recs), i) == recs[i],
{
    let b = index_bytes(recs);
    crate::builder::lemma_encode_records_len(recs);
    assert(b.subrange(0, 8) =~= u64_be_bytes(recs.len() as u64));
    lemma_u64_round_trip(recs.len() as u64, b, 0);
    assert forall|i: int| 0 <= i < recs.len() implies #[trigger] index_record(b, i) == recs[i] by {
        lemma_encode_records_at(recs, i);
        assert(b.subrange(8 + 9 * i, 8 + 9 * i + 9) =~= encode_records(recs).subrange(
            9 * i,
            9 * i + 9,
        ));
        lemma_record_round_trip(recs[i], b, 8 + 9 * i);
    }
}

/// An index built from records in order of identifier is sorted, so it can
/// be searched.
pub proof fn lemma_built_index_sorted(recs: Seq<MapRecord>)
    requires
        recs.len() <= u64::MAX,
        sorted_by_rsid(recs),
    ensures
        index_sorted(index_bytes(recs), recs.len() as int),
{
    lemma_index_layout(recs);
    assert forall|i: int, j: int| 0 <= i <= j < recs.len() implies (#[trigger] index_record(
        index_bytes(recs),
        i,
    )).rsid <= (#[trigger] index_record(index_bytes(recs), j)).rsid by {
        assert(index_record(index_bytes(recs), i) == recs[i]);
        assert(index_record(index_bytes(recs), j) == recs[j]);
    }
}

/// What a linear scan finds: nothing exactly when no record has the
/// identifier, and otherwise one of the records that has it.
pub proof fn lemma_scan(index: Seq<u8>, count: int, target: u32)
    requires
        0 <= count,
    ensures
        lookup_result(index, count, target, linear_scan(index, count, target)),
    decreases count,
{
    if count > 0 {
        lemma_scan(index, count - 1, target);
        if let Some(m) = linear_scan(index, count - 1, target) {
            let i = choose|i: int| 0 <= i < count - 1 && #[trigger] index_record(index, i) == m;
            assert(0 <= i < count && index_record(index, i) == m);
        } else {
            assert(index_record(index, count - 1) == index_record(index, count - 1));
        }
    }
}

/// Every record of an index built from records with distinct identifiers is
/// found again, whole, by a lookup of its identifier.
pub proof fn lemma_round_trip(recs: Seq<MapRecord>, i: int)
    requires
        recs.len() <= u64::MAX,
        0 <= i < recs.len(),
        forall|a: int, b: int| 0 <= a < b < recs.len() ==> recs[a].rsid != recs[b].rsid,
    ensures
        linear_scan(index_bytes(recs), recs.len() as int, recs[i].rsid) == Some(recs[i]),
{
    let r = linear_scan(index_bytes(recs), recs.len() as int, recs[i].rsid);
    lemma_scan(index_bytes(recs), recs.len() as int, recs[i].rsid);
    lemma_index_layout(recs);
    let b = index_bytes(recs);
    assert(index_record(b, i) == recs[i]);
    if let Some(m) = r {
        let j = choose|j: int| 0 <= j < recs.len() && #[trigger] index_record(b, j) == m;
        assert(index_record(b, j) == recs[j]);
        if i < j {
            assert(recs[i].rsid != recs[j].rsid);
        } else if j < i {
            assert(recs[j].rsid != recs[i].rsid);
        }
    }
}

/// An index of one record finds that record by its identifier and nothing
/// for any other identifier.
pub proof fn lemma_single_record(rec: MapRecord, target: u32)
    ensures
        linear_scan(index_bytes(seq![rec]), 1, target) == if target == rec.rsid {
            Some(rec)
        } else {
            None::<MapRecord>
        },
{
    lemma_scan(index_bytes(seq![rec]), 1, target);
    lemma_index_layout(seq![rec]);
    assert(index_record(index_bytes(seq![rec]), 0) == rec);
}

} // verus!
