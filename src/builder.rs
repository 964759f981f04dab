//! Building an index from rows of identifier and locus fields.
use vstd::prelude::*;
use vstd::string::StrSliceExecFns;

use crate::codec::{
    MapRecord, RECORD_SIZE, push_u64_be, record_bytes, u64_be_bytes,
    write_map_record,
};
use crate::text::{FormatError, chrom_code_of, is_chrom_code, chrom_to_u8, parse_u32, parse_u32_spec, rsid_of, rsid_to_u32};

verus! {

/// Why a row stopped the build.
#[derive(Clone, Copy, Debug, PartialEq, Eq, Structural)]
pub enum BuildError {
    /// A field of the row could not be read.
    Malformed(FormatError),
    /// The row's identifier is smaller than the one before it.
    Unsorted,
}

/// `k` is the place of the first `:` in `s`.
pub open spec fn first_colon(s: Seq<char>, k: int) -> bool {
    0 <= k < s.len() && s[k] == ':' && forall|j: int| 0 <= j < k ==> s[j] != ':'
}

/// The record that a row of fields `[identifier, "label:position", ...]` denotes.
pub open spec fn parse_row(fields: Seq<Seq<char>>) -> Result<MapRecord, FormatError> {
    if fields.len() < 2 {
        Err(FormatError::MissingField)
    } else {
        match rsid_of(fields[0]) {
            Err(e) => Err(e),
            Ok(rsid) => {
                let locus = fields[1];
                if exists|k: int| first_colon(locus, k) {
                    let k = choose|k: int| first_colon(locus, k);
                    match chrom_code_of(locus.take(k)) {
                        Err(e) => Err(e),
                        Ok(chrom) => match parse_u32_spec(locus.skip(k + 1)) {
                            None => Err(FormatError::BadPosition),
                            Some(pos) => Ok(MapRecord { rsid, chrom, pos }),
                        },
                    }
                } else {
                    Err(FormatError::MissingField)
                }
            },
        }
    }
}

/// What stops the build at row `i`, given that the rows before it passed.
pub open spec fn row_error(rows: Seq<Seq<Seq<char>>>, i: int) -> Option<BuildError> {
    match parse_row(rows[i]) {
        Err(e) => Some(BuildError::Malformed(e)),
        Ok(r) => if i > 0 && r.rsid < parse_row(rows[i - 1])->Ok_0.rsid {
            Some(BuildError::Unsorted)
        } else {
            None
        },
    }
}

/// The first `n` rows all pass.
pub open spec fn rows_pass(rows: Seq<Seq<Seq<char>>>, n: int) -> bool {
    forall|i: int| 0 <= i < n ==> (#[trigger] row_error(rows, i)) is None
}

/// The records of the first `n` rows.
pub open spec fn records_of(rows: Seq<Seq<Seq<char>>>, n: int) -> Seq<MapRecord> {
    Seq::new(n as nat, |i: int| parse_row(rows[i])->Ok_0)
}

pub open spec fn sorted_by_rsid(recs: Seq<MapRecord>) -> bool {
    forall|i: int, j: int| 0 <= i <= j < recs.len() ==> recs[i].rsid <= recs[j].rsid
}

/// The bytes of a sequence of records, one after the other.
pub open spec fn encode_records(recs: Seq<MapRecord>) -> Seq<u8>
    decreases recs.len(),
{
    if recs.len() == 0 {
        Seq::empty()
    } else {
        encode_records(recs.drop_last()) + record_bytes(recs.last())
    }
}

/// A whole index file: the record count, then the records.
pub open spec fn index_bytes(recs: Seq<MapRecord>) -> Seq<u8> {
    u64_be_bytes(recs.len() as u64) + encode_records(recs)
}

/// A row that parses names one of the known chromosome codes.
pub proof fn lemma_parsed_chrom_valid(fields: Seq<Seq<char>>)
    requires
        parse_row(fields) is Ok,
    ensures
        is_chrom_code(parse_row(fields)->Ok_0.chrom),
{
    let locus = fields[1];
    let k = choose|k: int| first_colon(locus, k);
    let label = locus.take(k);
    assert(chrom_code_of(label) is Ok);
    assert(exists|c: u8| is_chrom_code(c) && crate::text::chrom_label(c) == label);
}

/// Rows that pass give records in non-decreasing order of identifier.
pub proof fn lemma_rows_pass_sorted(rows: Seq<Seq<Seq<char>>>, n: int)
    requires
        0 <= n <= rows.len(),
        rows_pass(rows, n),
    ensures
        sorted_by_rsid(records_of(rows, n)),
    decreases n,
{
    if n > 0 {
        lemma_rows_pass_sorted(rows, n - 1);
        let recs = records_of(rows, n);
        let prev = records_of(rows, n - 1);
        assert forall|i: int, j: int| 0 <= i <= j < recs.len() implies recs[i].rsid
            <= recs[j].rsid by {
            assert(row_error(rows, j) is None);
            if j < n - 1 {
                assert(recs[i] == prev[i] && recs[j] == prev[j]);
            } else if i < j {
                assert(row_error(rows, n - 1) is None);
                assert(recs[i] == prev[i] && prev[n - 2] == recs[n - 2]);
            }
        }
    }
}

/// Record `i` of a sequence is stored in the nine bytes at `9 * i`.
pub proof fn lemma_encode_records_at(recs: Seq<MapRecord>, i: int)
    requires
        0 <= i < recs.len(),
    ensures
        encode_records(recs).len() == RECORD_SIZE * recs.len(),
        encode_records(recs).subrange(RECORD_SIZE * i, RECORD_SIZE * i + RECORD_SIZE)
            == record_bytes(recs[i]),
    decreases recs.len(),
{
    lemma_encode_records_len(recs);
    let e = encode_records(recs);
    let init = recs.drop_last();
    lemma_encode_records_len(init);
    if i < recs.len() - 1 {
        lemma_encode_records_at(init, i);
        assert(e.subrange(9 * i, 9 * i + 9) =~= encode_records(init).subrange(9 * i, 9 * i + 9));
    } else {
        assert(e.subrange(9 * i, 9 * i + 9) =~= record_bytes(recs.last()));
    }
}

/// A sequence of records takes nine bytes per record.
pub proof fn lemma_encode_records_len(recs: Seq<MapRecord>)
    ensures
        encode_records(recs).len() == RECORD_SIZE * recs.len(),
    decreases recs.len(),
{
    if recs.len() > 0 {
        lemma_encode_records_len(recs.drop_last());
    }
}

/// Reads one row `[identifier, "label:position", ...]` into a record.
pub fn parse_map_record(fields: &Vec<String>) -> (r: Result<MapRecord, FormatError>)
    ensures
        r == parse_row(fields.deep_view()),
{
    let ghost dv = fields.deep_view();
    if fields.len() < 2 {
        return Err(FormatError::MissingField);
    }
    assert(fields[0]@ == dv[0] && fields[1]@ == dv[1]);
    let rsid = match rsid_to_u32(fields[0].as_str()) {
        Ok(v) => v,
        Err(e) => return Err(e),
    };
    let locus = fields[1].as_str();
    let n = locus.unicode_len();
    let mut k: usize = 0;
    while k < n && locus.get_char(k) != ':'
        invariant
            k <= n,
            n == locus@.len(),
            dv.len() >= 2,
            locus@ == dv[1],
            forall|j: int| 0 <= j < k ==> locus@[j] != ':',
        decreases n - k,
    {
        k = k + 1;
    }
    if k == n {
        assert(!exists|j: int| first_colon(locus@, j));
        return Err(FormatError::MissingField);
    }
    assert(first_colon(locus@, k as int));
    proof {
        let c = choose|j: int| first_colon(locus@, j);
        if c < k {
        } else if c > k {
        }
        assert(c == k);
    }
    let chrom = match chrom_to_u8(locus.substring_char(0, k)) {
        Ok(c) => c,
        Err(e) => return Err(e),
    };
    match parse_u32(locus.substring_char(k + 1, n)) {
        Some(pos) => Ok(MapRecord { rsid, chrom, pos }),
        None => Err(FormatError::BadPosition),
    }
}

/// Encodes rows one at a time, in order, and checks that their identifiers
/// never decrease.
pub struct IndexBuilder {
    last_rsid: u32,
    num_records: u64,
    records: Ghost<Seq<MapRecord>>,
}

impl IndexBuilder {
    /// The records accepted so far, in order.
    pub closed spec fn records(&self) -> Seq<MapRecord> {
        self.records@
    }

    pub closed spec fn wf(&self) -> bool {
        &&& self.num_records == self.records@.len()
        &&& sorted_by_rsid(self.records@)
        &&& self.records@.len() > 0 ==> self.last_rsid == self.records@.last().rsid
    }

    /// A builder that has accepted no record.
    pub fn new() -> (r: IndexBuilder)
        ensures
            r.wf(),
            r.records() == Seq::<MapRecord>::empty(),
    {
        IndexBuilder { last_rsid: 0, num_records: 0, records: Ghost(Seq::empty()) }
    }

    /// How many records were accepted.
    pub fn num_records(&self) -> (r: u64)
        requires
            self.wf(),
        ensures
            r == self.records().len(),
    {
        self.num_records
    }

    /// The header of an index holding the records accepted so far.
    pub fn header(&self) -> (r: Vec<u8>)
        requires
            self.wf(),
        ensures
            r@ == u64_be_bytes(self.records().len() as u64),
    {
        let mut r: Vec<u8> = Vec::new();
        push_u64_be(&mut r, self.num_records);
        assert(r@ =~= u64_be_bytes(self.records().len() as u64));
        r
    }

    /// Reads one row and, if it is well formed and its identifier is not
    /// smaller than the last one, appends its nine bytes to `out`.
    /// On an error neither the builder nor `out` changes.
    pub fn add_row(&mut self, fields: &Vec<String>, out: &mut Vec<u8>) -> (r: Result<(), BuildError>)
        requires
            old(self).wf(),
            old(self).records().len() < u64::MAX,
        ensures
            final(self).wf(),
            match parse_row(fields.deep_view()) {
                Err(e) => r == Err::<(), BuildError>(BuildError::Malformed(e))
                    && final(self).records() == old(self).records() && final(out)@ == old(out)@,
                Ok(rec) => if old(self).records().len() > 0 && rec.rsid < old(
                    self,
                ).records().last().rsid {
                    r == Err::<(), BuildError>(BuildError::Unsorted) && final(self).records()
                        == old(self).records() && final(out)@ == old(out)@
                } else {
                    r == Ok::<(), BuildError>(()) && final(self).records() == old(
                        self,
                    ).records().push(rec) && final(out)@ == old(out)@ + record_bytes(rec)
                },
            },
    {
        let rec = match parse_map_record(fields) {
            Ok(rec) => rec,
            Err(e) => return Err(BuildError::Malformed(e)),
        };
        if self.num_records > 0 && rec.rsid < self.last_rsid {
            return Err(BuildError::Unsorted);
        }
        write_map_record(out, rec.rsid, rec.chrom, rec.pos);
        proof {
            let old_recs = self.records@;
            let recs = old_recs.push(rec);
            assert forall|i: int, j: int| 0 <= i <= j < recs.len() implies recs[i].rsid
                <= recs[j].rsid by {
                if j == recs.len() - 1 && i < j {
                    assert(recs[i] == old_recs[i]);
                }
            }
            self.records = Ghost(recs);
        }
        self.last_rsid = rec.rsid;
        self.num_records = self.num_records + 1;
        Ok(())
    }
}

/// Encodes every row into `out`, in order, and returns how many there were.
/// The build stops at the first row that is malformed or whose identifier is
/// smaller than the one before; `out` then holds the rows before it, and the
/// error comes with that row's place.
pub fn write_map_records(rows: &Vec<Vec<String>>, out: &mut Vec<u8>) -> (r: Result<
    u64,
    (usize, BuildError),
>)
    ensures
        match r {
            Ok(n) => n == rows.len() && rows_pass(rows.deep_view(), rows.len() as int)
                && final(out)@ == old(out)@ + encode_records(
                records_of(rows.deep_view(), rows.len() as int),
            ),
            Err((i, e)) => i < rows.len() && rows_pass(rows.deep_view(), i as int) && row_error(
                rows.deep_view(),
                i as int,
            ) == Some(e) && final(out)@ == old(out)@ + encode_records(
                records_of(rows.deep_view(), i as int),
            ),
        },
{
    let ghost dv = rows.deep_view();
    let ghost start = out@;
    let mut builder = IndexBuilder::new();
    let mut i: usize = 0;
    assert(records_of(dv, 0) =~= Seq::<MapRecord>::empty());
    while i < rows.len()
        invariant
            i <= rows.len(),
            dv == rows.deep_view(),
            dv.len() == rows.len(),
            builder.wf(),
            builder.records() == records_of(dv, i as int),
            rows_pass(dv, i as int),
            out@ == start + encode_records(records_of(dv, i as int)),
            start == old(out)@,
        decreases rows.len() - i,
    {
        let ghost before = out@;
        assert(rows[i as int].deep_view() == dv[i as int]);
        let res = builder.add_row(&rows[i], out);
        proof {
            let prev = records_of(dv, i as int);
            let next = records_of(dv, i + 1);
            if i > 0 {
                assert(prev.last() == parse_row(dv[i - 1])->Ok_0);
            }
            assert(prev.len() == i);
            if res is Err {
                assert(out@ == before);
                assert(row_error(dv, i as int) == Some(res->Err_0));
            }
            if res is Ok {
                assert(next =~= prev.push(parse_row(dv[i as int])->Ok_0));
                assert(next.drop_last() =~= prev);
                assert(out@ =~= start + encode_records(next));
                assert forall|j: int| 0 <= j < i + 1 implies (#[trigger] row_error(dv, j)) is None by {
                    if j < i {
                        assert(row_error(dv, j) is None);
                    }
                }
            }
        }
        match res {
            Ok(()) => {},
            Err(e) => {
                assert(out@ == old(out)@ + encode_records(records_of(dv, i as int)));
                return Err((i, e));
            },
        }
        i = i + 1;
    }
    Ok(i as u64)
}

/// The whole index of the rows: the record count, big-endian, then each
/// row's record. Fails as `write_map_records` does.
pub fn create_map(rows: &Vec<Vec<String>>) -> (r: Result<Vec<u8>, (usize, BuildError)>)
    ensures
        match r {
            Ok(bytes) => rows_pass(rows.deep_view(), rows.len() as int) && bytes@ == index_bytes(
                records_of(rows.deep_view(), rows.len() as int),
            ),
            Err((i, e)) => i < rows.len() && rows_pass(rows.deep_view(), i as int) && row_error(
                rows.deep_view(),
                i as int,
            ) == Some(e),
        },
{
    let mut records: Vec<u8> = Vec::new();
    let n = match write_map_records(rows, &mut records) {
        Ok(n) => n,
        Err(e) => return Err(e),
    };
    let mut bytes: Vec<u8> = Vec::new();
    push_u64_be(&mut bytes, n);
    let mut j: usize = 0;
    let ghost header = bytes@;
    while j < records.len()
        invariant
            j <= records.len(),
            bytes@ == header + records@.take(j as int),
        decreases records.len() - j,
    {
        bytes.push(records[j]);
        assert(records@.take(j + 1) =~= records@.take(j as int).push(records@[j as int]));
        j = j + 1;
    }
    assert(records@.take(j as int) =~= records@);
    assert(records@ =~= Seq::<u8>::empty() + records@);
    Ok(bytes)
}

} // verus!
