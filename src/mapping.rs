//! Rewriting rows: the leading identifier becomes its locus.
use vstd::prelude::*;
use vstd::string::StringExecFns;

use crate::codec::{MapRecord, RECORD_COUNTER_SIZE, read_u64_at, seek_index, u64_from_be};
use crate::builder::{
    index_bytes, lemma_parsed_chrom_valid, lemma_rows_pass_sorted, records_of, row_error,
    rows_pass,
};
use crate::locate::{index_record, index_sorted, lemma_scan, linear_scan, lemma_built_index_sorted, lemma_index_layout, lookup};
use crate::text::{
    FormatError, chrom_label, decimal_string, decimal_to_string, is_chrom_code, rsid_of,
    rsid_to_u32, u8_to_chrom,
};

verus! {

/// Why a row could not be rewritten.
#[derive(Clone, Copy, Debug, PartialEq, Eq, Structural)]
pub enum MapError {
    /// The row has no identifier field, or it cannot be read.
    Malformed(FormatError),
    /// No record of the index has this identifier.
    NotFound(u32),
    /// The record found holds this chromosome code, which is none of the known ones.
    BadCode(u8),
}

/// The text `"<chromosome-label>:<position>"` of a record.
pub open spec fn locus_text(m: MapRecord) -> Seq<char> {
    chrom_label(m.chrom) + seq![':'] + decimal_string(m.pos as nat)
}

/// A row with its first field replaced by the locus of `m`.
pub open spec fn remapped(fields: Seq<Seq<char>>, m: MapRecord) -> Seq<Seq<char>> {
    seq![locus_text(m)] + fields.skip(1)
}

/// The header of `index` is followed by that many records, sorted by identifier.
pub open spec fn index_well_formed(index: Seq<u8>) -> bool {
    &&& RECORD_COUNTER_SIZE <= index.len()
    &&& seek_index(u64_from_be(index, 0) as int) <= index.len()
    &&& index_sorted(index, u64_from_be(index, 0) as int)
}

/// The index built from rows that all pass is well formed, so rows can be
/// rewritten against it, and its header holds the number of rows.
pub proof fn lemma_built_index_well_formed(rows: Seq<Seq<Seq<char>>>)
    requires
        rows.len() <= u64::MAX,
        rows_pass(rows, rows.len() as int),
    ensures
        index_well_formed(index_bytes(records_of(rows, rows.len() as int))),
        u64_from_be(index_bytes(records_of(rows, rows.len() as int)), 0) == rows.len(),
{
    let recs = records_of(rows, rows.len() as int);
    lemma_rows_pass_sorted(rows, rows.len() as int);
    lemma_index_layout(recs);
    lemma_built_index_sorted(recs);
}

/// What rewriting the row `fields` against the first `count` records gives:
/// its identifier is looked up as a linear scan would, and the first field
/// becomes the locus of the first record with that identifier.
pub open spec fn mapped_row(index: Seq<u8>, count: int, fields: Seq<Seq<char>>) -> Result<
    Seq<Seq<char>>,
    MapError,
> {
    if fields.len() == 0 {
        Err(MapError::Malformed(FormatError::MissingField))
    } else {
        match rsid_of(fields[0]) {
            Err(e) => Err(MapError::Malformed(e)),
            Ok(id) => match linear_scan(index, count, id) {
                None => Err(MapError::NotFound(id)),
                Some(m) => if is_chrom_code(m.chrom) {
                    Ok(remapped(fields, m))
                } else {
                    Err(MapError::BadCode(m.chrom))
                },
            },
        }
    }
}

/// Over an index built from rows that all pass, a row whose identifier is
/// stored is rewritten, with the locus of the record that a linear scan finds
/// first for that identifier.
pub proof fn lemma_map_agrees_with_scan(rows: Seq<Seq<Seq<char>>>, fields: Seq<Seq<char>>, k: int)
    requires
        rows.len() <= u64::MAX,
        rows_pass(rows, rows.len() as int),
        0 <= k < rows.len(),
        fields.len() >= 1,
        rsid_of(fields[0]) == Ok::<u32, FormatError>(
            records_of(rows, rows.len() as int)[k].rsid,
        ),
    ensures
        ({
            let recs = records_of(rows, rows.len() as int);
            let b = index_bytes(recs);
            let m = linear_scan(b, rows.len() as int, recs[k].rsid);
            &&& m is Some
            &&& m->Some_0.rsid == recs[k].rsid
            &&& mapped_row(b, rows.len() as int, fields) == Ok::<Seq<Seq<char>>, MapError>(
                remapped(fields, m->Some_0),
            )
        }),
{
    let n = rows.len() as int;
    let recs = records_of(rows, n);
    let b = index_bytes(recs);
    let id = recs[k].rsid;
    lemma_index_layout(recs);
    lemma_scan(b, n, id);
    assert(index_record(b, k) == recs[k]);
    let m = linear_scan(b, n, id);
    assert(m is Some);
    let j = choose|j: int| 0 <= j < n && #[trigger] index_record(b, j) == m->Some_0;
    assert(index_record(b, j) == recs[j]);
    assert(row_error(rows, j) is None);
    lemma_parsed_chrom_valid(rows[j]);
}

/// The text `"<chromosome-label>:<position>"` of a record; a chromosome code
/// outside 1 to 25 is an error.
pub fn format_locus(rec: MapRecord) -> (r: Result<String, FormatError>)
    ensures
        match r {
            Ok(s) => is_chrom_code(rec.chrom) && s@ == locus_text(rec),
            Err(e) => !is_chrom_code(rec.chrom) && e == FormatError::BadChromosome,
        },
{
    let mut s = match u8_to_chrom(rec.chrom) {
        Ok(s) => s,
        Err(e) => return Err(e),
    };
    proof { reveal_strlit(":"); }
    s.append(":");
    let p = decimal_to_string(rec.pos);
    s.append(p.as_str());
    assert(s@ =~= locus_text(rec));
    Ok(s)
}

/// The row with its first field replaced by the locus of `rec`, the other
/// fields kept in order.
pub fn remap_row(fields: &Vec<String>, rec: MapRecord) -> (r: Result<Vec<String>, FormatError>)
    requires
        fields.len() >= 1,
    ensures
        match r {
            Ok(out) => is_chrom_code(rec.chrom) && out.deep_view() == remapped(
                fields.deep_view(),
                rec,
            ),
            Err(e) => !is_chrom_code(rec.chrom) && e == FormatError::BadChromosome,
        },
{
    let locus = match format_locus(rec) {
        Ok(s) => s,
        Err(e) => return Err(e),
    };
    let mut out: Vec<String> = Vec::new();
    out.push(locus);
    let mut k: usize = 1;
    while k < fields.len()
        invariant
            1 <= k <= fields.len(),
            out.deep_view() == seq![locus_text(rec)] + fields.deep_view().subrange(1, k as int),
        decreases fields.len() - k,
    {
        let f = fields[k].clone();
        let ghost before = out.deep_view();
        out.push(f);
        assert(out.deep_view() =~= before.push(fields[k as int]@));
        assert(fields.deep_view().subrange(1, k + 1) =~= fields.deep_view().subrange(
            1,
            k as int,
        ).push(fields[k as int]@));
        k = k + 1;
    }
    assert(fields.deep_view().subrange(1, k as int) =~= fields.deep_view().skip(1));
    Ok(out)
}

/// Rewrites one row against the first `count` records of `index`: its first
/// field, an identifier, becomes the locus of the record with that identifier.
pub fn map_row(index: &[u8], count: u64, fields: &Vec<String>) -> (r: Result<Vec<String>, MapError>)
    requires
        seek_index(count as int) <= index@.len(),
        index_sorted(index@, count as int),
    ensures
        mapped_row(index@, count as int, fields.deep_view()) == match r {
            Ok(v) => Ok(v.deep_view()),
            Err(e) => Err::<Seq<Seq<char>>, MapError>(e),
        },
{
    if fields.len() == 0 {
        return Err(MapError::Malformed(FormatError::MissingField));
    }
    assert(fields.deep_view()[0] == fields[0]@);
    let rsid = match rsid_to_u32(fields[0].as_str()) {
        Ok(v) => v,
        Err(e) => return Err(MapError::Malformed(e)),
    };
    let rec = match lookup(index, count, rsid) {
        Some(rec) => rec,
        None => return Err(MapError::NotFound(rsid)),
    };
    match remap_row(fields, rec) {
        Ok(out) => Ok(out),
        Err(_) => Err(MapError::BadCode(rec.chrom)),
    }
}

/// Rewrites every row against a whole index file held in memory; the run
/// stops at the first row that cannot be rewritten, with that row's place.
/// Each row is rewritten on its own, whatever the rows around it.
pub fn map_to_loci(index: &[u8], rows: &Vec<Vec<String>>) -> (r: Result<
    Vec<Vec<String>>,
    (usize, MapError),
>)
    requires
        index_well_formed(index@),
    ensures
        match r {
            Ok(out) => out.len() == rows.len() && forall|i: int|
                0 <= i < rows.len() ==> mapped_row(
                    index@,
                    u64_from_be(index@, 0) as int,
                    #[trigger] rows.deep_view()[i],
                ) == Ok::<Seq<Seq<char>>, MapError>(out.deep_view()[i]),
            Err((i, e)) => i < rows.len() && (forall|j: int|
                0 <= j < i ==> (#[trigger] mapped_row(
                    index@,
                    u64_from_be(index@, 0) as int,
                    rows.deep_view()[j],
                )) is Ok) && mapped_row(
                index@,
                u64_from_be(index@, 0) as int,
                rows.deep_view()[i as int],
            ) == Err::<Seq<Seq<char>>, MapError>(e),
        },
{
    let count = read_u64_at(index, 0);
    let mut out: Vec<Vec<String>> = Vec::new();
    let mut i: usize = 0;
    while i < rows.len()
        invariant
            i <= rows.len(),
            count == u64_from_be(index@, 0),
            index_well_formed(index@),
            out.len() == i,
            forall|j: int|
                0 <= j < i ==> mapped_row(index@, count as int, #[trigger] rows.deep_view()[j])
                    == Ok::<Seq<Seq<char>>, MapError>(out.deep_view()[j]),
        decreases rows.len() - i,
    {
        assert(rows.deep_view()[i as int] == rows[i as int].deep_view());
        match map_row(index, count, &rows[i]) {
            Ok(row) => {
                let ghost before = out.deep_view();
                out.push(row);
                proof {
                    assert forall|j: int| 0 <= j < i + 1 implies mapped_row(
                        index@,
                        count as int,
                        #[trigger] rows.deep_view()[j],
                    ) == Ok::<Seq<Seq<char>>, MapError>(out.deep_view()[j]) by {
                        if j < i {
                            assert(out.deep_view()[j] == before[j]);
                        }
                    }
                }
            },
            Err(e) => {
                assert forall|j: int| 0 <= j < i implies (#[trigger] mapped_row(
                    index@,
                    count as int,
                    rows.deep_view()[j],
                )) is Ok by {
                    assert(mapped_row(index@, count as int, rows.deep_view()[j]) == Ok::<
                        Seq<Seq<char>>,
                        MapError,
                    >(out.deep_view()[j]));
                }
                return Err((i, e));
            },
        }
        i = i + 1;
    }
    Ok(out)
}

} // verus!
