use mapdbsnp::builder::{BuildError, IndexBuilder, create_map, parse_map_record, write_map_records};
use mapdbsnp::codec::{MapRecord, read_u64_at};
use mapdbsnp::text::FormatError;

fn rows(table: &[(&str, &str)]) -> Vec<Vec<String>> {
    table.iter().map(|(a, b)| vec![a.to_string(), b.to_string()]).collect()
}

#[test]
fn parses_a_source_row() {
    let fields = vec!["rs300".to_string(), "X:7000".to_string()];
    assert_eq!(parse_map_record(&fields), Ok(MapRecord { rsid: 300, chrom: 23, pos: 7000 }));
}

#[test]
fn position_may_carry_a_plus() {
    let fields = vec!["rs1".to_string(), "1:+5000".to_string()];
    assert_eq!(parse_map_record(&fields), Ok(MapRecord { rsid: 1, chrom: 1, pos: 5000 }));
}

#[test]
fn malformed_source_rows_are_rejected() {
    let one = vec!["rs1".to_string()];
    assert_eq!(parse_map_record(&one), Err(FormatError::MissingField));
    let r = rows(&[("rs1", "15000")]);
    assert_eq!(parse_map_record(&r[0]), Err(FormatError::MissingField));
    let r = rows(&[("id1", "1:5")]);
    assert_eq!(parse_map_record(&r[0]), Err(FormatError::BadIdentifier));
    let r = rows(&[("rs1", "chr1:5")]);
    assert_eq!(parse_map_record(&r[0]), Err(FormatError::BadChromosome));
    let r = rows(&[("rs1", "1:")]);
    assert_eq!(parse_map_record(&r[0]), Err(FormatError::BadPosition));
    let r = rows(&[("rs1", "1:5:6")]);
    assert_eq!(parse_map_record(&r[0]), Err(FormatError::BadPosition));
}

#[test]
fn unsorted_source_fails() {
    let r = rows(&[("rs5", "1:10"), ("rs3", "1:20")]);
    assert_eq!(create_map(&r), Err((1, BuildError::Unsorted)));
}

#[test]
fn unsorted_source_keeps_only_rows_before() {
    let r = rows(&[("rs5", "1:10"), ("rs3", "1:20")]);
    let mut out = Vec::new();
    assert_eq!(write_map_records(&r, &mut out), Err((1, BuildError::Unsorted)));
    assert_eq!(out, vec![0, 0, 0, 5, 1, 0, 0, 0, 10]);
}

#[test]
fn malformed_row_stops_build_with_its_place() {
    let r = rows(&[("rs1", "1:10"), ("rs2", "1:10"), ("rs3", "Z:1")]);
    assert_eq!(
        create_map(&r),
        Err((2, BuildError::Malformed(FormatError::BadChromosome)))
    );
}

#[test]
fn equal_identifiers_are_accepted() {
    let r = rows(&[("rs7", "1:10"), ("rs7", "2:20")]);
    let index = create_map(&r).unwrap();
    assert_eq!(read_u64_at(&index, 0), 2);
}

#[test]
fn header_counts_records() {
    let r = rows(&[("rs100", "1:5000"), ("rs200", "2:6000"), ("rs300", "X:7000")]);
    let index = create_map(&r).unwrap();
    let count = read_u64_at(&index, 0);
    assert_eq!(count, 3);
    assert_eq!(index.len() as u64, 8 + 9 * count);
    assert_eq!(
        index,
        vec![
            0, 0, 0, 0, 0, 0, 0, 3, 0, 0, 0, 100, 1, 0, 0, 0x13, 0x88, 0, 0, 0, 200, 2, 0, 0,
            0x17, 0x70, 0, 0, 1, 0x2C, 23, 0, 0, 0x1B, 0x58,
        ]
    );
}

#[test]
fn empty_source_gives_bare_header() {
    let index = create_map(&Vec::new()).unwrap();
    assert_eq!(index, vec![0u8; 8]);
}

#[test]
fn builder_accepts_rows_one_at_a_time() {
    let mut b = IndexBuilder::new();
    let mut out = Vec::new();
    let r = rows(&[("rs10", "MT:16569"), ("rs9", "1:1")]);
    assert_eq!(b.add_row(&r[0], &mut out), Ok(()));
    assert_eq!(b.add_row(&r[1], &mut out), Err(BuildError::Unsorted));
    assert_eq!(b.num_records(), 1);
    assert_eq!(b.header(), vec![0, 0, 0, 0, 0, 0, 0, 1]);
    assert_eq!(out, vec![0, 0, 0, 10, 25, 0, 0, 0x40, 0xB9]);
}
