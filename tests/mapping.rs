use mapdbsnp::builder::create_map;
use mapdbsnp::codec::MapRecord;
use mapdbsnp::mapping::{MapError, format_locus, map_row, map_to_loci, remap_row};
use mapdbsnp::text::FormatError;

fn row(fields: &[&str]) -> Vec<String> {
    fields.iter().map(|f| f.to_string()).collect()
}

fn scenario_index() -> Vec<u8> {
    let source = vec![row(&["rs100", "1:5000"]), row(&["rs200", "2:6000"]), row(&["rs300", "X:7000"])];
    create_map(&source).unwrap()
}

#[test]
fn end_to_end_rewrites_identifier() {
    let index = scenario_index();
    let input = vec![row(&["rs200", "sampleA", "genotypeAA"])];
    let out = map_to_loci(&index, &input).unwrap();
    assert_eq!(out, vec![row(&["2:6000", "sampleA", "genotypeAA"])]);
}

#[test]
fn end_to_end_absent_identifier_fails() {
    let index = scenario_index();
    let input = vec![row(&["rs300", "s", "g"]), row(&["rs999", "sampleB", "genotypeCC"])];
    assert_eq!(map_to_loci(&index, &input), Err((1, MapError::NotFound(999))));
}

#[test]
fn rows_keep_their_order_and_payload() {
    let index = scenario_index();
    let input = vec![row(&["rs300", "a"]), row(&["rs100"]), row(&["rs200", "", "c", "d"])];
    let out = map_to_loci(&index, &input).unwrap();
    assert_eq!(out, vec![row(&["X:7000", "a"]), row(&["1:5000"]), row(&["2:6000", "", "c", "d"])]);
}

#[test]
fn malformed_rows_fail_mapping() {
    let index = scenario_index();
    assert_eq!(map_row(&index, 3, &Vec::new()), Err(MapError::Malformed(FormatError::MissingField)));
    assert_eq!(
        map_row(&index, 3, &row(&["snp100", "a"])),
        Err(MapError::Malformed(FormatError::BadIdentifier))
    );
}

#[test]
fn corrupt_code_in_index_is_reported() {
    let mut index = scenario_index();
    index[8 + 4] = 0;
    assert_eq!(map_row(&index, 3, &row(&["rs100"])), Err(MapError::BadCode(0)));
}

#[test]
fn locus_text_of_records() {
    assert_eq!(format_locus(MapRecord { rsid: 1, chrom: 25, pos: 16569 }).unwrap(), "MT:16569");
    assert_eq!(format_locus(MapRecord { rsid: 1, chrom: 10, pos: 0 }).unwrap(), "10:0");
    assert_eq!(format_locus(MapRecord { rsid: 1, chrom: 26, pos: 1 }), Err(FormatError::BadChromosome));
}

#[test]
fn remap_replaces_first_field_only() {
    let fields = row(&["rs5", "x", "y"]);
    let out = remap_row(&fields, MapRecord { rsid: 5, chrom: 24, pos: 9 }).unwrap();
    assert_eq!(out, row(&["Y:9", "x", "y"]));
}

#[test]
fn bare_numeral_identifier_fails_mapping() {
    let index = scenario_index();
    let input = vec![row(&["rs100", "a"]), row(&["200", "b"])];
    assert_eq!(
        map_to_loci(&index, &input),
        Err((1, MapError::Malformed(FormatError::BadIdentifier)))
    );
}

#[test]
fn repeated_identifier_maps_to_first_record() {
    let source = vec![row(&["rs7", "1:10"]), row(&["rs7", "2:20"]), row(&["rs7", "3:30"])];
    let index = create_map(&source).unwrap();
    let out = map_to_loci(&index, &vec![row(&["rs7", "a"])]).unwrap();
    assert_eq!(out, vec![row(&["1:10", "a"])]);
}
