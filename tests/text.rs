use mapdbsnp::text::{FormatError, chrom_to_u8, decimal_to_string, parse_u32, rsid_to_u32, u8_to_chrom};

#[test]
fn rsid_prefix_is_stripped() {
    assert_eq!(rsid_to_u32("rs100"), Ok(100));
    assert_eq!(rsid_to_u32("rs0"), Ok(0));
    assert_eq!(rsid_to_u32("rs4294967295"), Ok(4294967295));
}

#[test]
fn rsid_prefix_is_required() {
    assert_eq!(rsid_to_u32("42"), Err(FormatError::BadIdentifier));
    assert_eq!(rsid_to_u32("1rs2"), Err(FormatError::BadIdentifier));
    assert_eq!(rsid_to_u32("RS42"), Err(FormatError::BadIdentifier));
    assert_eq!(rsid_to_u32("rsrs4"), Err(FormatError::BadIdentifier));
}

#[test]
fn bad_rsids_are_rejected() {
    assert_eq!(rsid_to_u32("rs"), Err(FormatError::BadIdentifier));
    assert_eq!(rsid_to_u32(""), Err(FormatError::BadIdentifier));
    assert_eq!(rsid_to_u32("rs12a"), Err(FormatError::BadIdentifier));
    assert_eq!(rsid_to_u32("rs4294967296"), Err(FormatError::BadIdentifier));
    assert_eq!(rsid_to_u32("rs-1"), Err(FormatError::BadIdentifier));
}

#[test]
fn parse_u32_reads_digits_only() {
    assert_eq!(parse_u32("5000"), Some(5000));
    assert_eq!(parse_u32("007"), Some(7));
    assert_eq!(parse_u32(""), None);
    assert_eq!(parse_u32("1 "), None);
    assert_eq!(parse_u32("99999999999"), None);
}

#[test]
fn parse_u32_takes_one_leading_plus() {
    assert_eq!(parse_u32("+5000"), Some(5000));
    assert_eq!(parse_u32("+0"), Some(0));
    assert_eq!(parse_u32("+4294967295"), Some(4294967295));
    assert_eq!(parse_u32("+"), None);
    assert_eq!(parse_u32("++5"), None);
    assert_eq!(parse_u32("5+"), None);
    assert_eq!(parse_u32("-5"), None);
    assert_eq!(rsid_to_u32("rs+5"), Ok(5));
    assert_eq!(rsid_to_u32("rs+"), Err(FormatError::BadIdentifier));
}

#[test]
fn decimal_text_of_numbers() {
    assert_eq!(decimal_to_string(0), "0");
    assert_eq!(decimal_to_string(9), "9");
    assert_eq!(decimal_to_string(10), "10");
    assert_eq!(decimal_to_string(4294967295), "4294967295");
}

#[test]
fn chromosome_labels_round_trip() {
    let mut labels: Vec<String> = (1..=22).map(|n: u32| n.to_string()).collect();
    labels.push("X".to_string());
    labels.push("Y".to_string());
    labels.push("MT".to_string());
    for label in labels {
        let code = chrom_to_u8(&label).unwrap();
        assert_eq!(u8_to_chrom(code).unwrap(), label);
    }
}

#[test]
fn chromosome_codes_of_special_labels() {
    assert_eq!(chrom_to_u8("1"), Ok(1));
    assert_eq!(chrom_to_u8("22"), Ok(22));
    assert_eq!(chrom_to_u8("X"), Ok(23));
    assert_eq!(chrom_to_u8("Y"), Ok(24));
    assert_eq!(chrom_to_u8("MT"), Ok(25));
}

#[test]
fn unknown_chromosome_labels_are_rejected() {
    for label in ["0", "23", "01", "x", "M", "", "chr1"] {
        assert_eq!(chrom_to_u8(label), Err(FormatError::BadChromosome));
    }
}

#[test]
fn invalid_chromosome_codes_are_rejected() {
    assert_eq!(u8_to_chrom(0), Err(FormatError::BadChromosome));
    assert_eq!(u8_to_chrom(26), Err(FormatError::BadChromosome));
    assert_eq!(u8_to_chrom(255), Err(FormatError::BadChromosome));
    assert_eq!(u8_to_chrom(9).unwrap(), "9");
    assert_eq!(u8_to_chrom(24).unwrap(), "Y");
}
