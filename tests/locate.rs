use mapdbsnp::builder::create_map;
use mapdbsnp::codec::{MapRecord, read_u64_at};
use mapdbsnp::locate::{Search, lookup};

fn index_of(ids: &[u32]) -> Vec<u8> {
    let rows: Vec<Vec<String>> = ids
        .iter()
        .map(|i| vec![format!("rs{}", i), format!("{}:{}", i % 22 + 1, i * 10)])
        .collect();
    create_map(&rows).unwrap()
}

#[test]
fn lookup_agrees_with_linear_scan() {
    let ids: Vec<u32> = vec![2, 3, 5, 8, 13, 21, 34, 55, 89, 144, 233];
    for n in 0..=ids.len() {
        let index = index_of(&ids[..n]);
        let count = read_u64_at(&index, 0);
        for target in 0..250u32 {
            let scan = ids[..n]
                .iter()
                .find(|&&i| i == target)
                .map(|&i| MapRecord { rsid: i, chrom: (i % 22 + 1) as u8, pos: i * 10 });
            assert_eq!(lookup(&index, count, target), scan);
        }
    }
}

#[test]
fn single_record_index() {
    let index = index_of(&[42]);
    assert_eq!(lookup(&index, 1, 42), Some(MapRecord { rsid: 42, chrom: 21, pos: 420 }));
    assert_eq!(lookup(&index, 1, 0), None);
    assert_eq!(lookup(&index, 1, 41), None);
    assert_eq!(lookup(&index, 1, 43), None);
    assert_eq!(lookup(&index, 1, u32::MAX), None);
}

#[test]
fn empty_index_finds_nothing() {
    let index = index_of(&[]);
    assert_eq!(lookup(&index, 0, 0), None);
}

#[test]
fn search_narrows_to_a_half() {
    let mut s = Search::new(10);
    assert_eq!(s.probe(), Some(5));
    s.narrow(7, 9);
    assert_eq!(s, Search { lo: 6, hi: 10 });
    assert_eq!(s.probe(), Some(8));
    s.narrow(12, 9);
    assert_eq!(s, Search { lo: 6, hi: 8 });
    assert_eq!(s.probe(), Some(7));
    s.narrow(9, 9);
    assert_eq!(s, Search { lo: 6, hi: 7 });
    assert_eq!(Search::new(0).probe(), None);
}

#[test]
fn repeated_identifier_finds_first_record() {
    let rows: Vec<Vec<String>> = [("rs1", "1:1"), ("rs4", "2:10"), ("rs4", "3:20"), ("rs4", "4:30"), ("rs4", "5:40"), ("rs9", "6:1")]
        .iter()
        .map(|(a, b)| vec![a.to_string(), b.to_string()])
        .collect();
    let index = create_map(&rows).unwrap();
    assert_eq!(lookup(&index, 6, 4), Some(MapRecord { rsid: 4, chrom: 2, pos: 10 }));
    for n in 2..=6u64 {
        assert_eq!(lookup(&index, n, 4), Some(MapRecord { rsid: 4, chrom: 2, pos: 10 }));
    }
}

#[test]
fn search_finish_keeps_only_a_matching_candidate() {
    let rec = MapRecord { rsid: 4, chrom: 2, pos: 10 };
    let s = Search { lo: 3, hi: 3 };
    assert_eq!(s.candidate(5), Some(3));
    assert_eq!(s.candidate(3), None);
    assert_eq!(s.finish(5, Some(rec), 4), Some(rec));
    assert_eq!(s.finish(5, Some(rec), 5), None);
    assert_eq!(s.finish(5, None, 4), None);
    assert_eq!(s.finish(3, Some(rec), 4), None);
}
