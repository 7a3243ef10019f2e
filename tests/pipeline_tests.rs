use hapkmer::binning::BinTable;
use hapkmer::discovery::{discover, KmerCounter, KmerRow};

fn sorted_rows(rows: &[KmerRow]) -> Vec<(String, u64, u64)> {
    let mut v: Vec<(String, u64, u64)> =
        rows.iter().map(|r| (r.kmer.clone(), r.count_hap1, r.count_hap2)).collect();
    v.sort();
    v
}

fn row(k: &str, a: u64, b: u64) -> (String, u64, u64) {
    (k.to_string(), a, b)
}

#[test]
fn discovery_two_haplotypes_without_shared_windows() {
    let hap1 = vec![b"AAAACCCC".to_vec()];
    let hap2 = vec![b"GGGGTTTT".to_vec()];
    let rows = discover::<1>(&hap1, &hap2, false);
    assert_eq!(
        sorted_rows(&rows),
        vec![
            row("AAAA", 1, 0),
            row("AAAC", 1, 0),
            row("AACC", 1, 0),
            row("ACCC", 1, 0),
            row("GGGG", 0, 1),
            row("GGGT", 0, 1),
            row("GGTT", 0, 1),
            row("GTTT", 0, 1),
        ]
    );
    let table = BinTable::<1>::from_rows(&rows);
    assert_eq!(table.bin_read(b"AAAACCCC"), (4, 0));
    assert_eq!(table.bin_read(b"GGGGTTTTA"), (0, 4));
}

#[test]
fn discovery_drops_shared_kmers() {
    let hap1 = vec![b"AAAAAG".to_vec()];
    let hap2 = vec![b"AAAAC".to_vec()];
    let rows = discover::<1>(&hap1, &hap2, false);
    assert!(rows.is_empty());
    let hap1 = vec![b"AAAAAGG".to_vec()];
    let rows = discover::<1>(&hap1, &hap2, false);
    assert_eq!(sorted_rows(&rows), vec![row("AAAG", 1, 0)]);
    for r in &rows {
        assert!((r.count_hap1 == 0) != (r.count_hap2 == 0));
    }
}

#[test]
fn discovery_counts_repeats() {
    let hap1 = vec![b"AAAAAAA".to_vec(), b"aaaaa".to_vec()];
    let hap2: Vec<Vec<u8>> = vec![];
    let rows = discover::<1>(&hap1, &hap2, false);
    assert_eq!(sorted_rows(&rows), vec![row("AAAA", 4, 0)]);
}

#[test]
fn discovery_with_reverse_complement() {
    let hap1 = vec![b"AAAAC".to_vec()];
    let hap2: Vec<Vec<u8>> = vec![];
    let rows = discover::<1>(&hap1, &hap2, true);
    assert_eq!(sorted_rows(&rows), vec![row("AAAA", 1, 0), row("TTTT", 1, 0)]);
    let hap1 = vec![b"ACGGTT".to_vec()];
    let rows = discover::<1>(&hap1, &hap2, true);
    assert_eq!(sorted_rows(&rows), vec![row("ACCG", 1, 0), row("ACGG", 1, 0), row("CCGT", 1, 0), row("CGGT", 1, 0)]);
    let hap1 = vec![b"ACGTA".to_vec()];
    let rows = discover::<1>(&hap1, &hap2, true);
    assert_eq!(sorted_rows(&rows), vec![row("ACGT", 2, 0)]);
}

#[test]
fn discovery_skips_windows_with_other_letters() {
    let hap1 = vec![b"AAAANAAAAC".to_vec()];
    let hap2: Vec<Vec<u8>> = vec![];
    let rows = discover::<1>(&hap1, &hap2, true);
    assert_eq!(sorted_rows(&rows), vec![row("AAAA", 2, 0), row("TTTT", 2, 0)]);
}

#[test]
fn short_sequences_give_nothing() {
    let hap1 = vec![b"ACG".to_vec(), b"ACGT".to_vec(), Vec::new()];
    let hap2 = vec![b"T".to_vec()];
    assert!(discover::<1>(&hap1, &hap2, true).is_empty());
    let mut table = BinTable::<1>::new();
    table.add_row("ACGT", 3, 0);
    assert_eq!(table.bin_read(b"ACGT"), (0, 0));
    assert_eq!(table.bin_read(b""), (0, 0));
    assert_eq!(table.bin_read(b"ACGTA"), (1, 0));
}

#[test]
fn counter_accumulates_across_calls() {
    let mut c = KmerCounter::<2>::new();
    c.add_sequence(b"ACGTACGTA", true, false);
    c.add_sequence(b"ACGTACGTA", false, false);
    c.add_sequence(b"TTTTTTTTG", false, false);
    let rows = c.exclusive_rows();
    assert_eq!(sorted_rows(&rows), vec![row("TTTTTTTT", 0, 1)]);
}

#[test]
fn table_count_columns_are_independent() {
    let mut table = BinTable::<1>::new();
    table.add_row("AAAA", 2, 0);
    table.add_row("CCCC", 0, 1);
    table.add_row("GGGG", 1, 1);
    table.add_row("TTTT", 0, 0);
    assert_eq!(table.bin_read(b"AAAAAA"), (2, 0));
    assert_eq!(table.bin_read(b"CCCCCC"), (0, 2));
    assert_eq!(table.bin_read(b"GGGGG"), (1, 1));
    assert_eq!(table.bin_read(b"TTTTT"), (0, 0));
}

#[test]
fn binning_compares_raw_letters() {
    let mut table = BinTable::<1>::new();
    table.add_row("AAAA", 1, 0);
    table.add_row("acgt", 0, 1);
    table.add_row("NNNN", 0, 1);
    assert_eq!(table.bin_read(b"aaaaa"), (0, 0));
    assert_eq!(table.bin_read(b"ACGTT"), (0, 0));
    assert_eq!(table.bin_read(b"acgtt"), (0, 1));
    assert_eq!(table.bin_read(b"NNNNNN"), (0, 2));
    assert_eq!(table.bin_read(b"AAAANNNNA"), (1, 1));
}

#[test]
fn binning_matches_one_table_line_per_window() {
    let mut table = BinTable::<1>::new();
    table.add_row("ACGT", 1, 0);
    table.add_row("CGTA", 0, 4);
    assert_eq!(table.bin_read(b"ACGTACGTAC"), (2, 2));
}

#[test]
fn binning_is_deterministic_and_keeps_read_order() {
    let hap1 = vec![b"AAAACCCC".to_vec()];
    let hap2 = vec![b"GGGGTTTT".to_vec()];
    let rows = discover::<1>(&hap1, &hap2, false);
    let table = BinTable::<1>::from_rows(&rows);
    let reads = vec![b"GGGTTTT".to_vec(), b"AAC".to_vec(), b"AAACCCCG".to_vec()];
    let first = table.bin_reads(&reads);
    let second = table.bin_reads(&reads);
    assert_eq!(first, second);
    assert_eq!(first, vec![(0, 3), (0, 0), (3, 0)]);
}

#[test]
fn row_with_both_counts_feeds_both_haplotypes() {
    let mut table = BinTable::<1>::new();
    table.add_row("AAAA", 1, 1);
    assert_eq!(table.bin_read(b"AAAAC"), (1, 1));
}

#[test]
fn short_sequence_leaves_discovery_unchanged() {
    let hap1 = vec![b"AAAACCCC".to_vec()];
    let hap2 = vec![b"GGGGTTTT".to_vec()];
    let before = sorted_rows(&discover::<1>(&hap1, &hap2, true));
    let mut hap1_more = hap1.clone();
    hap1_more.push(b"TTT".to_vec());
    let mut hap2_more = hap2.clone();
    hap2_more.push(b"ACGT".to_vec());
    assert_eq!(sorted_rows(&discover::<1>(&hap1_more, &hap2, true)), before);
    assert_eq!(sorted_rows(&discover::<1>(&hap1, &hap2_more, true)), before);
}
