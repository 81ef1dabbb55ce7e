use freq_motif_fastq::freq::count_motifs;
use freq_motif_fastq::ranker::{build_result_table, csv_bytes, initialize_all_motifs, pct_of,
    sort_by_proportion_desc};
use freq_motif_fastq::reader::process_reads_and_write_fasta;
use freq_motif_fastq::Threshold;

fn lines_of(strs: &[&str]) -> Vec<Vec<u8>> {
    strs.iter().map(|s| s.as_bytes().to_vec()).collect()
}

// Code of dinucleotide "AT": A is base 0, T is base 1.
const AT: usize = 1;

#[test]
fn single_read_at_motif_is_voted_full() {
    let lines = lines_of(&["@r1", "ATATAT", "+", "IIIIII"]);
    let t = Threshold { num: 1, den: 10 };
    let out = process_reads_and_write_fasta(&lines, 100000, &t, 0);
    assert_eq!(out.total_reads, 1);
    assert_eq!(out.votes[AT], 1);
    assert_eq!(out.fasta, b">r1\nATATAT\n".to_vec());
    assert_eq!(out.read_lengths, vec![(b"r1".to_vec(), 6)]);
    let table = build_result_table(&out.votes, 0, out.total_reads);
    assert_eq!(table.len(), 81);
    assert_eq!(table[AT].0, b"AT".to_vec());
    assert_eq!(table[AT].1, 1000000);
    let sorted = sort_by_proportion_desc(table);
    let csv = csv_bytes(&sorted);
    let s = String::from_utf8(csv).unwrap();
    assert!(s.starts_with("Motif,Proportion\n"));
    assert!(s.contains("\nAT,100.0000\n"));
    assert_eq!(s.lines().count(), 82);
}

#[test]
fn window_counts_sum_to_l_minus_1_and_2() {
    let counts = count_motifs(&b"ATATAT".to_vec());
    let di: u64 = counts[..16].iter().sum();
    let tri: u64 = counts[16..].iter().sum();
    assert_eq!(di, 5);
    assert_eq!(tri, 4);
    assert_eq!(counts[AT], 3);
    let counts2 = count_motifs(&b"GGCCA".to_vec());
    let di2: u64 = counts2[..16].iter().sum();
    let tri2: u64 = counts2[16..].iter().sum();
    assert_eq!(di2, 4);
    assert_eq!(tri2, 3);
}

#[test]
fn votes_never_exceed_total_reads() {
    let lines = lines_of(&[
        "@a", "ATATATAT", "+", "IIIIIIII",
        "@b", "ATATATAT", "+", "IIIIIIII",
        "@c", "GGGG", "+", "IIII",
    ]);
    let t = Threshold { num: 1, den: 100 };
    let out = process_reads_and_write_fasta(&lines, 100000, &t, 0);
    assert_eq!(out.total_reads, 3);
    for c in 0..80 {
        assert!(out.votes[c] <= out.total_reads);
    }
    assert_eq!(out.votes[AT], 2);
}

#[test]
fn result_table_has_81_entries_on_empty_input() {
    let lines: Vec<Vec<u8>> = Vec::new();
    let t = Threshold { num: 1, den: 2 };
    let out = process_reads_and_write_fasta(&lines, 100000, &t, 0);
    assert_eq!(out.total_reads, 0);
    let table = build_result_table(&out.votes, 0, out.total_reads);
    assert_eq!(table.len(), 81);
    for e in table.iter() {
        assert_eq!(e.1, 0);
    }
    let sorted = sort_by_proportion_desc(table);
    assert_eq!(sorted.len(), 81);
    let s = String::from_utf8(csv_bytes(&sorted)).unwrap();
    assert_eq!(s.lines().count(), 82);
}

#[test]
fn sorted_output_is_non_increasing() {
    let lines = lines_of(&[
        "@a", "ATATATAT", "+", "IIIIIIII",
        "@b", "GGGGGGGG", "+", "IIIIIIII",
        "@c", "ATGCATGC", "+", "IIIIIIII",
    ]);
    let t = Threshold { num: 1, den: 5 };
    let out = process_reads_and_write_fasta(&lines, 100000, &t, 0);
    let table = build_result_table(&out.votes, 1, out.total_reads);
    let sorted = sort_by_proportion_desc(table);
    assert_eq!(sorted.len(), 81);
    for w in sorted.windows(2) {
        assert!(w[0].1 >= w[1].1);
    }
}

#[test]
fn skipping_all_records_gives_zero_total() {
    let lines = lines_of(&[
        "@a", "ATATATAT", "+", "IIIIIIII",
        "@b", "GGGGGGGG", "+", "IIIIIIII",
    ]);
    let t = Threshold { num: 1, den: 2 };
    let out = process_reads_and_write_fasta(&lines, 100000, &t, 2);
    assert_eq!(out.total_reads, 0);
    assert!(out.fasta.is_empty());
    assert!(out.read_lengths.is_empty());
    let table = build_result_table(&out.votes, 0, out.total_reads);
    assert_eq!(table.len(), 81);
    for e in table.iter() {
        assert_eq!(e.1, 0);
    }
}

#[test]
fn max_reads_limits_processing() {
    let lines = lines_of(&[
        "@a", "ATAT", "+", "IIII",
        "@b", "GGGG", "+", "IIII",
        "@c", "CCCC", "+", "IIII",
    ]);
    let t = Threshold { num: 1, den: 2 };
    let out = process_reads_and_write_fasta(&lines, 2, &t, 0);
    assert_eq!(out.total_reads, 2);
    assert_eq!(out.fasta, b">a\nATAT\n>b\nGGGG\n".to_vec());
}

#[test]
fn short_sequences_are_skipped_but_consumed() {
    let lines = lines_of(&[
        "@a", "A", "+", "I",
        "@b", "ATAT", "+", "IIII",
    ]);
    let t = Threshold { num: 1, den: 2 };
    let out = process_reads_and_write_fasta(&lines, 100000, &t, 0);
    assert_eq!(out.total_reads, 1);
    assert_eq!(out.read_lengths, vec![(b"b".to_vec(), 4)]);
}

#[test]
fn boundary_equal_proportion_is_not_a_hit() {
    // In "ATAT", "TA" occurs once over 3 dinucleotide windows: 1/3.
    let lines = lines_of(&["@r", "ATAT", "+", "IIII"]);
    let ta: usize = 1 * 4 + 0;
    let t = Threshold { num: 1, den: 3 };
    let out = process_reads_and_write_fasta(&lines, 100000, &t, 0);
    assert_eq!(out.votes[ta], 0);
    let t2 = Threshold { num: 33, den: 100 };
    let out2 = process_reads_and_write_fasta(&lines, 100000, &t2, 0);
    assert_eq!(out2.votes[ta], 1);
}

#[test]
fn length_two_read_has_no_trinucleotide_hits() {
    let lines = lines_of(&["@r", "AT", "+", "II"]);
    let t = Threshold { num: 1, den: 100 };
    let out = process_reads_and_write_fasta(&lines, 100000, &t, 0);
    assert_eq!(out.votes[AT], 1);
    for c in 16..80 {
        assert_eq!(out.votes[c], 0);
    }
}

#[test]
fn percentage_is_rounded_to_four_decimals() {
    assert_eq!(pct_of(1, 3), 333333);
    assert_eq!(pct_of(2, 3), 666667);
    assert_eq!(pct_of(1, 1), 1000000);
    assert_eq!(pct_of(0, 5), 0);
    assert_eq!(pct_of(0, 0), 0);
    assert_eq!(pct_of(1, 8), 125000);
}

#[test]
fn csv_formats_four_decimal_places() {
    let table = vec![(b"AT".to_vec(), 333333u64), (b"GC".to_vec(), 0u64)];
    let s = String::from_utf8(csv_bytes(&table)).unwrap();
    assert_eq!(s, "Motif,Proportion\nAT,33.3333\nGC,0.0000\n");
}

#[test]
fn motif_space_is_the_80_fixed_motifs() {
    let all = initialize_all_motifs();
    assert_eq!(all.len(), 80);
    assert_eq!(all[0].0, b"AA".to_vec());
    assert_eq!(all[1].0, b"AT".to_vec());
    assert_eq!(all[16].0, b"AAA".to_vec());
    assert_eq!(all[79].0, b"CCC".to_vec());
    for e in all.iter() {
        assert_eq!(e.1, 0);
        assert!(e.0.len() == 2 || e.0.len() == 3);
    }
    let mut labels: Vec<Vec<u8>> = all.iter().map(|e| e.0.clone()).collect();
    labels.sort();
    labels.dedup();
    assert_eq!(labels.len(), 80);
}
