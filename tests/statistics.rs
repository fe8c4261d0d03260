use seqstats::fasta::parse_fasta_lines;
use seqstats::record::{ProcessingValues, SequenceINFO};
use seqstats::stats::{calculate_n50_score, compute_length_statistics, StatisticsError};

fn collection(lengths: &[usize]) -> SequenceINFO {
    let mut text = String::new();
    for (i, n) in lengths.iter().enumerate() {
        text.push_str(&format!(">s{}\n{}\n", i, "A".repeat(*n)));
    }
    let lines: Vec<String> = text.lines().map(|l| l.to_string()).collect();
    parse_fasta_lines(&lines, &ProcessingValues { min_length: 0, max_length: usize::MAX })
}

#[test]
fn n50_of_classic_example() {
    let mut info = collection(&[2, 3, 4, 5, 6, 7, 8, 9, 10]);
    assert_eq!(info.total_nucleotides, 54);
    assert_eq!(calculate_n50_score(&mut info), 8);
    let order: Vec<usize> = info.sequences.iter().map(|r| r.by_sequence_length()).collect();
    assert_eq!(order, vec![10, 9, 8, 7, 6, 5, 4, 3, 2]);
}

#[test]
fn n50_threshold_prefix() {
    let mut info = collection(&[1, 1, 1, 1, 6]);
    let v = calculate_n50_score(&mut info);
    assert_eq!(v, 6);
    let mut info = collection(&[3, 3, 3, 3]);
    assert_eq!(calculate_n50_score(&mut info), 3);
    let mut info = collection(&[1]);
    assert_eq!(calculate_n50_score(&mut info), 1);
}

#[test]
fn statistics_bounds_hold() {
    let mut info = collection(&[7, 1, 100, 3, 3]);
    let st = compute_length_statistics(&mut info).unwrap();
    assert_eq!(st.sequences_min, 1);
    assert_eq!(st.sequences_max, 100);
    assert_eq!(st.sequences_mean, 22);
    assert_eq!(st.sequences_median, 3);
    assert!(st.sequences_min <= st.sequences_mean as i64);
    assert!(st.sequences_mean as i64 <= st.sequences_max);
    assert!(st.sequences_min <= st.sequences_median as i64);
    assert!(st.sequences_median as i64 <= st.sequences_max);
}

#[test]
fn statistics_single_record() {
    let mut info = collection(&[5]);
    let st = compute_length_statistics(&mut info).unwrap();
    assert_eq!(
        (st.sequences_min, st.sequences_max, st.sequences_mean, st.sequences_median),
        (5, 5, 5, 5)
    );
}

#[test]
fn statistics_keep_totals() {
    let mut info = collection(&[4, 9, 2]);
    let _ = compute_length_statistics(&mut info).unwrap();
    assert_eq!(info.total_nucleotides, 15);
    assert_eq!(info.sequences.len(), 3);
    let mut lens: Vec<usize> = info.sequences.iter().map(|r| r.by_sequence_length()).collect();
    lens.sort();
    assert_eq!(lens, vec![2, 4, 9]);
}

#[test]
fn statistics_on_empty_collection() {
    let mut info = SequenceINFO::empty();
    assert_eq!(compute_length_statistics(&mut info).err(), Some(StatisticsError::NoRecords));
    assert_eq!(calculate_n50_score(&mut info), 0);
}
