use seqstats::fasta::parse_fasta_lines;
use seqstats::fastq::parse_fastq_lines;
use seqstats::record::{
    calculate_gc_content, count_gc, percent_of, FASTARecord, GENRecord, Percent,
    ProcessingValues,
};
use seqstats::stats::{calculate_n50_score, compute_length_statistics, StatisticsError};

fn lines(text: &str) -> Vec<String> {
    text.lines().map(|l| l.to_string()).collect()
}

fn no_filter() -> ProcessingValues {
    ProcessingValues { min_length: 0, max_length: usize::MAX }
}

fn fasta(rec: &GENRecord) -> &FASTARecord {
    match rec {
        GENRecord::FASTARecord(r) => r,
        GENRecord::FASTQRecord(_) => panic!("expected a FASTA record"),
    }
}

#[test]
fn scenario_two_fasta_records() {
    let mut info = parse_fasta_lines(&lines(">r1\nACGT\n>r2\nGGCC\n"), &no_filter());
    assert_eq!(info.sequences.len(), 2);
    let r1 = fasta(&info.sequences[0]);
    assert_eq!(r1.id, "r1");
    assert_eq!(r1.sequence, "ACGT");
    assert_eq!(r1.gc_count, 2);
    assert_eq!(r1.gc_percent, Percent(50000));
    let r2 = fasta(&info.sequences[1]);
    assert_eq!(r2.id, "r2");
    assert_eq!(r2.sequence, "GGCC");
    assert_eq!(r2.gc_count, 4);
    assert_eq!(r2.gc_percent, Percent(100000));
    assert_eq!(info.global_gc_count, 6);
    assert_eq!(info.total_nucleotides, 8);
    let stats = compute_length_statistics(&mut info).unwrap();
    assert_eq!(stats.sequences_min, 4);
    assert_eq!(stats.sequences_max, 4);
    assert_eq!(stats.sequences_mean, 4);
    assert_eq!(stats.sequences_median, 4);
    assert_eq!(calculate_n50_score(&mut info), 4);
}

#[test]
fn scenario_fastq_record_filtered_out() {
    let filter = ProcessingValues { min_length: 3, max_length: usize::MAX };
    let mut info = parse_fastq_lines(&lines("@r1\nAC\n+\n!!\n"), &filter);
    assert_eq!(info.sequences.len(), 0);
    assert_eq!(info.global_gc_count, 0);
    assert_eq!(info.total_nucleotides, 0);
    assert_eq!(compute_length_statistics(&mut info).err(), Some(StatisticsError::NoRecords));
}

#[test]
fn scenario_trailing_record_without_newline() {
    let info = parse_fasta_lines(&lines(">only\nAAAA"), &no_filter());
    assert_eq!(info.sequences.len(), 1);
    assert_eq!(fasta(&info.sequences[0]).id, "only");
    assert_eq!(fasta(&info.sequences[0]).sequence, "AAAA");
    assert_eq!(info.total_nucleotides, 4);
}

#[test]
fn scenario_median_of_even_count_is_upper_middle() {
    let text = format!(
        ">a\n{}\n>b\n{}\n>c\n{}\n>d\n{}\n",
        "A".repeat(40),
        "A".repeat(10),
        "A".repeat(30),
        "A".repeat(20)
    );
    let mut info = parse_fasta_lines(&lines(&text), &no_filter());
    let stats = compute_length_statistics(&mut info).unwrap();
    assert_eq!(stats.sequences_median, 30);
    assert_eq!(stats.sequences_min, 10);
    assert_eq!(stats.sequences_max, 40);
    assert_eq!(stats.sequences_mean, 25);
    assert_eq!(info.sequences.len(), 4);
}

#[test]
fn fasta_record_count_matches_headers() {
    let text = ">a\nAC\n>b\nACGTACGT\n>c\nA\nCG\n";
    let info = parse_fasta_lines(&lines(text), &no_filter());
    assert_eq!(info.sequences.len(), 3);
    assert_eq!(fasta(&info.sequences[2]).sequence, "ACG");
    let filter = ProcessingValues { min_length: 3, max_length: 5 };
    let kept = parse_fasta_lines(&lines(text), &filter);
    assert_eq!(kept.sequences.len(), 1);
    assert_eq!(fasta(&kept.sequences[0]).id, "c");
    assert_eq!(kept.total_nucleotides, 3);
    assert_eq!(kept.global_gc_count, 2);
}

#[test]
fn totals_are_sums_over_kept_records() {
    let text = "@x\nGGGA\n+\nIIII\n@y\nCCAAAAAA\n+\nIIIIIIII\n@z\nTT\n+\nII\n";
    let filter = ProcessingValues { min_length: 3, max_length: usize::MAX };
    let info = parse_fastq_lines(&lines(text), &filter);
    assert_eq!(info.sequences.len(), 2);
    let gc: usize = info
        .sequences
        .iter()
        .map(|r| match r {
            GENRecord::FASTQRecord(q) => q.gc_count,
            GENRecord::FASTARecord(f) => f.gc_count,
        })
        .sum();
    let len: usize = info.sequences.iter().map(|r| r.by_sequence_length()).sum();
    assert_eq!(info.global_gc_count, gc);
    assert_eq!(info.global_gc_count, 5);
    assert_eq!(info.total_nucleotides, len);
    assert_eq!(info.total_nucleotides, 12);
}

#[test]
fn fastq_fields_and_multiline_sequence() {
    let info = parse_fastq_lines(&lines("@ read one \nAC\nGT\n+\n  !!!!  \n"), &no_filter());
    assert_eq!(info.sequences.len(), 1);
    match &info.sequences[0] {
        GENRecord::FASTQRecord(q) => {
            assert_eq!(q.id, "read one");
            assert_eq!(q.sequence, "ACGT");
            assert_eq!(q.quality, "!!!!");
            assert_eq!(q.gc_count, 2);
            assert_eq!(q.gc_percent, Percent(50000));
        }
        GENRecord::FASTARecord(_) => panic!("expected a FASTQ record"),
    }
}

#[test]
fn fastq_record_cut_short_is_dropped() {
    let info = parse_fastq_lines(&lines("@a\nAC\n+\nII\n@b\nGG\n"), &no_filter());
    assert_eq!(info.sequences.len(), 1);
    let info = parse_fastq_lines(&lines("@a\nAC\n+\nII\n@b\nGG\n+"), &no_filter());
    assert_eq!(info.sequences.len(), 1);
    assert_eq!(info.total_nucleotides, 2);
}

#[test]
fn fastq_skips_lines_outside_records() {
    let info = parse_fastq_lines(&lines("junk\n@a\nAC\n+\nII\nmore junk\n@b\nG\n+\nI\n"), &no_filter());
    assert_eq!(info.sequences.len(), 2);
    assert_eq!(info.total_nucleotides, 3);
}

#[test]
fn fastq_filtered_record_keeps_line_sync() {
    let filter = ProcessingValues { min_length: 3, max_length: usize::MAX };
    let info = parse_fastq_lines(&lines("@a\nAC\n+\n@@\n@b\nGGG\n+\nIII\n"), &filter);
    assert_eq!(info.sequences.len(), 1);
    match &info.sequences[0] {
        GENRecord::FASTQRecord(q) => assert_eq!(q.id, "b"),
        GENRecord::FASTARecord(_) => panic!("expected a FASTQ record"),
    }
}

#[test]
fn fasta_header_id_is_trimmed() {
    let info = parse_fasta_lines(&lines(">  seq 1 \t\nAC\n"), &no_filter());
    assert_eq!(fasta(&info.sequences[0]).id, "seq 1");
}

#[test]
fn fasta_lines_before_first_header_are_not_sequence() {
    let info = parse_fasta_lines(&lines("TTTT\n>a\nAC\n"), &no_filter());
    assert_eq!(info.sequences.len(), 1);
    assert_eq!(fasta(&info.sequences[0]).sequence, "AC");
}

#[test]
fn fasta_header_without_id_is_dropped() {
    let info = parse_fasta_lines(&lines(">\nAC\n>b\nGG\n"), &no_filter());
    assert_eq!(info.sequences.len(), 1);
    assert_eq!(fasta(&info.sequences[0]).id, "b");
    assert_eq!(fasta(&info.sequences[0]).sequence, "GG");
}

#[test]
fn fasta_trailing_header_gives_empty_record() {
    let info = parse_fasta_lines(&lines(">a\nAC\n>b\n"), &no_filter());
    assert_eq!(info.sequences.len(), 2);
    assert_eq!(fasta(&info.sequences[1]).sequence, "");
    assert_eq!(fasta(&info.sequences[1]).gc_percent, Percent(0));
}

#[test]
fn empty_input_gives_empty_collection() {
    let mut info = parse_fasta_lines(&Vec::new(), &no_filter());
    assert_eq!(info.sequences.len(), 0);
    assert_eq!(info.total_nucleotides, 0);
    assert_eq!(calculate_n50_score(&mut info), 0);
    let info = parse_fasta_lines(&lines("no header here\nACGT\n"), &no_filter());
    assert_eq!(info.sequences.len(), 0);
}

#[test]
fn filter_bounds_are_inclusive() {
    let text = ">a\nAAA\n>b\nAAAA\n>c\nAAAAA\n";
    let filter = ProcessingValues { min_length: 4, max_length: 4 };
    let info = parse_fasta_lines(&lines(text), &filter);
    assert_eq!(info.sequences.len(), 1);
    assert_eq!(fasta(&info.sequences[0]).id, "b");
}

#[test]
fn fasta_round_trip() {
    let info = parse_fasta_lines(&lines("> first \nAC\nGT\n>second\n\nGGA\n"), &no_filter());
    for rec in &info.sequences {
        let r = fasta(rec);
        let again = parse_fasta_lines(&lines(&format!(">{}\n{}\n", r.id, r.sequence)), &no_filter());
        assert_eq!(again.sequences.len(), 1);
        assert_eq!(fasta(&again.sequences[0]).id, r.id);
        assert_eq!(fasta(&again.sequences[0]).sequence, r.sequence);
    }
}

#[test]
fn fastq_round_trip() {
    let info = parse_fastq_lines(&lines("@ r1 \nAC\nG\n+\n III \n"), &no_filter());
    assert_eq!(info.sequences.len(), 1);
    match &info.sequences[0] {
        GENRecord::FASTQRecord(q) => {
            let text = format!("@{}\n{}\n+\n{}\n", q.id, q.sequence, q.quality);
            let again = parse_fastq_lines(&lines(&text), &no_filter());
            assert_eq!(again.sequences.len(), 1);
            match &again.sequences[0] {
                GENRecord::FASTQRecord(a) => {
                    assert_eq!(a.id, q.id);
                    assert_eq!(a.sequence, q.sequence);
                    assert_eq!(a.quality, q.quality);
                }
                GENRecord::FASTARecord(_) => panic!("expected a FASTQ record"),
            }
        }
        GENRecord::FASTARecord(_) => panic!("expected a FASTQ record"),
    }
}

#[test]
fn gc_counting_and_percent() {
    assert_eq!(count_gc("aGcTxC"), 3);
    assert_eq!(count_gc(""), 0);
    assert_eq!(percent_of(1, 3), Percent(33333));
    assert_eq!(percent_of(2, 3), Percent(66666));
    assert_eq!(percent_of(0, 0), Percent(0));
    let rec = GENRecord::FASTARecord(FASTARecord {
        id: "x".to_string(),
        sequence: "GCA".to_string(),
        gc_percent: Percent(0),
        gc_count: 0,
    });
    assert_eq!(calculate_gc_content(&rec), Percent(66666));
    assert_eq!(rec.by_sequence_length(), 3);
}

#[test]
fn record_text_forms() {
    let info = parse_fasta_lines(&lines(">r1\nAC\n"), &no_filter());
    assert_eq!(info.sequences[0].to_string(), "Sequence ID:'r1' \n Sequence:'AC");
    let info = parse_fastq_lines(&lines("@q\nGT\n+\nII\n"), &no_filter());
    assert_eq!(
        info.sequences[0].to_string(),
        "Sequence ID:'q' \n Sequence:'GT' \n Quality:'II'\n"
    );
}
