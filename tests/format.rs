use seqstats::format::{detect_format_from_filename, Format};
use std::str::FromStr;

#[test]
fn format_names_in_any_case() {
    assert_eq!(Format::from_name("FASTA"), Ok(Format::Fasta));
    assert_eq!(Format::from_name("fa"), Ok(Format::Fasta));
    assert_eq!(Format::from_name("FaStQ"), Ok(Format::Fastq));
    assert_eq!(Format::from_str("fq"), Ok(Format::Fastq));
}

#[test]
fn unknown_format_name_is_an_error() {
    assert_eq!(Format::from_name("Bam"), Err("Invalid Format: Bam".to_string()));
    assert_eq!(Format::from_str("fastaa"), Err("Invalid Format: fastaa".to_string()));
}

#[test]
fn format_display_names() {
    assert_eq!(Format::Fasta.to_string(), "FASTA");
    assert_eq!(Format::Fastq.to_string(), "FASTQ");
}

#[test]
fn format_from_file_extension() {
    assert_eq!(detect_format_from_filename("reads.fastq"), Some("FASTQ"));
    assert_eq!(detect_format_from_filename("reads.fastq.gz"), Some("FASTQ"));
    assert_eq!(detect_format_from_filename("genome.fasta"), Some("FASTA"));
    assert_eq!(detect_format_from_filename("genome.fasta.gz"), Some("FASTA"));
    assert_eq!(detect_format_from_filename("genome.fa"), Some("FASTA"));
    assert_eq!(detect_format_from_filename("genome.txt"), None);
    assert_eq!(detect_format_from_filename("fastq"), None);
}
