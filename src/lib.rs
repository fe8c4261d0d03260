//! Record extraction and length / composition statistics for FASTA and
//! FASTQ sequence files.

pub mod record;
pub mod text;
pub mod fasta;
pub mod fastq;
pub mod format;
pub mod stats;
