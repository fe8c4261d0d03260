//! Input formats and how they are named.

use vstd::prelude::*;
use vstd::string::StringExecFns;

verus! {

broadcast use vstd::string::group_string_axioms;

/// The two supported input formats.
#[derive(Debug, Clone, Copy, PartialEq, Eq, Structural)]
pub enum Format {
    Fasta,
    Fastq,
}

/// What `str::to_lowercase` makes of a character sequence.
pub uninterp spec fn lower_of(s: Seq<char>) -> Seq<char>;

/// Relies on `str::to_lowercase`: the result depends on the characters
/// alone.
#[verifier::external_body]
fn lowercase(s: &str) -> (r: String)
    ensures
        r@ == lower_of(s@),
{
    s.to_lowercase()
}

/// Relies on `str == str`: equal exactly when the characters are.
#[verifier::external_body]
fn same_text(a: &str, b: &str) -> (r: bool)
    ensures
        r == (a@ == b@),
{
    a == b
}

/// Relies on `str::ends_with` with a `&str` pattern: whether `suffix` is the
/// end of `s`.
#[verifier::external_body]
fn ends_with(s: &str, suffix: &str) -> (r: bool)
    ensures
        r == has_suffix(s@, suffix@),
{
    s.ends_with(suffix)
}

/// `suffix` is the end of `s`.
pub open spec fn has_suffix(s: Seq<char>, suffix: Seq<char>) -> bool {
    suffix.len() <= s.len() && s.subrange(s.len() - suffix.len(), s.len() as int) == suffix
}

/// The format that a lower-case name stands for.
pub open spec fn format_of_name(name: Seq<char>) -> Option<Format> {
    if name == "fasta"@ || name == "fa"@ {
        Some(Format::Fasta)
    } else if name == "fastq"@ || name == "fq"@ {
        Some(Format::Fastq)
    } else {
        None
    }
}

/// A file name that marks FASTQ content.
pub open spec fn fastq_file_name(name: Seq<char>) -> bool {
    has_suffix(name, ".fastq"@) || has_suffix(name, ".fastq.gz"@)
}

/// A file name that marks FASTA content.
pub open spec fn fasta_file_name(name: Seq<char>) -> bool {
    has_suffix(name, ".fasta"@) || has_suffix(name, ".fasta.gz"@) || has_suffix(name, ".fa"@)
}

/// The format that an already lower-cased name stands for.
pub fn format_from_lowercase(name: &str) -> (r: Option<Format>)
    ensures
        r == format_of_name(name@),
{
    if same_text(name, "fasta") || same_text(name, "fa") {
        Some(Format::Fasta)
    } else if same_text(name, "fastq") || same_text(name, "fq") {
        Some(Format::Fastq)
    } else {
        None
    }
}

impl Format {
    /// The format a name stands for, in any case: `fasta` or `fa`, `fastq`
    /// or `fq`. Any other name is an error that quotes it.
    pub fn from_name(input: &str) -> (r: Result<Format, String>)
        ensures
            match r {
                Ok(f) => format_of_name(lower_of(input@)) == Some(f),
                Err(msg) => format_of_name(lower_of(input@)) is None && msg@ == "Invalid Format: "@
                    + input@,
            },
    {
        let lower = lowercase(input);
        match format_from_lowercase(lower.as_str()) {
            Some(f) => Ok(f),
            None => {
                let mut msg = "Invalid Format: ".to_owned();
                msg.append(input);
                Err(msg)
            },
        }
    }

    /// The format's name in capitals.
    pub fn to_string(&self) -> (r: String)
        ensures
            r@ == match self {
                Format::Fasta => "FASTA"@,
                Format::Fastq => "FASTQ"@,
            },
    {
        match self {
            Format::Fasta => "FASTA".to_owned(),
            Format::Fastq => "FASTQ".to_owned(),
        }
    }
}

impl core::str::FromStr for Format {
    type Err = String;

    fn from_str(input: &str) -> Result<Format, String> {
        Format::from_name(input)
    }
}

/// The format name that a file's extension suggests: `FASTQ` for `.fastq`
/// and `.fastq.gz`, else `FASTA` for `.fasta`, `.fasta.gz` and `.fa`, else
/// none.
pub fn detect_format_from_filename(filename: &str) -> (r: Option<&'static str>)
    ensures
        r is Some <==> fastq_file_name(filename@) || fasta_file_name(filename@),
        fastq_file_name(filename@) ==> r is Some && r->0@ == "FASTQ"@,
        !fastq_file_name(filename@) && fasta_file_name(filename@) ==> r is Some && r->0@
            == "FASTA"@,
{
    if ends_with(filename, ".fastq") || ends_with(filename, ".fastq.gz") {
        Some("FASTQ")
    } else if ends_with(filename, ".fasta") || ends_with(filename, ".fasta.gz") || ends_with(
        filename,
        ".fa",
    ) {
        Some("FASTA")
    } else {
        None
    }
}

} // verus!
