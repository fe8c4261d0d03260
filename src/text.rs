//! Line-level text operations used by the parsers.

use vstd::prelude::*;
use vstd::string::StrSliceExecFns;
use vstd::utf8::encode_utf8;
use crate::record::{byte_len, lemma_len_le_byte_len};

verus! {

broadcast use vstd::string::group_string_axioms;

/// What `str::trim` leaves of a character sequence.
pub uninterp spec fn trim_of(s: Seq<char>) -> Seq<char>;

/// Relies on `str::trim`: leading and trailing whitespace removed, so
/// trimming the result again leaves it as it is.
#[verifier::external_body]
fn trim_text(s: &str) -> (r: &str)
    ensures
        r@ == trim_of(s@),
        trim_of(r@) == r@,
{
    s.trim()
}

/// The views of a sequence of lines.
pub open spec fn lines_view(lines: Seq<String>) -> Seq<Seq<char>> {
    lines.map_values(|l: String| l@)
}

/// Total number of bytes in `lines`.
pub open spec fn text_len(lines: Seq<Seq<char>>) -> nat
    decreases lines.len(),
{
    if lines.len() == 0 {
        0
    } else {
        text_len(lines.drop_last()) + byte_len(lines.last())
    }
}

pub proof fn lemma_text_len_prefix(lines: Seq<Seq<char>>, i: int)
    requires
        0 <= i <= lines.len(),
    ensures
        text_len(lines.take(i)) <= text_len(lines),
    decreases lines.len(),
{
    if i < lines.len() {
        assert(lines.drop_last().take(i) =~= lines.take(i));
        lemma_text_len_prefix(lines.drop_last(), i);
    } else {
        assert(lines.take(i) =~= lines);
    }
}

/// The line begins with `marker`.
pub open spec fn starts_with_char(line: Seq<char>, marker: char) -> bool {
    line.len() > 0 && line[0] == marker
}

/// The id that a header line names: the text after its marker, trimmed.
pub open spec fn header_id(line: Seq<char>) -> Seq<char> {
    trim_of(line.drop_first())
}

/// The FASTQ separator line: exactly `+`.
pub open spec fn is_separator_line(line: Seq<char>) -> bool {
    line =~= seq!['+']
}

pub fn line_starts_with(line: &str, marker: char) -> (r: bool)
    ensures
        r == starts_with_char(line@, marker),
{
    if line.is_empty() {
        false
    } else {
        line.get_char(0) == marker
    }
}

/// The trimmed text after the first character of `line`.
pub fn header_text(line: &str) -> (r: String)
    requires
        line@.len() > 0,
    ensures
        r@ == header_id(line@),
        trim_of(r@) == r@,
{
    let rest = line.substring_char(1, line.unicode_len());
    assert(rest@ =~= line@.drop_first());
    trim_text(rest).to_owned()
}

/// `line` trimmed, as an owned string.
pub fn trimmed_string(line: &str) -> (r: String)
    ensures
        r@ == trim_of(line@),
        trim_of(r@) == r@,
{
    trim_text(line).to_owned()
}

proof fn lemma_byte_len_single(s: Seq<char>)
    ensures
        byte_len(s) == 1 ==> s.len() == 1,
        s =~= seq!['+'] ==> byte_len(s) == 1,
{
    lemma_len_le_byte_len(s);
    if s.len() == 0 {
        assert(encode_utf8(s) =~= Seq::<u8>::empty());
    }
    if s =~= seq!['+'] {
        assert(s.drop_first() =~= Seq::<char>::empty());
        assert(encode_utf8(s.drop_first()) =~= Seq::<u8>::empty());
        assert(encode_utf8(s).len() == 1);
    }
}

/// Whether `line` is the FASTQ separator.
pub fn is_separator(line: &str) -> (r: bool)
    ensures
        r == is_separator_line(line@),
{
    let n = line.as_bytes().len();
    proof {
        lemma_byte_len_single(line@);
    }
    if n == 1 {
        line.get_char(0) == '+'
    } else {
        false
    }
}

} // verus!
