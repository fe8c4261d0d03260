//! FASTQ record extraction.
//!
//! A line that begins with `@` opens a record whose id is the rest of the
//! line, trimmed. The lines that follow are its sequence, up to a line that
//! is exactly `+`; the one line after that is its quality, trimmed. Lines
//! met while no record is open are skipped, and a record that the input
//! ends inside is dropped.

use vstd::prelude::*;
use vstd::string::StringExecFns;
use crate::record::{
    byte_len, count_gc, lemma_byte_len_concat, lemma_gc_count_le_len, lemma_len_le_byte_len,
    percent_of, FASTQRecord, GENRecord, ProcessingValues, SequenceINFO,
};
use crate::text::{
    header_id, header_text, is_separator, is_separator_line, lemma_text_len_prefix, line_starts_with,
    lines_view, starts_with_char, text_len, trim_of, trimmed_string,
};

verus! {

broadcast use vstd::string::group_string_axioms;

/// What the FASTQ scan waits for.
#[derive(PartialEq, Eq, Structural, Clone, Copy)]
pub enum FastqPhase {
    Header,
    Sequence,
    Quality,
}

/// The FASTQ scan after some lines: its phase, the open record's id and
/// sequence so far, and the records completed so far as
/// (id, sequence, quality) triples.
pub struct FastqScan {
    pub phase: FastqPhase,
    pub id: Seq<char>,
    pub seq: Seq<char>,
    pub done: Seq<(Seq<char>, Seq<char>, Seq<char>)>,
}

pub open spec fn fastq_step(st: FastqScan, line: Seq<char>) -> FastqScan {
    match st.phase {
        FastqPhase::Header => if starts_with_char(line, '@') {
            FastqScan {
                phase: FastqPhase::Sequence,
                id: header_id(line),
                seq: Seq::empty(),
                done: st.done,
            }
        } else {
            st
        },
        FastqPhase::Sequence => if is_separator_line(line) {
            FastqScan { phase: FastqPhase::Quality, ..st }
        } else {
            FastqScan { seq: st.seq + line, ..st }
        },
        FastqPhase::Quality => FastqScan {
            phase: FastqPhase::Header,
            id: Seq::empty(),
            seq: Seq::empty(),
            done: st.done.push((st.id, st.seq, trim_of(line))),
        },
    }
}

pub open spec fn fastq_scan(lines: Seq<Seq<char>>) -> FastqScan
    decreases lines.len(),
{
    if lines.len() == 0 {
        FastqScan {
            phase: FastqPhase::Header,
            id: Seq::empty(),
            seq: Seq::empty(),
            done: Seq::empty(),
        }
    } else {
        fastq_step(fastq_scan(lines.drop_last()), lines.last())
    }
}

/// Every complete record of a FASTQ input, in order, before the length
/// filter.
pub open spec fn fastq_entries(lines: Seq<Seq<char>>) -> Seq<(Seq<char>, Seq<char>, Seq<char>)> {
    fastq_scan(lines).done
}

/// The entries whose sequence length lies in `[lo, hi]`.
pub open spec fn admitted_fastq(
    entries: Seq<(Seq<char>, Seq<char>, Seq<char>)>,
    lo: nat,
    hi: nat,
) -> Seq<(Seq<char>, Seq<char>, Seq<char>)> {
    entries.filter(|e: (Seq<char>, Seq<char>, Seq<char>)| lo <= byte_len(e.1) <= hi)
}

/// The records that a FASTQ parse keeps.
pub open spec fn fastq_kept(lines: Seq<Seq<char>>, filter: ProcessingValues) -> Seq<
    (Seq<char>, Seq<char>, Seq<char>),
> {
    admitted_fastq(fastq_entries(lines), filter.min_length as nat, filter.max_length as nat)
}

/// The FASTQ record `r` carries the id, sequence and quality of `e`.
pub open spec fn fastq_record_is(r: GENRecord, e: (Seq<char>, Seq<char>, Seq<char>)) -> bool {
    match r {
        GENRecord::FASTQRecord(q) => q.id@ == e.0 && q.sequence@ == e.1 && q.quality@ == e.2,
        GENRecord::FASTARecord(_) => false,
    }
}

/// `recs` are FASTQ records carrying the fields of `entries`.
pub open spec fn fastq_records_are(
    recs: Seq<GENRecord>,
    entries: Seq<(Seq<char>, Seq<char>, Seq<char>)>,
) -> bool {
    &&& recs.len() == entries.len()
    &&& forall|i: int| 0 <= i < recs.len() ==> #[trigger] fastq_record_is(recs[i], entries[i])
}

/// Every record in `recs` is a FASTQ record whose id and quality trimming
/// leaves as they are.
pub open spec fn fields_trimmed(recs: Seq<GENRecord>) -> bool {
    forall|i: int|
        0 <= i < recs.len() ==> match #[trigger] recs[i] {
            GENRecord::FASTQRecord(q) => trim_of(q.id@) == q.id@ && trim_of(q.quality@)
                == q.quality@,
            GENRecord::FASTARecord(_) => false,
        }
}

/// Builds a FASTQ record with its GC figures.
fn new_fastq_record(id: &String, sequence: &String, quality: String) -> (r: GENRecord)
    ensures
        fastq_record_is(r, (id@, sequence@, quality@)),
        r.wf(),
{
    let gc_count = count_gc(sequence.as_str());
    let len = sequence.as_str().as_bytes().len();
    proof {
        lemma_gc_count_le_len(sequence@);
        lemma_len_le_byte_len(sequence@);
    }
    let gc_percent = percent_of(gc_count, len);
    GENRecord::FASTQRecord(
        FASTQRecord { id: id.clone(), sequence: sequence.clone(), quality, gc_percent, gc_count },
    )
}

pub proof fn lemma_admitted_fastq_push(
    entries: Seq<(Seq<char>, Seq<char>, Seq<char>)>,
    e: (Seq<char>, Seq<char>, Seq<char>),
    lo: nat,
    hi: nat,
)
    ensures
        admitted_fastq(entries.push(e), lo, hi) == if lo <= byte_len(e.1) <= hi {
            admitted_fastq(entries, lo, hi).push(e)
        } else {
            admitted_fastq(entries, lo, hi)
        },
{
    entries.lemma_filter_push(
        e,
        |e: (Seq<char>, Seq<char>, Seq<char>)| lo <= byte_len(e.1) <= hi,
    );
}

/// Extracts the FASTQ records of `lines`, in input order, keeping those
/// whose length `filter` admits, with their GC figures and the run totals.
pub fn parse_fastq_lines(lines: &Vec<String>, filter: &ProcessingValues) -> (r: SequenceINFO)
    requires
        text_len(lines_view(lines@)) <= usize::MAX,
    ensures
        r.wf(),
        fastq_records_are(r.sequences@, fastq_kept(lines_view(lines@), *filter)),
        fields_trimmed(r.sequences@),
        forall|i: int|
            0 <= i < r.sequences@.len() ==> {
                &&& filter.admits(#[trigger] r.sequences@[i].spec_len())
                &&& !is_separator_line(r.sequences@[i].spec_sequence())
            },
{
    let ghost view = lines_view(lines@);
    let ghost lo = filter.min_length as nat;
    let ghost hi = filter.max_length as nat;
    let mut info = SequenceINFO::empty();
    let mut phase = FastqPhase::Header;
    let mut id = String::new();
    let mut sequence = String::new();
    let mut i: usize = 0;
    while i < lines.len()
        invariant
            i <= lines.len(),
            view == lines_view(lines@),
            lo == filter.min_length,
            hi == filter.max_length,
            text_len(view) <= usize::MAX,
            info.wf(),
            phase == fastq_scan(view.take(i as int)).phase,
            id@ == fastq_scan(view.take(i as int)).id,
            sequence@ == fastq_scan(view.take(i as int)).seq,
            fastq_records_are(
                info.sequences@,
                admitted_fastq(fastq_scan(view.take(i as int)).done, lo, hi),
            ),
            info.total_nucleotides + byte_len(sequence@) <= text_len(view.take(i as int)),
            fields_trimmed(info.sequences@),
            phase != FastqPhase::Header ==> trim_of(id@) == id@,
        decreases lines.len() - i,
    {
        let line = lines[i].as_str();
        let ghost st = fastq_scan(view.take(i as int));
        let ghost before = info.sequences@;
        proof {
            assert(view.take(i + 1).drop_last() =~= view.take(i as int));
            assert(view.take(i + 1).last() == line@);
            lemma_text_len_prefix(view, i + 1);
        }
        match phase {
            FastqPhase::Header => {
                if line_starts_with(line, '@') {
                    id = header_text(line);
                    sequence = String::new();
                    phase = FastqPhase::Sequence;
                }
            },
            FastqPhase::Sequence => {
                if is_separator(line) {
                    phase = FastqPhase::Quality;
                } else {
                    proof {
                        lemma_byte_len_concat(sequence@, line@);
                    }
                    sequence.append(line);
                }
            },
            FastqPhase::Quality => {
                let len = sequence.as_str().as_bytes().len();
                proof {
                    lemma_admitted_fastq_push(st.done, (st.id, st.seq, trim_of(line@)), lo, hi);
                }
                if filter.min_length <= len && len <= filter.max_length {
                    let quality = trimmed_string(line);
                    let rec = new_fastq_record(&id, &sequence, quality);
                    let gc = match &rec {
                        GENRecord::FASTARecord(r) => r.gc_count,
                        GENRecord::FASTQRecord(r) => r.gc_count,
                    };
                    info.push_record(rec, len, gc);
                    proof {
                        let kept = admitted_fastq(st.done, lo, hi).push(
                            (st.id, st.seq, trim_of(line@)),
                        );
                        assert forall|k: int| 0 <= k < info.sequences@.len() implies #[trigger]
                            fastq_record_is(info.sequences@[k], kept[k]) by {
                            if k < before.len() {
                                assert(info.sequences@[k] == before[k]);
                            }
                        }
                        assert forall|k: int| 0 <= k < info.sequences@.len() implies match #[trigger]
                            info.sequences@[k] {
                            GENRecord::FASTQRecord(q) => trim_of(q.id@) == q.id@ && trim_of(
                                q.quality@,
                            ) == q.quality@,
                            GENRecord::FASTARecord(_) => false,
                        } by {
                            if k < before.len() {
                                assert(info.sequences@[k] == before[k]);
                            }
                        }
                    }
                }
                id = String::new();
                sequence = String::new();
                phase = FastqPhase::Header;
            },
        }
        i = i + 1;
    }
    proof {
        assert(view.take(i as int) =~= view);
        lemma_fastq_entries_shape(view);
        lemma_admitted_fastq_shaped(fastq_entries(view), lo, hi);
        let kept = fastq_kept(view, *filter);
        assert forall|k: int| 0 <= k < info.sequences@.len() implies {
            &&& filter.admits(#[trigger] info.sequences@[k].spec_len())
            &&& !is_separator_line(info.sequences@[k].spec_sequence())
        } by {
            assert(fastq_record_is(info.sequences@[k], kept[k]));
        }
    }
    info
}


/// Every entry of `d` has a sequence other than the separator.
pub open spec fn fastq_shaped(d: Seq<(Seq<char>, Seq<char>, Seq<char>)>) -> bool {
    forall|i: int| 0 <= i < d.len() ==> !is_separator_line(#[trigger] d[i].1)
}

proof fn lemma_concat_not_separator(a: Seq<char>, b: Seq<char>)
    requires
        !is_separator_line(a),
        !is_separator_line(b),
    ensures
        !is_separator_line(a + b),
{
    if a.len() == 0 {
        assert(a + b =~= b);
    } else if b.len() == 0 {
        assert(a + b =~= a);
    } else {
        assert((a + b).len() >= 2);
    }
}

/// No sequence that a FASTQ parse builds is the separator line.
pub proof fn lemma_fastq_entries_shape(lines: Seq<Seq<char>>)
    ensures
        !is_separator_line(fastq_scan(lines).seq),
        fastq_shaped(fastq_entries(lines)),
    decreases lines.len(),
{
    if lines.len() == 0 {
        assert(!is_separator_line(Seq::<char>::empty()));
    } else {
        let prev = lines.drop_last();
        lemma_fastq_entries_shape(prev);
        let st = fastq_scan(prev);
        assert(!is_separator_line(Seq::<char>::empty()));
        if st.phase == FastqPhase::Sequence && !is_separator_line(lines.last()) {
            lemma_concat_not_separator(st.seq, lines.last());
        }
        if st.phase == FastqPhase::Quality {
            let e = (st.id, st.seq, trim_of(lines.last()));
            assert forall|i: int| 0 <= i < st.done.push(e).len() implies !is_separator_line(
                #[trigger] st.done.push(e)[i].1,
            ) by {
                if i < st.done.len() {
                    assert(st.done.push(e)[i] == st.done[i]);
                }
            }
        }
    }
}

proof fn lemma_admitted_fastq_shaped(d: Seq<(Seq<char>, Seq<char>, Seq<char>)>, lo: nat, hi: nat)
    requires
        fastq_shaped(d),
    ensures
        fastq_shaped(admitted_fastq(d, lo, hi)),
        forall|i: int|
            0 <= i < admitted_fastq(d, lo, hi).len() ==> lo <= byte_len(
                #[trigger] admitted_fastq(d, lo, hi)[i].1,
            ) <= hi,
    decreases d.len(),
{
    if d.len() == 0 {
        assert(admitted_fastq(d, lo, hi) =~= d);
    } else {
        let prev = d.drop_last();
        assert(fastq_shaped(prev)) by {
            assert forall|i: int| 0 <= i < prev.len() implies !is_separator_line(
                #[trigger] prev[i].1,
            ) by {
                assert(prev[i] == d[i]);
            }
        }
        lemma_admitted_fastq_shaped(prev, lo, hi);
        assert(prev.push(d.last()) =~= d);
        assert(d[d.len() - 1] == d.last());
        lemma_admitted_fastq_push(prev, d.last(), lo, hi);
        let a = admitted_fastq(prev, lo, hi);
        if lo <= byte_len(d.last().1) <= hi {
            assert forall|i: int| 0 <= i < a.push(d.last()).len() implies !is_separator_line(
                #[trigger] a.push(d.last())[i].1,
            ) && lo <= byte_len(a.push(d.last())[i].1) <= hi by {
                if i < a.len() {
                    assert(a.push(d.last())[i] == a[i]);
                }
            }
        }
    }
}

/// Four lines that write the record `(id, seq, quality)` out in FASTQ form.
pub open spec fn fastq_text(id: Seq<char>, seq: Seq<char>, quality: Seq<char>) -> Seq<
    Seq<char>,
> {
    seq![seq!['@'] + id, seq, seq!['+'], quality]
}

/// Round trip: a record as a FASTQ parse writes it (id and quality already
/// trimmed, a sequence other than the separator), written back out as four
/// lines and parsed again under a filter that admits its length, is the
/// one record of that parse, with the same id, sequence and quality.
pub proof fn lemma_fastq_round_trip(
    id: Seq<char>,
    seq: Seq<char>,
    quality: Seq<char>,
    filter: ProcessingValues,
)
    requires
        trim_of(id) == id,
        trim_of(quality) == quality,
        !is_separator_line(seq),
        filter.admits(byte_len(seq)),
    ensures
        fastq_kept(fastq_text(id, seq, quality), filter) == seq![(id, seq, quality)],
{
    let lines = fastq_text(id, seq, quality);
    let header = seq!['@'] + id;
    assert(header.drop_first() =~= id);
    assert(starts_with_char(header, '@'));
    assert(is_separator_line(seq!['+']));
    let l1 = seq![header];
    let l2 = seq![header, seq];
    let l3 = seq![header, seq, seq!['+']];
    assert(lines.drop_last() =~= l3);
    assert(l3.drop_last() =~= l2);
    assert(l2.drop_last() =~= l1);
    assert(l1.drop_last() =~= Seq::<Seq<char>>::empty());
    assert(Seq::<char>::empty() + seq =~= seq);
    assert(l1.last() == header);
    assert(l2.last() == seq);
    assert(l3.last() == seq!['+']);
    assert(lines.last() == quality);
    let s0 = fastq_scan(Seq::<Seq<char>>::empty());
    assert(s0.phase == FastqPhase::Header);
    let s1 = fastq_scan(l1);
    assert(s1.phase == FastqPhase::Sequence && s1.id == id && s1.seq.len() == 0);
    let s2 = fastq_scan(l2);
    assert(s2.phase == FastqPhase::Sequence && s2.seq == seq);
    let s3 = fastq_scan(l3);
    assert(s3.phase == FastqPhase::Quality);
    assert(fastq_entries(lines) =~= seq![(id, seq, quality)]);
    let lo = filter.min_length as nat;
    let hi = filter.max_length as nat;
    let empty = Seq::<(Seq<char>, Seq<char>, Seq<char>)>::empty();
    lemma_admitted_fastq_push(empty, (id, seq, quality), lo, hi);
    assert(admitted_fastq(empty, lo, hi) =~= empty);
    assert(empty.push((id, seq, quality)) =~= seq![(id, seq, quality)]);
}

} // verus!
