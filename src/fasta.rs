//! FASTA record extraction.
//!
//! A line that begins with `>` opens a record whose id is the rest of the
//! line, trimmed; every other line is appended to the open record's
//! sequence. A record is closed by the next header or by the end of input,
//! and is dropped if its id is empty or its length is outside the filter.

use vstd::prelude::*;
use vstd::string::StringExecFns;
use crate::record::{
    byte_len, count_gc, lemma_byte_len_concat, lemma_gc_count_le_len, lemma_len_le_byte_len, percent_of, FASTARecord,
    GENRecord, ProcessingValues, SequenceINFO,
};
use crate::text::{
    header_id, header_text, lemma_text_len_prefix, line_starts_with, lines_view, starts_with_char,
    text_len, trim_of,
};

verus! {

broadcast use vstd::string::group_string_axioms;

/// The FASTA scan after some lines: the id of the open record (empty when
/// none is open), its sequence so far, and the records closed so far as
/// (id, sequence) pairs.
pub struct FastaScan {
    pub id: Seq<char>,
    pub seq: Seq<char>,
    pub done: Seq<(Seq<char>, Seq<char>)>,
}

/// Closes the open record, if it has an id.
pub open spec fn fasta_close(st: FastaScan) -> Seq<(Seq<char>, Seq<char>)> {
    if st.id.len() > 0 {
        st.done.push((st.id, st.seq))
    } else {
        st.done
    }
}

pub open spec fn fasta_step(st: FastaScan, line: Seq<char>) -> FastaScan {
    if starts_with_char(line, '>') {
        FastaScan { id: header_id(line), seq: Seq::empty(), done: fasta_close(st) }
    } else {
        FastaScan { id: st.id, seq: st.seq + line, done: st.done }
    }
}

pub open spec fn fasta_scan(lines: Seq<Seq<char>>) -> FastaScan
    decreases lines.len(),
{
    if lines.len() == 0 {
        FastaScan { id: Seq::empty(), seq: Seq::empty(), done: Seq::empty() }
    } else {
        fasta_step(fasta_scan(lines.drop_last()), lines.last())
    }
}

/// Every record of a FASTA input, in order, before the length filter.
pub open spec fn fasta_entries(lines: Seq<Seq<char>>) -> Seq<(Seq<char>, Seq<char>)> {
    fasta_close(fasta_scan(lines))
}

/// The entries whose sequence length lies in `[lo, hi]`.
pub open spec fn admitted(entries: Seq<(Seq<char>, Seq<char>)>, lo: nat, hi: nat) -> Seq<
    (Seq<char>, Seq<char>),
> {
    entries.filter(|e: (Seq<char>, Seq<char>)| lo <= byte_len(e.1) <= hi)
}

/// The records that a FASTA parse keeps.
pub open spec fn fasta_kept(lines: Seq<Seq<char>>, filter: ProcessingValues) -> Seq<
    (Seq<char>, Seq<char>),
> {
    admitted(fasta_entries(lines), filter.min_length as nat, filter.max_length as nat)
}

/// `recs` are FASTA records carrying the ids and sequences of `entries`.
pub open spec fn fasta_records_are(recs: Seq<GENRecord>, entries: Seq<(Seq<char>, Seq<char>)>) -> bool {
    &&& recs.len() == entries.len()
    &&& forall|i: int|
        0 <= i < recs.len() ==> {
            &&& #[trigger] recs[i] is FASTARecord
            &&& recs[i].spec_id() == entries[i].0
            &&& recs[i].spec_sequence() == entries[i].1
        }
}

/// Every record in `recs` has an id that trimming leaves as it is.
pub open spec fn ids_trimmed(recs: Seq<GENRecord>) -> bool {
    forall|i: int| 0 <= i < recs.len() ==> trim_of(#[trigger] recs[i].spec_id()) == recs[i].spec_id()
}

/// Builds a FASTA record with its GC figures.
fn new_fasta_record(id: &String, sequence: &String) -> (r: GENRecord)
    ensures
        r is FASTARecord,
        r.spec_id() == id@,
        r.spec_sequence() == sequence@,
        r.wf(),
{
    let gc_count = count_gc(sequence.as_str());
    let len = sequence.as_str().as_bytes().len();
    proof {
        lemma_gc_count_le_len(sequence@);
        lemma_len_le_byte_len(sequence@);
    }
    let gc_percent = percent_of(gc_count, len);
    GENRecord::FASTARecord(
        FASTARecord { id: id.clone(), sequence: sequence.clone(), gc_percent, gc_count },
    )
}

/// Closes the open record into `info` if the filter admits its length.
fn close_record(info: &mut SequenceINFO, id: &String, sequence: &String, filter: &ProcessingValues)
    requires
        old(info).wf(),
        id@.len() > 0,
        old(info).total_nucleotides + byte_len(sequence@) <= usize::MAX,
        trim_of(id@) == id@,
        ids_trimmed(old(info).sequences@),
    ensures
        final(info).wf(),
        ids_trimmed(final(info).sequences@),
        filter.admits(byte_len(sequence@)) ==> {
            &&& final(info).sequences@.len() == old(info).sequences@.len() + 1
            &&& final(info).sequences@.drop_last() == old(info).sequences@
            &&& final(info).sequences@.last() is FASTARecord
            &&& final(info).sequences@.last().spec_id() == id@
            &&& final(info).sequences@.last().spec_sequence() == sequence@
            &&& final(info).total_nucleotides == old(info).total_nucleotides + byte_len(
                sequence@,
            )
        },
        !filter.admits(byte_len(sequence@)) ==> *final(info) == *old(info),
{
    let len = sequence.as_str().as_bytes().len();
    if filter.min_length <= len && len <= filter.max_length {
        let rec = new_fasta_record(id, sequence);
        let gc = match &rec {
            GENRecord::FASTARecord(r) => r.gc_count,
            GENRecord::FASTQRecord(r) => r.gc_count,
        };
        info.push_record(rec, len, gc);
        proof {
            assert(info.sequences@.drop_last() =~= old(info).sequences@);
            assert forall|i: int| 0 <= i < info.sequences@.len() implies trim_of(
                #[trigger] info.sequences@[i].spec_id(),
            ) == info.sequences@[i].spec_id() by {
                if i < old(info).sequences@.len() {
                    assert(info.sequences@[i] == old(info).sequences@[i]);
                }
            }
        }
    }
}


pub proof fn lemma_admitted_push(
    entries: Seq<(Seq<char>, Seq<char>)>,
    e: (Seq<char>, Seq<char>),
    lo: nat,
    hi: nat,
)
    ensures
        admitted(entries.push(e), lo, hi) == if lo <= byte_len(e.1) <= hi {
            admitted(entries, lo, hi).push(e)
        } else {
            admitted(entries, lo, hi)
        },
{
    entries.lemma_filter_push(e, |e: (Seq<char>, Seq<char>)| lo <= byte_len(e.1) <= hi);
}

/// Records that match the admitted entries of `done`, after the record
/// `(id, seq)` is closed into them, match the admitted entries of `done`
/// with `(id, seq)` added.
proof fn lemma_close_matches(
    before: Seq<GENRecord>,
    after: Seq<GENRecord>,
    done: Seq<(Seq<char>, Seq<char>)>,
    id: Seq<char>,
    seq: Seq<char>,
    lo: nat,
    hi: nat,
)
    requires
        fasta_records_are(before, admitted(done, lo, hi)),
        lo <= byte_len(seq) <= hi ==> {
            &&& after.len() == before.len() + 1
            &&& after.drop_last() == before
            &&& after.last() is FASTARecord
            &&& after.last().spec_id() == id
            &&& after.last().spec_sequence() == seq
        },
        !(lo <= byte_len(seq) <= hi) ==> after == before,
    ensures
        fasta_records_are(after, admitted(done.push((id, seq)), lo, hi)),
{
    lemma_admitted_push(done, (id, seq), lo, hi);
    if lo <= byte_len(seq) <= hi {
        let kept = admitted(done, lo, hi).push((id, seq));
        assert forall|i: int| 0 <= i < after.len() implies {
            &&& #[trigger] after[i] is FASTARecord
            &&& after[i].spec_id() == kept[i].0
            &&& after[i].spec_sequence() == kept[i].1
        } by {
            if i < before.len() {
                assert(after[i] == after.drop_last()[i]);
            }
        }
    }
}

/// Extracts the FASTA records of `lines`, in input order, keeping those
/// whose length `filter` admits, with their GC figures and the run totals.
pub fn parse_fasta_lines(lines: &Vec<String>, filter: &ProcessingValues) -> (r: SequenceINFO)
    requires
        text_len(lines_view(lines@)) <= usize::MAX,
    ensures
        r.wf(),
        fasta_records_are(r.sequences@, fasta_kept(lines_view(lines@), *filter)),
        ids_trimmed(r.sequences@),
        forall|i: int|
            0 <= i < r.sequences@.len() ==> {
                &&& filter.admits(#[trigger] r.sequences@[i].spec_len())
                &&& !starts_with_char(r.sequences@[i].spec_sequence(), '>')
                &&& r.sequences@[i].spec_id().len() > 0
            },
{
    let ghost view = lines_view(lines@);
    let ghost lo = filter.min_length as nat;
    let ghost hi = filter.max_length as nat;
    let mut info = SequenceINFO::empty();
    let mut id = String::new();
    let mut sequence = String::new();
    let mut i: usize = 0;
    while i < lines.len()
        invariant
            i <= lines.len(),
            view == lines_view(lines@),
            lo == filter.min_length,
            hi == filter.max_length,
            text_len(view) <= usize::MAX,
            info.wf(),
            id@ == fasta_scan(view.take(i as int)).id,
            sequence@ == fasta_scan(view.take(i as int)).seq,
            fasta_records_are(info.sequences@, admitted(fasta_scan(view.take(i as int)).done, lo, hi)),
            info.total_nucleotides + byte_len(sequence@) <= text_len(view.take(i as int)),
            ids_trimmed(info.sequences@),
            id@.len() > 0 ==> trim_of(id@) == id@,
        decreases lines.len() - i,
    {
        let line = lines[i].as_str();
        let ghost st = fasta_scan(view.take(i as int));
        let ghost before = info.sequences@;
        proof {
            assert(view.take(i + 1).drop_last() =~= view.take(i as int));
            assert(view.take(i + 1).last() == line@);
            lemma_text_len_prefix(view, i + 1);
        }
        if line_starts_with(line, '>') {
            if !id.as_str().is_empty() {
                close_record(&mut info, &id, &sequence, filter);
                proof {
                    lemma_close_matches(before, info.sequences@, st.done, st.id, st.seq, lo, hi);
                }
            }
            id = header_text(line);
            sequence = String::new();
        } else {
            proof {
                lemma_byte_len_concat(sequence@, line@);
            }
            sequence.append(line);
        }
        i = i + 1;
    }
    proof {
        assert(view.take(i as int) =~= view);
    }
    if !id.as_str().is_empty() {
        let ghost st = fasta_scan(view);
        let ghost before = info.sequences@;
        close_record(&mut info, &id, &sequence, filter);
        proof {
            lemma_close_matches(before, info.sequences@, st.done, st.id, st.seq, lo, hi);
        }
    }
    proof {
        lemma_fasta_entries_shape(view);
        lemma_admitted_shaped(fasta_entries(view), lo, hi);
        let kept = fasta_kept(view, *filter);
        assert forall|i: int| 0 <= i < info.sequences@.len() implies {
            &&& filter.admits(#[trigger] info.sequences@[i].spec_len())
            &&& !starts_with_char(info.sequences@[i].spec_sequence(), '>')
            &&& info.sequences@[i].spec_id().len() > 0
        } by {
            assert(info.sequences@[i].spec_sequence() == kept[i].1);
        }
    }
    info
}


/// Number of lines in `lines` that begin with `marker`.
pub open spec fn header_count(lines: Seq<Seq<char>>, marker: char) -> nat
    decreases lines.len(),
{
    if lines.len() == 0 {
        0
    } else {
        header_count(lines.drop_last(), marker) + if starts_with_char(lines.last(), marker) {
            1nat
        } else {
            0nat
        }
    }
}

/// Every header line of `lines` names a non-empty id.
pub open spec fn headers_named(lines: Seq<Seq<char>>) -> bool {
    forall|i: int|
        0 <= i < lines.len() && starts_with_char(#[trigger] lines[i], '>') ==> header_id(
            lines[i],
        ).len() > 0
}

proof fn lemma_scan_count(lines: Seq<Seq<char>>)
    requires
        headers_named(lines),
    ensures
        fasta_entries(lines).len() == header_count(lines, '>'),
        header_count(lines, '>') == 0 <==> fasta_scan(lines).id.len() == 0,
    decreases lines.len(),
{
    if lines.len() > 0 {
        let prev = lines.drop_last();
        assert forall|i: int|
            0 <= i < prev.len() && starts_with_char(#[trigger] prev[i], '>') implies header_id(
            prev[i],
        ).len() > 0 by {
            assert(prev[i] == lines[i]);
        }
        lemma_scan_count(prev);
        assert(lines[lines.len() - 1] == lines.last());
    }
}

proof fn lemma_admitted_all(entries: Seq<(Seq<char>, Seq<char>)>, lo: nat, hi: nat)
    requires
        forall|i: int| 0 <= i < entries.len() ==> lo <= byte_len(#[trigger] entries[i].1) <= hi,
    ensures
        admitted(entries, lo, hi) == entries,
    decreases entries.len(),
{
    if entries.len() > 0 {
        let prev = entries.drop_last();
        assert forall|i: int| 0 <= i < prev.len() implies lo <= byte_len(#[trigger] prev[i].1)
            <= hi by {
            assert(prev[i] == entries[i]);
        }
        lemma_admitted_all(prev, lo, hi);
        assert(prev.push(entries.last()) =~= entries);
        assert(entries[entries.len() - 1] == entries.last());
        lemma_admitted_push(prev, entries.last(), lo, hi);
    } else {
        assert(admitted(entries, lo, hi) =~= entries);
    }
}

/// Record count: a FASTA input with `k` header lines, each naming an id,
/// has exactly `k` records; the filter keeps those of them whose length it
/// admits, in order, so a filter that admits every length keeps all `k`.
pub proof fn lemma_fasta_record_count(lines: Seq<Seq<char>>, filter: ProcessingValues)
    requires
        headers_named(lines),
    ensures
        fasta_entries(lines).len() == header_count(lines, '>'),
        fasta_kept(lines, filter) == fasta_entries(lines).filter(
            |e: (Seq<char>, Seq<char>)| filter.admits(byte_len(e.1)),
        ),
        (forall|i: int|
            0 <= i < fasta_entries(lines).len() ==> filter.admits(
                byte_len(#[trigger] fasta_entries(lines)[i].1),
            )) ==> fasta_kept(lines, filter).len() == header_count(lines, '>'),
{
    lemma_scan_count(lines);
    let lo = filter.min_length as nat;
    let hi = filter.max_length as nat;
    assert(fasta_kept(lines, filter) =~= fasta_entries(lines).filter(
        |e: (Seq<char>, Seq<char>)| filter.admits(byte_len(e.1)),
    )) by {
        assert((|e: (Seq<char>, Seq<char>)| lo <= byte_len(e.1) <= hi) =~= (|
            e: (Seq<char>, Seq<char>),
        | filter.admits(byte_len(e.1))));
    }
    if forall|i: int|
        0 <= i < fasta_entries(lines).len() ==> filter.admits(
            byte_len(#[trigger] fasta_entries(lines)[i].1),
        ) {
        lemma_admitted_all(fasta_entries(lines), lo, hi);
    }
}


/// Two lines that write the record `(id, seq)` out in FASTA form.
pub open spec fn fasta_text(id: Seq<char>, seq: Seq<char>) -> Seq<Seq<char>> {
    seq![seq!['>'] + id, seq]
}

proof fn lemma_concat_not_header(a: Seq<char>, b: Seq<char>)
    requires
        !starts_with_char(a, '>'),
        !starts_with_char(b, '>'),
    ensures
        !starts_with_char(a + b, '>'),
{
    if a.len() == 0 {
        assert(a + b =~= b);
    } else {
        assert((a + b)[0] == a[0]);
    }
}

/// Every entry of `d` has an id and a sequence that does not begin with
/// the header marker.
pub open spec fn fasta_shaped(d: Seq<(Seq<char>, Seq<char>)>) -> bool {
    forall|i: int|
        0 <= i < d.len() ==> {
            &&& !starts_with_char(#[trigger] d[i].1, '>')
            &&& d[i].0.len() > 0
        }
}

proof fn lemma_shaped_push(d: Seq<(Seq<char>, Seq<char>)>, e: (Seq<char>, Seq<char>))
    requires
        fasta_shaped(d),
        !starts_with_char(e.1, '>'),
        e.0.len() > 0,
    ensures
        fasta_shaped(d.push(e)),
{
    assert forall|i: int| 0 <= i < d.push(e).len() implies {
        &&& !starts_with_char(#[trigger] d.push(e)[i].1, '>')
        &&& d.push(e)[i].0.len() > 0
    } by {
        if i < d.len() {
            assert(d.push(e)[i] == d[i]);
        }
    }
}

/// No sequence that a FASTA parse builds begins with the header marker,
/// and every record it closes has an id.
pub proof fn lemma_fasta_entries_shape(lines: Seq<Seq<char>>)
    ensures
        !starts_with_char(fasta_scan(lines).seq, '>'),
        fasta_shaped(fasta_scan(lines).done),
        fasta_shaped(fasta_entries(lines)),
    decreases lines.len(),
{
    if lines.len() > 0 {
        let prev = lines.drop_last();
        lemma_fasta_entries_shape(prev);
        let st = fasta_scan(prev);
        if !starts_with_char(lines.last(), '>') {
            lemma_concat_not_header(st.seq, lines.last());
        }
    }
    let st = fasta_scan(lines);
    if st.id.len() > 0 {
        lemma_shaped_push(st.done, (st.id, st.seq));
    }
}

proof fn lemma_admitted_shaped(d: Seq<(Seq<char>, Seq<char>)>, lo: nat, hi: nat)
    requires
        fasta_shaped(d),
    ensures
        fasta_shaped(admitted(d, lo, hi)),
        forall|i: int|
            0 <= i < admitted(d, lo, hi).len() ==> lo <= byte_len(
                #[trigger] admitted(d, lo, hi)[i].1,
            ) <= hi,
    decreases d.len(),
{
    if d.len() == 0 {
        assert(admitted(d, lo, hi) =~= d);
    } else {
        let prev = d.drop_last();
        assert(fasta_shaped(prev)) by {
            assert forall|i: int| 0 <= i < prev.len() implies {
                &&& !starts_with_char(#[trigger] prev[i].1, '>')
                &&& prev[i].0.len() > 0
            } by {
                assert(prev[i] == d[i]);
            }
        }
        lemma_admitted_shaped(prev, lo, hi);
        assert(prev.push(d.last()) =~= d);
        assert(d[d.len() - 1] == d.last());
        lemma_admitted_push(prev, d.last(), lo, hi);
        let a = admitted(prev, lo, hi);
        if lo <= byte_len(d.last().1) <= hi {
            lemma_shaped_push(a, d.last());
            assert forall|i: int| 0 <= i < a.push(d.last()).len() implies lo <= byte_len(
                #[trigger] a.push(d.last())[i].1,
            ) <= hi by {
                if i < a.len() {
                    assert(a.push(d.last())[i] == a[i]);
                }
            }
        }
    }
}

/// Round trip: a record as a FASTA parse writes it (an id, already
/// trimmed, and a sequence that does not begin with `>`), written back out
/// as a header line and a sequence line and parsed again under a filter
/// that admits its length, is the one record of that parse, with the same
/// id and sequence.
pub proof fn lemma_fasta_round_trip(id: Seq<char>, seq: Seq<char>, filter: ProcessingValues)
    requires
        id.len() > 0,
        trim_of(id) == id,
        !starts_with_char(seq, '>'),
        filter.admits(byte_len(seq)),
    ensures
        fasta_kept(fasta_text(id, seq), filter) == seq![(id, seq)],
{
    let lines = fasta_text(id, seq);
    let header = seq!['>'] + id;
    assert(header.drop_first() =~= id);
    assert(starts_with_char(header, '>'));
    assert(lines.drop_last() =~= seq![header]);
    assert(lines.last() == seq);
    assert(seq![header].drop_last() =~= Seq::<Seq<char>>::empty());
    assert(seq![header].last() == header);
    assert(Seq::<char>::empty() + seq =~= seq);
    let s0 = fasta_scan(Seq::<Seq<char>>::empty());
    assert(s0.id.len() == 0);
    let s1 = fasta_scan(seq![header]);
    assert(s1.id == id);
    assert(s1.done.len() == 0);
    let s2 = fasta_scan(lines);
    assert(s2.id == id);
    assert(s2.seq == seq);
    assert(fasta_entries(lines) =~= seq![(id, seq)]);
    let lo = filter.min_length as nat;
    let hi = filter.max_length as nat;
    let empty = Seq::<(Seq<char>, Seq<char>)>::empty();
    lemma_admitted_push(empty, (id, seq), lo, hi);
    assert(admitted(empty, lo, hi) =~= empty);
    assert(empty.push((id, seq)) =~= seq![(id, seq)]);
    assert(admitted(seq![(id, seq)], lo, hi) == seq![(id, seq)]);
}

} // verus!
