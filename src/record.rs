//! The record model shared by both formats, and per-record GC accounting.

use vstd::prelude::*;
use vstd::string::StringExecFns;
use vstd::utf8::encode_utf8;

verus! {

broadcast use vstd::string::group_string_axioms;

/// Length of a sequence as stored: the number of bytes of its UTF-8 encoding.
pub open spec fn byte_len(s: Seq<char>) -> nat {
    encode_utf8(s).len()
}

/// A guanine or cytosine, in either case.
pub open spec fn is_gc(c: char) -> bool {
    c == 'g' || c == 'c' || c == 'G' || c == 'C'
}

/// Number of G / C characters in `s`.
pub open spec fn gc_count_of(s: Seq<char>) -> nat
    decreases s.len(),
{
    if s.len() == 0 {
        0
    } else {
        gc_count_of(s.drop_last()) + if is_gc(s.last()) {
            1nat
        } else {
            0nat
        }
    }
}

/// GC share as a percentage scaled by 1000, truncated toward zero.
pub open spec fn gc_scaled(gc: nat, len: nat) -> nat {
    if len == 0 {
        0
    } else {
        gc * 100000 / len
    }
}

pub proof fn lemma_byte_len_concat(a: Seq<char>, b: Seq<char>)
    ensures
        byte_len(a + b) == byte_len(a) + byte_len(b),
    decreases a.len(),
{
    if a.len() == 0 {
        assert(a + b =~= b);
    } else {
        assert((a + b).drop_first() =~= a.drop_first() + b);
        lemma_byte_len_concat(a.drop_first(), b);
    }
}

pub proof fn lemma_len_le_byte_len(s: Seq<char>)
    ensures
        s.len() <= byte_len(s),
    decreases s.len(),
{
    if s.len() > 0 {
        lemma_len_le_byte_len(s.drop_first());
    }
}

pub proof fn lemma_gc_count_le_len(s: Seq<char>)
    ensures
        gc_count_of(s) <= s.len(),
    decreases s.len(),
{
    if s.len() > 0 {
        lemma_gc_count_le_len(s.drop_last());
    }
}

/// Counts the G / C characters of `s`.
pub fn count_gc(s: &str) -> (r: usize)
    ensures
        r == gc_count_of(s@),
{
    let total_bytes = s.as_bytes().len();
    proof {
        lemma_len_le_byte_len(s@);
        assert(s@.take(s@.len() as int) =~= s@);
    }
    let mut n: usize = 0;
    for c in it: s.chars()
        invariant
            n == gc_count_of(it.seq().take(it.index())),
            it.index() <= it.seq().len(),
            it.seq() == s@,
            s@.len() <= total_bytes,
            s@.take(s@.len() as int) == s@,
        ensures
            n == gc_count_of(s@),
    {
        proof {
            let prev = it.seq().take(it.index());
            assert(it.seq().take(it.index() + 1).drop_last() =~= prev);
            lemma_gc_count_le_len(prev);
        }
        if c == 'g' || c == 'c' || c == 'G' || c == 'C' {
            n = n + 1;
        }
    }
    n
}


/// A GC percentage stored as an integer scaled by 1000 (`37500` is 37.5%).
#[derive(Debug, Clone, Copy, PartialEq, Eq)]
pub struct Percent(pub u32);

/// A FASTA record: header id and sequence, with its GC figures.
#[derive(Debug, Clone, PartialEq, Eq)]
pub struct FASTARecord {
    pub id: String,
    pub sequence: String,
    pub gc_percent: Percent,
    pub gc_count: usize,
}

/// A FASTQ record: as a FASTA record, plus the quality line.
#[derive(Debug, Clone, PartialEq, Eq)]
pub struct FASTQRecord {
    pub id: String,
    pub sequence: String,
    pub quality: String,
    pub gc_percent: Percent,
    pub gc_count: usize,
}

/// A record of either format.
#[derive(Debug, Clone, PartialEq, Eq)]
pub enum GENRecord {
    FASTARecord(FASTARecord),
    FASTQRecord(FASTQRecord),
}

impl FASTARecord {
    /// Text form: `Sequence ID:'<id>' \n Sequence:'<sequence>`.
    pub fn to_string(&self) -> (r: String)
        ensures
            r@ == "Sequence ID:'"@ + self.id@ + "' \n Sequence:'"@ + self.sequence@,
    {
        let mut text = "Sequence ID:'".to_owned();
        text.append(self.id.as_str());
        text.append("' \n Sequence:'");
        text.append(self.sequence.as_str());
        text
    }
}

impl FASTQRecord {
    /// Text form: `Sequence ID:'<id>' \n Sequence:'<sequence>' \n
    /// Quality:'<quality>'` and a newline.
    pub fn to_string(&self) -> (r: String)
        ensures
            r@ == "Sequence ID:'"@ + self.id@ + "' \n Sequence:'"@ + self.sequence@
                + "' \n Quality:'"@ + self.quality@ + "'\n"@,
    {
        let mut text = "Sequence ID:'".to_owned();
        text.append(self.id.as_str());
        text.append("' \n Sequence:'");
        text.append(self.sequence.as_str());
        text.append("' \n Quality:'");
        text.append(self.quality.as_str());
        text.append("'\n");
        text
    }
}

impl GENRecord {
    /// Text form of the record, as its format writes it.
    pub fn to_string(&self) -> (r: String)
        ensures
            match self {
                GENRecord::FASTARecord(f) => r@ == "Sequence ID:'"@ + f.id@ + "' \n Sequence:'"@
                    + f.sequence@,
                GENRecord::FASTQRecord(q) => r@ == "Sequence ID:'"@ + q.id@ + "' \n Sequence:'"@
                    + q.sequence@ + "' \n Quality:'"@ + q.quality@ + "'\n"@,
            },
    {
        match self {
            GENRecord::FASTARecord(f) => f.to_string(),
            GENRecord::FASTQRecord(q) => q.to_string(),
        }
    }

    pub open spec fn spec_id(&self) -> Seq<char> {
        match self {
            GENRecord::FASTARecord(r) => r.id@,
            GENRecord::FASTQRecord(r) => r.id@,
        }
    }

    pub open spec fn spec_sequence(&self) -> Seq<char> {
        match self {
            GENRecord::FASTARecord(r) => r.sequence@,
            GENRecord::FASTQRecord(r) => r.sequence@,
        }
    }

    pub open spec fn spec_gc_count(&self) -> nat {
        match self {
            GENRecord::FASTARecord(r) => r.gc_count as nat,
            GENRecord::FASTQRecord(r) => r.gc_count as nat,
        }
    }

    pub open spec fn spec_gc_percent(&self) -> nat {
        match self {
            GENRecord::FASTARecord(r) => r.gc_percent.0 as nat,
            GENRecord::FASTQRecord(r) => r.gc_percent.0 as nat,
        }
    }

    /// Sequence length in bytes.
    pub open spec fn spec_len(&self) -> nat {
        byte_len(self.spec_sequence())
    }

    /// The GC figures agree with the sequence.
    pub open spec fn wf(&self) -> bool {
        &&& self.spec_gc_count() == gc_count_of(self.spec_sequence())
        &&& self.spec_gc_percent() == gc_scaled(
            gc_count_of(self.spec_sequence()),
            self.spec_len(),
        )
    }

    /// Length of the record's sequence.
    pub fn by_sequence_length(&self) -> (r: usize)
        ensures
            r == self.spec_len(),
    {
        match self {
            GENRecord::FASTARecord(seq) => seq.sequence.as_str().as_bytes().len(),
            GENRecord::FASTQRecord(seq) => seq.sequence.as_str().as_bytes().len(),
        }
    }
}

/// Sum of the sequence lengths of `s`.
pub open spec fn total_len(s: Seq<GENRecord>) -> nat
    decreases s.len(),
{
    if s.len() == 0 {
        0
    } else {
        total_len(s.drop_last()) + s.last().spec_len()
    }
}

/// Sum of the `gc_count` fields of `s`.
pub open spec fn total_gc(s: Seq<GENRecord>) -> nat
    decreases s.len(),
{
    if s.len() == 0 {
        0
    } else {
        total_gc(s.drop_last()) + s.last().spec_gc_count()
    }
}

/// Scaled GC percentage of `gc` G / C characters in `len` bytes.
pub fn percent_of(gc: usize, len: usize) -> (r: Percent)
    requires
        gc <= len,
    ensures
        r.0 == gc_scaled(gc as nat, len as nat),
        r.0 <= 100000,
{
    if len == 0 {
        Percent(0)
    } else {
        let v: u128 = (gc as u128) * 100000u128 / (len as u128);
        assert(v <= 100000) by (nonlinear_arith)
            requires
                gc <= len,
                len > 0,
                v == (gc as int) * 100000 / (len as int),
        ;
        Percent(v as u32)
    }
}

/// Scaled GC percentage of the record's sequence.
pub fn calculate_gc_content(record: &GENRecord) -> (r: Percent)
    ensures
        r.0 == gc_scaled(gc_count_of(record.spec_sequence()), record.spec_len()),
{
    let sequence = match record {
        GENRecord::FASTARecord(fasta) => &fasta.sequence,
        GENRecord::FASTQRecord(fastq) => &fastq.sequence,
    };
    let gc = count_gc(sequence.as_str());
    let len = sequence.as_str().as_bytes().len();
    proof {
        lemma_gc_count_le_len(sequence@);
        lemma_len_le_byte_len(sequence@);
    }
    percent_of(gc, len)
}

/// The collection produced by one parse: the surviving records in input
/// order, and run-level totals over them.
pub struct SequenceINFO {
    pub sequences: Vec<GENRecord>,
    pub global_gc_count: usize,
    pub total_nucleotides: usize,
}

impl SequenceINFO {
    /// The run-level totals are the sums over the records.
    pub open spec fn totals_consistent(&self) -> bool {
        &&& self.global_gc_count == total_gc(self.sequences@)
        &&& self.total_nucleotides == total_len(self.sequences@)
    }

    pub open spec fn wf(&self) -> bool {
        &&& self.totals_consistent()
        &&& forall|i: int| 0 <= i < self.sequences@.len() ==> #[trigger] self.sequences@[i].wf()
    }
}

pub proof fn lemma_total_gc_le_total_len(s: Seq<GENRecord>)
    requires
        forall|i: int| 0 <= i < s.len() ==> #[trigger] s[i].wf(),
    ensures
        total_gc(s) <= total_len(s),
    decreases s.len(),
{
    if s.len() > 0 {
        lemma_total_gc_le_total_len(s.drop_last());
        assert(s[s.len() - 1].wf());
        lemma_gc_count_le_len(s.last().spec_sequence());
        lemma_len_le_byte_len(s.last().spec_sequence());
    }
}

proof fn lemma_totals_remove(s: Seq<GENRecord>, j: int)
    requires
        0 <= j < s.len(),
    ensures
        total_len(s) == total_len(s.remove(j)) + s[j].spec_len(),
        total_gc(s) == total_gc(s.remove(j)) + s[j].spec_gc_count(),
    decreases s.len(),
{
    if j == s.len() - 1 {
        assert(s.remove(j) =~= s.drop_last());
    } else {
        assert(s.remove(j).drop_last() =~= s.drop_last().remove(j));
        assert(s.remove(j).last() == s.last());
        lemma_totals_remove(s.drop_last(), j);
    }
}

/// Reordering records keeps the totals over them, and their
/// well-formedness.
pub proof fn lemma_permutation_totals(a: Seq<GENRecord>, b: Seq<GENRecord>)
    requires
        a.to_multiset() == b.to_multiset(),
    ensures
        total_len(a) == total_len(b),
        total_gc(a) == total_gc(b),
        (forall|i: int| 0 <= i < a.len() ==> #[trigger] a[i].wf()) ==> (forall|i: int|
            0 <= i < b.len() ==> #[trigger] b[i].wf()),
    decreases a.len(),
{
    broadcast use vstd::multiset::group_multiset_axioms;

    a.to_multiset_ensures();
    b.to_multiset_ensures();
    if a.len() == 0 {
        assert(b.len() == 0);
        assert(b =~= Seq::<GENRecord>::empty());
    } else {
        let x = a.last();
        let a1 = a.drop_last();
        assert(a1.push(x) =~= a);
        a1.to_multiset_ensures();
        assert(a1.push(x).to_multiset() =~= a1.to_multiset().insert(x));
        assert(a.to_multiset() =~= a1.to_multiset().insert(x));
        assert(a.contains(x)) by {
            assert(a[a.len() - 1] == x);
        }
        assert(a.to_multiset().count(x) > 0);
        assert(b.to_multiset().count(x) > 0);
        assert(b.contains(x));
        let j = choose|j: int| 0 <= j < b.len() && b[j] == x;
        let b1 = b.remove(j);
        b1.to_multiset_ensures();
        assert(b1.to_multiset() =~= b.to_multiset().remove(x));
        assert(a1.to_multiset() =~= b1.to_multiset());
        lemma_permutation_totals(a1, b1);
        lemma_totals_remove(b, j);
        if forall|i: int| 0 <= i < a.len() ==> #[trigger] a[i].wf() {
            assert forall|i: int| 0 <= i < b.len() implies #[trigger] b[i].wf() by {
                assert(b.contains(b[i]));
                assert(b.to_multiset().count(b[i]) > 0);
                assert(a.to_multiset().count(b[i]) > 0);
                assert(a.contains(b[i]));
                let k = choose|k: int| 0 <= k < a.len() && a[k] == b[i];
                assert(a[k].wf());
            }
        }
    }
}

impl SequenceINFO {
    /// An empty collection.
    pub fn empty() -> (r: SequenceINFO)
        ensures
            r.sequences@.len() == 0,
            r.wf(),
    {
        SequenceINFO { sequences: Vec::new(), global_gc_count: 0, total_nucleotides: 0 }
    }

    /// Appends `rec`, whose length is `len` and GC count `gc`, and adds
    /// them to the totals.
    pub(crate) fn push_record(&mut self, rec: GENRecord, len: usize, gc: usize)
        requires
            old(self).wf(),
            rec.wf(),
            len == rec.spec_len(),
            gc == rec.spec_gc_count(),
            old(self).total_nucleotides + len <= usize::MAX,
        ensures
            final(self).wf(),
            final(self).sequences@ == old(self).sequences@.push(rec),
            final(self).total_nucleotides == old(self).total_nucleotides + len,
    {
        proof {
            lemma_total_gc_le_total_len(self.sequences@);
            lemma_gc_count_le_len(rec.spec_sequence());
            lemma_len_le_byte_len(rec.spec_sequence());
        }
        let ghost before = self.sequences@;
        self.sequences.push(rec);
        self.global_gc_count = self.global_gc_count + gc;
        self.total_nucleotides = self.total_nucleotides + len;
        proof {
            assert(self.sequences@.drop_last() =~= before);
        }
    }
}

/// Inclusive bounds on the length of a record that is kept.
pub struct ProcessingValues {
    pub min_length: usize,
    pub max_length: usize,
}

impl ProcessingValues {
    pub open spec fn admits(&self, len: nat) -> bool {
        self.min_length <= len <= self.max_length
    }
}

} // verus!
