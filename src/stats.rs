//! Length statistics and N50 over a parsed collection.

use vstd::prelude::*;
use core::cmp::Ordering;
use crate::record::{lemma_permutation_totals, total_len, GENRecord, SequenceINFO};

verus! {

/// Summary of the sequence lengths of a non-empty collection.
pub struct ReadLengthStatistics {
    pub sequences_min: i64,
    pub sequences_max: i64,
    pub sequences_mean: usize,
    pub sequences_median: usize,
}

/// Why a statistic could not be computed.
#[derive(Debug, PartialEq, Eq, Structural, Clone, Copy)]
pub enum StatisticsError {
    /// The collection holds no records.
    NoRecords,
}

/// `m` is the least sequence length in `s`.
pub open spec fn is_min_length(s: Seq<GENRecord>, m: int) -> bool {
    &&& exists|i: int| 0 <= i < s.len() && #[trigger] s[i].spec_len() == m
    &&& forall|i: int| 0 <= i < s.len() ==> m <= #[trigger] s[i].spec_len()
}

/// `m` is the greatest sequence length in `s`.
pub open spec fn is_max_length(s: Seq<GENRecord>, m: int) -> bool {
    &&& exists|i: int| 0 <= i < s.len() && #[trigger] s[i].spec_len() == m
    &&& forall|i: int| 0 <= i < s.len() ==> #[trigger] s[i].spec_len() <= m
}

/// The record at `k` has the length it would have in an ascending order of
/// `s`: none before it is longer, none after it is shorter.
pub open spec fn partitioned_at(s: Seq<GENRecord>, k: int) -> bool {
    &&& 0 <= k < s.len()
    &&& forall|i: int| 0 <= i < k ==> #[trigger] s[i].spec_len() <= s[k].spec_len()
    &&& forall|i: int| k < i < s.len() ==> #[trigger] s[i].spec_len() >= s[k].spec_len()
}

/// `s` is ordered by length, longest first.
pub open spec fn longest_first(s: Seq<GENRecord>) -> bool {
    forall|i: int, j: int| 0 <= i <= j < s.len() ==> #[trigger] s[i].spec_len() >= #[trigger] s[j].spec_len()
}

/// Relies on `slice::select_nth_unstable_by_key`: the records reordered so
/// that the one at `k` is where an ascending sort by length would put it,
/// with none longer before it and none shorter after it.
#[verifier::external_body]
fn select_by_length(records: &mut Vec<GENRecord>, k: usize)
    requires
        k < old(records)@.len(),
    ensures
        final(records)@.len() == old(records)@.len(),
        final(records)@.to_multiset() == old(records)@.to_multiset(),
        partitioned_at(final(records)@, k as int),
{
    records.select_nth_unstable_by_key(k, GENRecord::by_sequence_length);
}

/// Orders two records longer first.
fn longer_first(a: &GENRecord, b: &GENRecord) -> (r: Ordering)
    ensures
        r == Ordering::Less <==> a.spec_len() > b.spec_len(),
        r == Ordering::Equal <==> a.spec_len() == b.spec_len(),
        r == Ordering::Greater <==> a.spec_len() < b.spec_len(),
{
    let la = a.by_sequence_length();
    let lb = b.by_sequence_length();
    if la > lb {
        Ordering::Less
    } else if la == lb {
        Ordering::Equal
    } else {
        Ordering::Greater
    }
}

/// Relies on `slice::sort_by` with `longer_first`: the records reordered,
/// longest first.
#[verifier::external_body]
fn sort_longest_first(records: &mut Vec<GENRecord>)
    ensures
        final(records)@.len() == old(records)@.len(),
        final(records)@.to_multiset() == old(records)@.to_multiset(),
        longest_first(final(records)@),
{
    records.sort_by(longer_first);
}

pub proof fn lemma_total_len_take(s: Seq<GENRecord>, k: int)
    requires
        0 <= k < s.len(),
    ensures
        total_len(s.take(k + 1)) == total_len(s.take(k)) + s[k].spec_len(),
        total_len(s.take(k + 1)) <= total_len(s),
    decreases s.len(),
{
    assert(s.take(k + 1).drop_last() =~= s.take(k));
    if k + 1 < s.len() {
        assert(s.drop_last().take(k + 1) =~= s.take(k + 1));
        assert(s.drop_last()[k] == s[k]);
        lemma_total_len_take(s.drop_last(), k);
    } else {
        assert(s.take(k + 1) =~= s);
    }
}

proof fn lemma_total_len_bounds(s: Seq<GENRecord>, lo: int, hi: int)
    requires
        forall|i: int| 0 <= i < s.len() ==> lo <= #[trigger] s[i].spec_len() <= hi,
    ensures
        s.len() * lo <= total_len(s) <= s.len() * hi,
    decreases s.len(),
{
    if s.len() > 0 {
        assert(s[s.len() - 1].spec_len() == s.last().spec_len());
        assert forall|i: int| 0 <= i < s.drop_last().len() implies lo
            <= #[trigger] s.drop_last()[i].spec_len() <= hi by {
            assert(s.drop_last()[i] == s[i]);
        }
        lemma_total_len_bounds(s.drop_last(), lo, hi);
        let n = s.len() as int;
        assert((n - 1) * lo + lo == n * lo) by (nonlinear_arith);
        assert((n - 1) * hi + hi == n * hi) by (nonlinear_arith);
    }
}


/// The median rule: the length at index `n / 2` of an ascending order.
pub open spec fn median_index(n: nat) -> int {
    (n / 2) as int
}

/// Min, max, mean and median of the sequence lengths.
///
/// The median is the length that index `n / 2` holds once the records are
/// ordered by length (for an even count, the upper of the two middle
/// ones); finding it reorders `info`'s records, as the `ensures` states.
/// The mean is `total_nucleotides / n`, rounded down. An empty collection
/// gives `NoRecords`.
pub fn compute_length_statistics(info: &mut SequenceINFO) -> (r: Result<
    ReadLengthStatistics,
    StatisticsError,
>)
    requires
        forall|i: int|
            0 <= i < old(info).sequences@.len() ==> #[trigger] old(info).sequences@[i].spec_len()
                <= i64::MAX,
    ensures
        final(info).sequences@.to_multiset() == old(info).sequences@.to_multiset(),
        final(info).sequences@.len() == old(info).sequences@.len(),
        final(info).global_gc_count == old(info).global_gc_count,
        final(info).total_nucleotides == old(info).total_nucleotides,
        old(info).wf() ==> final(info).wf(),
        r is Err <==> old(info).sequences@.len() == 0,
        match r {
            Err(e) => e == StatisticsError::NoRecords,
            Ok(st) => {
                let n = old(info).sequences@.len();
                let k = median_index(n);
                &&& is_min_length(old(info).sequences@, st.sequences_min as int)
                &&& is_max_length(old(info).sequences@, st.sequences_max as int)
                &&& st.sequences_mean as int == old(info).total_nucleotides as int / n as int
                &&& partitioned_at(final(info).sequences@, k)
                &&& st.sequences_median == final(info).sequences@[k].spec_len()
                &&& st.sequences_min <= st.sequences_median <= st.sequences_max
                &&& old(info).totals_consistent() ==> st.sequences_min <= st.sequences_mean
                    <= st.sequences_max
            },
        },
{
    let ghost recs = info.sequences@;
    let n = info.sequences.len();
    if n == 0 {
        return Err(StatisticsError::NoRecords);
    }
    let mut min_len = info.sequences[0].by_sequence_length();
    let mut max_len = min_len;
    let ghost mut at_min: int = 0;
    let ghost mut at_max: int = 0;
    let mut i: usize = 1;
    while i < n
        invariant
            1 <= i <= n,
            n == recs.len(),
            recs == info.sequences@,
            0 <= at_min < i,
            0 <= at_max < i,
            recs[at_min].spec_len() == min_len,
            recs[at_max].spec_len() == max_len,
            forall|j: int| 0 <= j < i ==> min_len <= #[trigger] recs[j].spec_len() <= max_len,
        decreases n - i,
    {
        let len = info.sequences[i].by_sequence_length();
        if len < min_len {
            min_len = len;
            proof {
                at_min = i as int;
            }
        }
        if len > max_len {
            max_len = len;
            proof {
                at_max = i as int;
            }
        }
        i = i + 1;
    }
    let mean = info.total_nucleotides / n;
    let k = n / 2;
    select_by_length(&mut info.sequences, k);
    let median = info.sequences[k].by_sequence_length();
    proof {
        let after = info.sequences@;
        lemma_permutation_totals(recs, after);
        recs.to_multiset_ensures();
        after.to_multiset_ensures();
        assert(after.contains(after[k as int]));
        assert(after.to_multiset().count(after[k as int]) > 0);
        assert(recs.contains(after[k as int]));
        let j = choose|j: int| 0 <= j < recs.len() && recs[j] == after[k as int];
        assert(min_len <= recs[j].spec_len() <= max_len);
        if old(info).totals_consistent() {
            lemma_total_len_bounds(recs, min_len as int, max_len as int);
            let t = info.total_nucleotides as int;
            let nn = n as int;
            assert(min_len <= t / nn <= max_len) by (nonlinear_arith)
                requires
                    nn > 0,
                    nn * min_len <= t <= nn * max_len,
            ;
        }
        assert(recs[at_min].spec_len() <= i64::MAX);
        assert(recs[at_max].spec_len() <= i64::MAX);
    }
    Ok(
        ReadLengthStatistics {
            sequences_min: min_len as i64,
            sequences_max: max_len as i64,
            sequences_mean: mean,
            sequences_median: median,
        },
    )
}


/// In the order of `s`, the running total of lengths first reaches `t` at
/// record `i`.
pub open spec fn first_reaching(s: Seq<GENRecord>, t: nat, i: int) -> bool {
    &&& 0 <= i < s.len()
    &&& total_len(s.take(i + 1)) >= t
    &&& forall|j: int| 0 <= j < i ==> #[trigger] total_len(s.take(j + 1)) < t
}

/// The result of scanning `s` in order for the first record at which the
/// running total of lengths reaches `t`: that record's length, or 0 when
/// the total never does.
pub open spec fn scan_result(s: Seq<GENRecord>, t: nat, v: nat) -> bool {
    ||| exists|i: int| first_reaching(s, t, i) && v == #[trigger] s[i].spec_len()
    ||| v == 0 && forall|j: int| 0 <= j < s.len() ==> #[trigger] total_len(s.take(j + 1)) < t
}

/// N50 of the collection: the records are sorted longest first (in place,
/// so their order is changed), and the length of the first one at which the
/// running total of lengths reaches `total_nucleotides / 2` is returned;
/// 0 if none does.
pub fn calculate_n50_score(sequences: &mut SequenceINFO) -> (r: usize)
    ensures
        final(sequences).sequences@.to_multiset() == old(sequences).sequences@.to_multiset(),
        final(sequences).sequences@.len() == old(sequences).sequences@.len(),
        longest_first(final(sequences).sequences@),
        final(sequences).global_gc_count == old(sequences).global_gc_count,
        final(sequences).total_nucleotides == old(sequences).total_nucleotides,
        old(sequences).totals_consistent() ==> final(sequences).totals_consistent(),
        old(sequences).wf() ==> final(sequences).wf(),
        scan_result(
            final(sequences).sequences@,
            (old(sequences).total_nucleotides / 2) as nat,
            r as nat,
        ),
{
    let ghost recs = sequences.sequences@;
    sort_longest_first(&mut sequences.sequences);
    proof {
        lemma_permutation_totals(recs, sequences.sequences@);
    }
    let ghost s = sequences.sequences@;
    let half = sequences.total_nucleotides / 2;
    let n = sequences.sequences.len();
    let mut cumulative: usize = 0;
    let mut i: usize = 0;
    while i < n
        invariant
            i <= n,
            n == s.len(),
            s == sequences.sequences@,
            half == sequences.total_nucleotides / 2,
            cumulative == total_len(s.take(i as int)),
            forall|j: int| 0 <= j < i ==> #[trigger] total_len(s.take(j + 1)) < half,
            recs == old(sequences).sequences@,
            s.to_multiset() == recs.to_multiset(),
            s.len() == recs.len(),
            longest_first(s),
            sequences.global_gc_count == old(sequences).global_gc_count,
            sequences.total_nucleotides == old(sequences).total_nucleotides,
            old(sequences).totals_consistent() ==> sequences.totals_consistent(),
            old(sequences).wf() ==> sequences.wf(),
        decreases n - i,
    {
        let len = sequences.sequences[i].by_sequence_length();
        proof {
            lemma_total_len_take(s, i as int);
        }
        // once the true running total passes usize::MAX it is past `half`
        // too, so saturating keeps the comparison exact
        cumulative = cumulative.saturating_add(len);
        if cumulative >= half {
            proof {
                assert(first_reaching(s, half as nat, i as int));
            }
            return len;
        }
        i = i + 1;
    }
    0
}


/// N50 threshold: when the records are ordered longest first and their
/// lengths total at least 2, the N50 scan stops at a record `i`. The records
/// up to and including `i` are all at least as long as the returned length
/// `v`, their lengths reach `total / 2`, and without record `i` they do not.
pub proof fn lemma_n50_threshold(s: Seq<GENRecord>, total: nat, v: nat)
    requires
        longest_first(s),
        total == total_len(s),
        total >= 2,
        scan_result(s, total / 2, v),
    ensures
        exists|i: int|
            {
                &&& 0 <= i < s.len()
                &&& v == #[trigger] s[i].spec_len()
                &&& forall|j: int| 0 <= j <= i ==> #[trigger] s[j].spec_len() >= v
                &&& total_len(s.take(i + 1)) >= total / 2
                &&& total_len(s.take(i)) < total / 2
            },
{
    let t = total / 2;
    if s.len() == 0 {
        assert(total_len(s) == 0);
    }
    assert(s.take(s.len() as int) =~= s);
    if forall|j: int| 0 <= j < s.len() ==> #[trigger] total_len(s.take(j + 1)) < t {
        assert(total_len(s.take(s.len() - 1 + 1)) < t);
    }
    let i = choose|i: int| first_reaching(s, t, i) && v == #[trigger] s[i].spec_len();
    if i > 0 {
        assert(total_len(s.take(i - 1 + 1)) < t);
    } else {
        assert(s.take(0) =~= Seq::<GENRecord>::empty());
    }
    assert forall|j: int| 0 <= j <= i implies #[trigger] s[j].spec_len() >= v by {
        assert(s[j].spec_len() >= s[i].spec_len());
    }
}

} // verus!
