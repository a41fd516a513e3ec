//! Counting how well the scores agree with what is known of the transactions, and which
//! setting does best.
use crate::http::REFUSED_FROM;
use vstd::prelude::*;

verus! {

/// An index file under this size is not taken for one.
pub const MIN_INDEX_BYTES: u64 = 1024;

/// How much a fraud that was approved weighs, compared with a transaction that was wrongly
/// refused.
pub const MISSED_FRAUD_WEIGHT: usize = 3;

/// Whether a transaction with so many frauds among its five neighbours is approved.
pub open spec fn approves(frauds: int) -> bool {
    frauds < REFUSED_FROM
}

/// Whether a transaction with so many frauds among its five neighbours is approved.
pub fn is_approved(frauds: usize) -> (r: bool)
    ensures
        r == approves(frauds as int),
{
    frauds < REFUSED_FROM
}

/// Whether a file of so many bytes may be an index.
pub fn is_plausible_index(bytes: u64) -> (r: bool)
    ensures
        r == (bytes >= MIN_INDEX_BYTES),
        r == (bytes >= 1024),
{
    bytes >= MIN_INDEX_BYTES
}

/// What was counted.
pub struct Tally {
    /// Frauds that were refused.
    pub tp: usize,
    /// Sound transactions that were approved.
    pub tn: usize,
    /// Sound transactions that were refused.
    pub fp: usize,
    /// Frauds that were approved.
    pub fn_: usize,
    /// How many transactions had so many frauds among their neighbours.
    pub histogram: [usize; 6],
}

/// The outcomes of transactions: how many frauds were among the neighbours, and whether
/// the transaction should be approved.
pub open spec fn count_if(outcomes: Seq<(usize, bool)>, expected: bool, approved: bool) -> nat
    decreases outcomes.len(),
{
    if outcomes.len() == 0 {
        0
    } else {
        let (frauds, should) = outcomes.last();
        count_if(outcomes.drop_last(), expected, approved) + if should == expected && approves(
            frauds as int,
        ) == approved {
            1nat
        } else {
            0nat
        }
    }
}

/// How many transactions had `frauds` frauds among their neighbours.
pub open spec fn count_with(outcomes: Seq<(usize, bool)>, frauds: int) -> nat
    decreases outcomes.len(),
{
    if outcomes.len() == 0 {
        0
    } else {
        count_with(outcomes.drop_last(), frauds) + if outcomes.last().0 == frauds {
            1nat
        } else {
            0nat
        }
    }
}

impl Tally {
    /// Whether these are the counts of `outcomes`.
    pub open spec fn counts(&self, outcomes: Seq<(usize, bool)>) -> bool {
        &&& self.tp == count_if(outcomes, false, false)
        &&& self.tn == count_if(outcomes, true, true)
        &&& self.fp == count_if(outcomes, true, false)
        &&& self.fn_ == count_if(outcomes, false, true)
        &&& forall|f: int| 0 <= f < 6 ==> #[trigger] self.histogram@[f] == count_with(outcomes, f)
    }
}

proof fn lemma_counts(outcomes: Seq<(usize, bool)>, expected: bool, approved: bool, frauds: int)
    ensures
        count_if(outcomes, expected, approved) <= outcomes.len(),
        count_with(outcomes, frauds) <= outcomes.len(),
    decreases outcomes.len(),
{
    if outcomes.len() > 0 {
        lemma_counts(outcomes.drop_last(), expected, approved, frauds);
    }
}

/// Every transaction is counted in one of the four kinds, and in one place of the
/// histogram.
pub proof fn law_tally_is_complete(outcomes: Seq<(usize, bool)>)
    requires
        forall|i: int| 0 <= i < outcomes.len() ==> (#[trigger] outcomes[i]).0 <= 5,
    ensures
        count_if(outcomes, false, false) + count_if(outcomes, true, true) + count_if(
            outcomes,
            true,
            false,
        ) + count_if(outcomes, false, true) == outcomes.len(),
        count_with(outcomes, 0) + count_with(outcomes, 1) + count_with(outcomes, 2) + count_with(
            outcomes,
            3,
        ) + count_with(outcomes, 4) + count_with(outcomes, 5) == outcomes.len(),
    decreases outcomes.len(),
{
    if outcomes.len() > 0 {
        law_tally_is_complete(outcomes.drop_last());
        assert(outcomes.last() == outcomes[outcomes.len() - 1]);
    }
}

/// Counts outcomes: for each transaction how many frauds were among its neighbours, and
/// whether it should be approved.
pub fn tally(outcomes: &Vec<(usize, bool)>) -> (r: Tally)
    requires
        forall|i: int| 0 <= i < outcomes.len() ==> (#[trigger] outcomes@[i]).0 <= 5,
    ensures
        r.counts(outcomes@),
{
    let mut t = Tally { tp: 0, tn: 0, fp: 0, fn_: 0, histogram: [0; 6] };
    let mut i: usize = 0;
    while i < outcomes.len()
        invariant
            i <= outcomes.len(),
            forall|j: int| 0 <= j < outcomes.len() ==> (#[trigger] outcomes@[j]).0 <= 5,
            t.counts(outcomes@.take(i as int)),
        decreases outcomes.len() - i,
    {
        let (frauds, expected) = outcomes[i];
        let ghost before = outcomes@.take(i as int);
        let ghost now = outcomes@.take(i + 1);
        proof {
            assert(now.drop_last() =~= before);
            assert(now.last() == outcomes@[i as int]);
            lemma_counts(before, false, false, frauds as int);
            lemma_counts(before, true, true, frauds as int);
            lemma_counts(before, true, false, frauds as int);
            lemma_counts(before, false, true, frauds as int);
        }
        assert(t.histogram@[frauds as int] == count_with(before, frauds as int));
        let approved = is_approved(frauds);
        let ghost counted = t.histogram@;
        let slot = t.histogram[frauds];
        t.histogram[frauds] = slot + 1;
        assert forall|f: int| 0 <= f < 6 implies #[trigger] t.histogram@[f] == count_with(
            now,
            f,
        ) by {
            assert(counted[f] == count_with(before, f));
        }
        if !expected && !approved {
            t.tp = t.tp + 1;
        } else if expected && approved {
            t.tn = t.tn + 1;
        } else if expected {
            t.fp = t.fp + 1;
        } else {
            t.fn_ = t.fn_ + 1;
        }
        i += 1;
    }
    assert(outcomes@.take(i as int) =~= outcomes@);
    t
}

/// The errors, each fraud that was approved counted three times.
pub fn weighted_errors(t: &Tally) -> (r: usize)
    requires
        t.fp + 3 * t.fn_ <= usize::MAX,
    ensures
        r == t.fp + 3 * t.fn_,
{
    t.fp + MISSED_FRAUD_WEIGHT * t.fn_
}

/// The place of a double precision number of these bits in the total order of such numbers.
pub open spec fn total_key(bits: u64) -> int {
    if bits < 0x8000_0000_0000_0000 {
        bits as int
    } else {
        0x7fff_ffff_ffff_ffff - bits
    }
}

/// Whether a setting with `errors` errors and the 99th percentile latency `p99` is better
/// than another; latencies are the bits of double precision numbers.
pub open spec fn better(errors: usize, p99: u64, other_errors: usize, other_p99: u64) -> bool {
    errors < other_errors || (errors == other_errors && total_key(p99) < total_key(other_p99))
}

/// Whether a setting is better than another: the one with fewer errors, and of two with the
/// same errors the faster one.
pub fn is_better(errors: usize, p99: u64, other_errors: usize, other_p99: u64) -> (r: bool)
    ensures
        r == better(errors, p99, other_errors, other_p99),
{
    if errors != other_errors {
        return errors < other_errors;
    }
    let negative = p99 >= 0x8000_0000_0000_0000;
    let other_negative = other_p99 >= 0x8000_0000_0000_0000;
    if negative != other_negative {
        negative
    } else if negative {
        p99 > other_p99
    } else {
        p99 < other_p99
    }
}

/// The best of several settings, each with its errors and its latency; of several that are
/// equally good the first.
pub fn best_of(settings: &Vec<(usize, u64)>) -> (r: Option<usize>)
    ensures
        r is None <==> settings.len() == 0,
        r matches Some(b) ==> {
            &&& b < settings.len()
            &&& forall|i: int|
                0 <= i < settings.len() ==> !better(
                    (#[trigger] settings@[i]).0,
                    settings@[i].1,
                    settings@[b as int].0,
                    settings@[b as int].1,
                )
            &&& forall|i: int|
                0 <= i < b ==> better(
                    settings@[b as int].0,
                    settings@[b as int].1,
                    (#[trigger] settings@[i]).0,
                    settings@[i].1,
                )
        },
{
    if settings.len() == 0 {
        return None;
    }
    let mut best: usize = 0;
    let mut i: usize = 1;
    while i < settings.len()
        invariant
            best < i <= settings.len(),
            forall|j: int|
                0 <= j < i ==> !better(
                    (#[trigger] settings@[j]).0,
                    settings@[j].1,
                    settings@[best as int].0,
                    settings@[best as int].1,
                ),
            forall|j: int|
                0 <= j < best ==> better(
                    settings@[best as int].0,
                    settings@[best as int].1,
                    (#[trigger] settings@[j]).0,
                    settings@[j].1,
                ),
        decreases settings.len() - i,
    {
        let candidate = settings[i];
        let current = settings[best];
        if is_better(candidate.0, candidate.1, current.0, current.1) {
            best = i;
        }
        i += 1;
    }
    Some(best)
}

/// A transaction is approved where the share of frauds among its five neighbours is under
/// 0.6.
pub proof fn law_approval_by_share(frauds: int)
    ensures
        approves(frauds) <==> 10 * frauds < 6 * 5,
{
}

/// What is counted is how many transactions should, or should not, be approved and have
/// under three, or three and more, frauds among their neighbours, and how many have just so
/// many of them.
pub proof fn law_counts_are_of_the_outcomes(
    outcomes: Seq<(usize, bool)>,
    expected: bool,
    approved: bool,
    frauds: int,
)
    ensures
        count_if(outcomes, expected, approved) == outcomes.filter(
            |o: (usize, bool)| o.1 == expected && (o.0 < 3) == approved,
        ).len(),
        count_with(outcomes, frauds) == outcomes.filter(|o: (usize, bool)| o.0 == frauds).len(),
    decreases outcomes.len(),
{
    reveal(Seq::filter);
    if outcomes.len() > 0 {
        law_counts_are_of_the_outcomes(outcomes.drop_last(), expected, approved, frauds);
    }
}

/// Fewer errors are better whatever the latencies. Where the errors are the same, the lower
/// latency is: of two positive ones that with the smaller bits, of two negative ones that
/// with the greater bits, and a negative one before a positive one. Nothing is better than
/// itself, and of two that differ one is better than the other.
pub proof fn law_what_is_better(a: usize, p: u64, b: usize, q: u64)
    ensures
        a < b ==> better(a, p, b, q) && !better(b, q, a, p),
        a == b && p < 0x8000_0000_0000_0000 && q < 0x8000_0000_0000_0000 ==> (better(a, p, b, q)
            <==> p < q),
        a == b && p >= 0x8000_0000_0000_0000 && q >= 0x8000_0000_0000_0000 ==> (better(a, p, b, q)
            <==> p > q),
        a == b && p >= 0x8000_0000_0000_0000 && q < 0x8000_0000_0000_0000 ==> better(a, p, b, q),
        !better(a, p, a, p),
        (a, p) != (b, q) ==> (better(a, p, b, q) <==> !better(b, q, a, p)),
{
}

/// What is tallied are the frauds that were refused, the sound transactions that were
/// approved, those that were refused and the frauds that were approved, and
/// for each number of frauds among neighbours how many transactions had it. A transaction is
/// sound where it should be approved, and refused from three frauds among its neighbours on.
pub proof fn law_tallies_are_told_apart(t: Tally, outcomes: Seq<(usize, bool)>, f: int)
    requires
        t.counts(outcomes),
        0 <= f < 6,
    ensures
        t.tp == outcomes.filter(|o: (usize, bool)| o.1 == false && (o.0 < 3) == false).len(),
        t.tn == outcomes.filter(|o: (usize, bool)| o.1 == true && (o.0 < 3) == true).len(),
        t.fp == outcomes.filter(|o: (usize, bool)| o.1 == true && (o.0 < 3) == false).len(),
        t.fn_ == outcomes.filter(|o: (usize, bool)| o.1 == false && (o.0 < 3) == true).len(),
        t.histogram@[f] == outcomes.filter(|o: (usize, bool)| o.0 == f).len(),
{
    law_counts_are_of_the_outcomes(outcomes, false, false, 0);
    law_counts_are_of_the_outcomes(outcomes, true, true, 0);
    law_counts_are_of_the_outcomes(outcomes, true, false, 0);
    law_counts_are_of_the_outcomes(outcomes, false, true, 0);
    law_counts_are_of_the_outcomes(outcomes, true, true, f);
    assert(t.histogram@[f] == count_with(outcomes, f));
}

} // verus!
