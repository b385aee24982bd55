//! What every counter offers, and the record it reports.

use crate::fraction::Fraction;
use vstd::prelude::*;

verus! {

/// A key with its estimated frequency.
#[derive(Debug)]
pub struct Entry {
    /// The observed value.
    pub key: String,
    /// The estimated frequency of the value in the stream.
    pub frequency: Fraction,
}

impl View for Entry {
    type V = (Seq<char>, Fraction);

    open spec fn view(&self) -> (Seq<char>, Fraction) {
        (self.key@, self.frequency)
    }
}

/// A list of entries as a sequence of keys with their frequencies.
pub open spec fn report_of(items: Seq<Entry>) -> Seq<(Seq<char>, Fraction)> {
    items.map_values(|e: Entry| e@)
}

/// One more entry in the list is one more item in the report.
pub proof fn lemma_report_push(items: Seq<Entry>, entry: Entry)
    ensures
        report_of(items.push(entry)) == report_of(items).push(entry@),
{
    assert(report_of(items.push(entry)) =~= report_of(items).push(entry@));
}

/// Why a counter could not be built.
#[derive(Clone, Copy, Debug, PartialEq, Eq, Structural)]
pub enum ConfigError {
    /// The error tolerance is not strictly between zero and one.
    ErrorTolerance,
    /// The support is not strictly between zero and one.
    Support,
    /// The failure probability is not strictly between zero and one.
    FailureProbability,
    /// The logarithm of one over support times failure probability is zero.
    Logarithm,
}

/// Things that count the values of a stream.
pub trait Counter {
    /// The counter's state is consistent.
    spec fn wf(&self) -> bool;

    /// The keys observed so far, in order.
    spec fn stream(&self) -> Seq<Seq<char>>;

    /// What a query at `threshold` reports in the counter's present state.
    spec fn answer(&self, threshold: Fraction) -> Seq<(Seq<char>, Fraction)>;

    /// The number of observations so far.
    fn observations(&self) -> (n: u64)
        requires
            self.wf(),
        ensures
            n == self.stream().len(),
    ;

    /// Records one occurrence of `key`.
    fn observe(&mut self, key: &str)
        requires
            old(self).wf(),
            old(self).stream().len() < u64::MAX,
        ensures
            final(self).wf(),
            final(self).stream() == old(self).stream().push(key@),
    ;

    /// The tracked keys whose estimated frequency meets `threshold`, each
    /// with that estimate, in the order in which the keys entered tracking.
    fn items_above_threshold(&self, threshold: Fraction) -> (items: Vec<Entry>)
        requires
            self.wf(),
        ensures
            report_of(items@) == self.answer(threshold),
    ;
}

/// Two queries at one threshold, with no observation between them, report
/// the same keys with the same frequencies in the same order.
pub proof fn lemma_queries_agree<C: Counter>(
    counter: &C,
    threshold: Fraction,
    first: Vec<Entry>,
    second: Vec<Entry>,
)
    requires
        report_of(first@) == counter.answer(threshold),
        report_of(second@) == counter.answer(threshold),
    ensures
        report_of(first@) == report_of(second@),
        first@.len() == second@.len(),
        forall|i: int|
            0 <= i < first@.len() ==> (#[trigger] first@[i]).key@ == second@[i].key@ && first@[i].frequency
                == second@[i].frequency,
{
    assert(report_of(first@).len() == first@.len());
    assert(report_of(second@).len() == second@.len());
    assert forall|i: int| 0 <= i < first@.len() implies (#[trigger] first@[i]).key@
        == second@[i].key@ && first@[i].frequency == second@[i].frequency by {
        assert(report_of(first@)[i] == first@[i]@);
        assert(report_of(second@)[i] == second@[i]@);
    }
}

} // verus!
