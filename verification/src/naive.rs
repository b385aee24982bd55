//! The exact counter: one count per distinct key.

use crate::counter::{lemma_report_push, report_of, Counter, Entry};
use crate::fraction::{share_ppb, Fraction, SCALE};
use crate::stream::{lemma_occurrences_bounded, lemma_occurrences_push, occurrences};
use crate::table::{
    comes_from, distinct_keys, has_key, lemma_select_keeps, lemma_select_sources,
    lemma_select_step, lemma_slot_of, select, slot_of, Table,
};
use vstd::prelude::*;

verus! {

/// The smallest count that a query at `threshold` reports after `total`
/// observations: `total` times the threshold, rounded down.
pub open spec fn cutoff(total: nat, threshold: Fraction) -> nat {
    total * threshold.ppb as nat / SCALE as nat
}

/// The sum of the counts.
pub open spec fn sum_counts(counts: Seq<(Seq<char>, u64)>) -> nat
    decreases counts.len(),
{
    if counts.len() == 0 {
        0
    } else {
        sum_counts(counts.drop_last()) + counts.last().1 as nat
    }
}

/// What a query makes of one count: its share of the total, if the count
/// reaches the cutoff.
pub open spec fn exact_share(total: nat, threshold: Fraction) -> spec_fn(u64) -> Option<Fraction> {
    |count: u64|
        if count >= cutoff(total, threshold) {
            Some(Fraction { ppb: share_ppb(count as nat, total) as u64 })
        } else {
            None
        }
}

/// The exact counter as a mathematical value.
pub struct NaiveState {
    /// The keys observed so far, in order.
    pub stream: Seq<Seq<char>>,
    /// Each distinct key with its count, in order of first occurrence.
    pub counts: Seq<(Seq<char>, u64)>,
}

impl NaiveState {
    /// The counts are exact: there is one for each key of the stream, it is
    /// the number of the key's occurrences, and together they count every
    /// observation once.
    pub open spec fn inv(self) -> bool {
        &&& self.stream.len() <= u64::MAX
        &&& distinct_keys(self.counts)
        &&& sum_counts(self.counts) == self.stream.len()
        &&& forall|i: int|
            0 <= i < self.counts.len() ==> (#[trigger] self.counts[i]).1 >= 1
                && self.counts[i].1 == occurrences(self.stream, self.counts[i].0)
        &&& forall|key: Seq<char>|
            !(#[trigger] has_key(self.counts, key)) ==> occurrences(self.stream, key) == 0
    }

    /// The state before any observation.
    pub open spec fn fresh() -> NaiveState {
        NaiveState { stream: Seq::empty(), counts: Seq::empty() }
    }

    /// The state after one more observation of `key`.
    pub open spec fn observe(self, key: Seq<char>) -> NaiveState {
        NaiveState {
            stream: self.stream.push(key),
            counts: if has_key(self.counts, key) {
                let i = slot_of(self.counts, key);
                self.counts.update(i, (key, (self.counts[i].1 + 1) as u64))
            } else {
                self.counts.push((key, 1u64))
            },
        }
    }

    /// The state after the observations `keys`, from the first to the last.
    pub open spec fn after(keys: Seq<Seq<char>>) -> NaiveState
        decreases keys.len(),
    {
        if keys.len() == 0 {
            NaiveState::fresh()
        } else {
            NaiveState::after(keys.drop_last()).observe(keys.last())
        }
    }

    /// What a query at `threshold` reports: nothing before the first
    /// observation, then every key whose count reaches the cutoff, with its
    /// share of the observations.
    pub open spec fn report(self, threshold: Fraction) -> Seq<(Seq<char>, Fraction)> {
        if self.stream.len() == 0 {
            Seq::empty()
        } else {
            select(self.counts, exact_share(self.stream.len(), threshold))
        }
    }
}

/// Replacing one count changes the sum by the difference.
pub proof fn lemma_sum_update(counts: Seq<(Seq<char>, u64)>, i: int, entry: (Seq<char>, u64))
    requires
        0 <= i < counts.len(),
    ensures
        sum_counts(counts.update(i, entry)) + counts[i].1 == sum_counts(counts) + entry.1,
    decreases counts.len(),
{
    let updated = counts.update(i, entry);
    if i == counts.len() - 1 {
        assert(updated.drop_last() =~= counts.drop_last());
    } else {
        lemma_sum_update(counts.drop_last(), i, entry);
        assert(updated.drop_last() =~= counts.drop_last().update(i, entry));
    }
}

/// An observation keeps the counts exact.
pub proof fn lemma_observe_keeps_exact(state: NaiveState, key: Seq<char>)
    requires
        state.inv(),
        state.stream.len() < u64::MAX,
    ensures
        state.observe(key).inv(),
{
    let next = state.observe(key);
    assert forall|k: Seq<char>|
        occurrences(next.stream, k) == occurrences(state.stream, k) + if key == k {
            1nat
        } else {
            0nat
        } by {
        lemma_occurrences_push(state.stream, key, k);
    }
    lemma_occurrences_bounded(state.stream, key);
    if has_key(state.counts, key) {
        let i = slot_of(state.counts, key);
        lemma_sum_update(state.counts, i, (key, (state.counts[i].1 + 1) as u64));
        assert forall|j: int| 0 <= j < next.counts.len() implies (#[trigger] next.counts[j]).0
            == state.counts[j].0 by {}
        assert forall|k: Seq<char>| !(#[trigger] has_key(next.counts, k)) implies occurrences(
            next.stream,
            k,
        ) == 0 by {
            if has_key(state.counts, k) {
                let j = slot_of(state.counts, k);
                assert(next.counts[j].0 == k);
            }
        }
    } else {
        assert(next.counts.drop_last() =~= state.counts);
        assert forall|k: Seq<char>| !(#[trigger] has_key(next.counts, k)) implies occurrences(
            next.stream,
            k,
        ) == 0 by {
            if has_key(state.counts, k) {
                let j = slot_of(state.counts, k);
                assert(next.counts[j].0 == k);
            }
            assert(next.counts[state.counts.len() as int].0 == key);
        }
    }
}

/// Whatever keys are observed, the counts stay exact: they sum to the number
/// of observations, and each is the number of its key's occurrences.
pub proof fn lemma_exact_after_any_stream(keys: Seq<Seq<char>>)
    requires
        keys.len() <= u64::MAX,
    ensures
        NaiveState::after(keys).inv(),
        NaiveState::after(keys).stream == keys,
        sum_counts(NaiveState::after(keys).counts) == keys.len(),
    decreases keys.len(),
{
    if keys.len() > 0 {
        lemma_exact_after_any_stream(keys.drop_last());
        lemma_observe_keeps_exact(NaiveState::after(keys.drop_last()), keys.last());
        assert(keys.drop_last().push(keys.last()) =~= keys);
    }
}

/// A query reports exactly the keys that occur in the stream at least as
/// often as the cutoff, each once, with its true share of the observations.
pub proof fn lemma_report_exact(state: NaiveState, threshold: Fraction, key: Seq<char>)
    requires
        state.inv(),
        state.stream.len() > 0,
    ensures
        distinct_keys(state.report(threshold)),
        has_key(state.report(threshold), key) <==> occurrences(state.stream, key) >= 1
            && occurrences(state.stream, key) >= cutoff(state.stream.len(), threshold),
        has_key(state.report(threshold), key) ==> state.report(threshold)[slot_of(
            state.report(threshold),
            key,
        )].1.ppb == share_ppb(occurrences(state.stream, key), state.stream.len()),
{
    let total = state.stream.len();
    let f = exact_share(total, threshold);
    let report = state.report(threshold);
    crate::table::lemma_select_distinct(state.counts, f);
    lemma_select_sources(state.counts, f);
    lemma_occurrences_bounded(state.stream, key);
    crate::fraction::lemma_share_at_most_one(occurrences(state.stream, key), total);
    if has_key(report, key) {
        let j = slot_of(report, key);
        assert(comes_from(state.counts, f, report[j]));
    }
    if occurrences(state.stream, key) >= 1 && occurrences(state.stream, key) >= cutoff(
        total,
        threshold,
    ) {
        assert(has_key(state.counts, key));
        let i = slot_of(state.counts, key);
        let j = lemma_select_keeps(state.counts, f, i);
    }
}

/// A reference counter that is exact and keeps one count per distinct key.
pub struct NaiveSampler {
    n: u64,
    vals: Table<u64>,
    stream: Ghost<Seq<Seq<char>>>,
}

impl View for NaiveSampler {
    type V = NaiveState;

    closed spec fn view(&self) -> NaiveState {
        NaiveState { stream: self.stream@, counts: self.vals@ }
    }
}

impl NaiveSampler {
    /// The fields agree with one another.
    pub closed spec fn sound(&self) -> bool {
        self.vals.wf() && self.n == self.stream@.len()
    }

    /// The number of distinct keys observed.
    pub fn len(&self) -> (n: usize)
        requires
            self.wf(),
        ensures
            n == self@.counts.len(),
    {
        self.vals.len()
    }

    /// How often `key` has been observed.
    pub fn get(&self, key: &str) -> (count: u64)
        requires
            self.wf(),
        ensures
            count == occurrences(self.stream(), key@),
    {
        match self.vals.find(key) {
            Some(i) => self.vals.value_at(i),
            None => 0,
        }
    }
}

/// A counter that has observed nothing.
pub fn new_naive_sampler() -> (counter: NaiveSampler)
    ensures
        counter.wf(),
        counter@ == NaiveState::fresh(),
{
    NaiveSampler { n: 0, vals: Table::new(), stream: Ghost(Seq::empty()) }
}

impl Default for NaiveSampler {
    fn default() -> (counter: NaiveSampler)
        ensures
            counter.wf(),
            counter@ == NaiveState::fresh(),
    {
        new_naive_sampler()
    }
}

impl Counter for NaiveSampler {
    open spec fn wf(&self) -> bool {
        self.sound() && self@.inv()
    }

    open spec fn stream(&self) -> Seq<Seq<char>> {
        self@.stream
    }

    open spec fn answer(&self, threshold: Fraction) -> Seq<(Seq<char>, Fraction)> {
        self@.report(threshold)
    }

    fn observations(&self) -> (n: u64) {
        self.n
    }

    fn observe(&mut self, key: &str)
        ensures
            final(self)@ == old(self)@.observe(key@),
    {
        proof {
            lemma_observe_keeps_exact(self@, key@);
            lemma_occurrences_bounded(self@.stream, key@);
        }
        self.n = self.n + 1;
        match self.vals.find(key) {
            Some(i) => {
                let count = self.vals.value_at(i);
                proof {
                    lemma_slot_of(old(self)@.counts, i as int);
                }
                self.vals.set(i, count + 1);
            },
            None => {
                self.vals.push(key.to_owned(), 1);
            },
        }
        self.stream = Ghost(self.stream@.push(key@));
    }

    fn items_above_threshold(&self, threshold: Fraction) -> (items: Vec<Entry>) {
        let mut items: Vec<Entry> = Vec::new();
        if self.n == 0 {
            assert(report_of(items@) =~= Seq::empty());
            return items;
        }
        let ghost f = exact_share(self.n as nat, threshold);
        proof {
            assert(self.n as nat * threshold.ppb as nat <= u64::MAX as nat * u64::MAX as nat)
                by (nonlinear_arith)
                requires
                    self.n as nat <= u64::MAX as nat,
                    threshold.ppb as nat <= u64::MAX as nat,
            ;
        }
        let least: u128 = self.n as u128 * threshold.ppb as u128 / SCALE as u128;
        let len = self.vals.len();
        let mut i: usize = 0;
        assert(report_of(items@) =~= select(self.vals@.take(0), f));
        while i < len
            invariant
                self.wf(),
                self.n > 0,
                len == self.vals@.len(),
                i <= len,
                least == cutoff(self.n as nat, threshold),
                f == exact_share(self.n as nat, threshold),
                report_of(items@) == select(self.vals@.take(i as int), f),
            decreases len - i,
        {
            let count = self.vals.value_at(i);
            proof {
                lemma_select_step(self.vals@, f, i as int);
                lemma_occurrences_bounded(self@.stream, self.vals@[i as int].0);
            }
            if count as u128 >= least {
                let frequency = Fraction::share(count, self.n);
                let entry = Entry { key: self.vals.key_at(i).clone(), frequency };
                proof {
                    lemma_report_push(items@, entry);
                }
                items.push(entry);
            }
            i += 1;
        }
        assert(self.vals@.take(len as int) =~= self.vals@);
        items
    }
}

} // verus!
