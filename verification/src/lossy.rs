//! Lossy Counting: counts in buckets of fixed width, and drops at each
//! bucket boundary the keys that have stayed rare.

use crate::counter::{lemma_report_push, report_of, ConfigError, Counter, Entry};
use crate::fraction::{share_ppb, Fraction, SCALE};
use crate::lossy_memory::{lemma_observe_keeps_compact, mass_from};
use crate::stream::{lemma_occurrences_bounded, lemma_occurrences_push, occurrences};
use crate::table::{
    comes_from, distinct_keys, has_key, lemma_select_distinct, lemma_select_keeps,
    lemma_select_sources, lemma_select_step, lemma_slot_of, select, slot_of, Table,
};
use vstd::arithmetic::div_mod::{
    lemma_div_is_ordered, lemma_div_nonincreasing, lemma_div_pos_is_pos,
    lemma_fundamental_div_mod, lemma_fundamental_div_mod_converse, lemma_mod_bound,
};
use vstd::prelude::*;

verus! {

/// What is kept for a tracked key.
#[derive(Clone, Copy, Debug, PartialEq, Eq, Structural)]
pub struct FDeltaPair {
    /// The occurrences counted since the key entered tracking.
    pub f: u64,
    /// The number of whole buckets that had passed when the key entered
    /// tracking.
    pub delta: u64,
}

/// The bucket width for an error tolerance: one over the tolerance, rounded
/// up.
pub open spec fn width_for(error_tolerance: Fraction) -> nat
    recommends
        error_tolerance.ppb > 0,
{
    ((SCALE + error_tolerance.ppb - 1) / error_tolerance.ppb as int) as nat
}

/// The first reason, if any, for which Lossy Counting cannot be set up.
pub open spec fn lossy_fault(support: Fraction, error_tolerance: Fraction) -> Option<ConfigError> {
    if !error_tolerance.is_proper() {
        Some(ConfigError::ErrorTolerance)
    } else if !support.is_proper() {
        Some(ConfigError::Support)
    } else {
        None
    }
}

/// Pruning at `bucket` keeps the keys whose count and bucket lag together
/// exceed it.
pub open spec fn survives(bucket: nat) -> spec_fn(FDeltaPair) -> Option<FDeltaPair> {
    |pair: FDeltaPair|
        if pair.f + pair.delta > bucket {
            Some(pair)
        } else {
            None
        }
}

/// Whether a tracked key is reported at `threshold` after `total`
/// observations: `f >= (threshold - delta) * total`.
pub open spec fn lossy_meets(pair: FDeltaPair, total: nat, threshold: Fraction) -> bool {
    pair.f as int * SCALE as int >= (threshold.ppb as int - pair.delta as int * SCALE as int)
        * total as int
}

/// What a query makes of a tracked key: `f / total + support`, if the key
/// meets the threshold.
pub open spec fn lossy_share(total: nat, threshold: Fraction, support: Fraction) -> spec_fn(
    FDeltaPair,
) -> Option<Fraction> {
    |pair: FDeltaPair|
        if lossy_meets(pair, total, threshold) {
            Some(Fraction { ppb: (share_ppb(pair.f as nat, total) + support.ppb) as u64 })
        } else {
            None
        }
}

/// The lossy counter as a mathematical value.
pub struct LossyState {
    /// The keys observed so far, in order.
    pub stream: Seq<Seq<char>>,
    /// The number of observations in a bucket.
    pub width: u64,
    /// The offset added to every reported frequency.
    pub support: Fraction,
    /// The tracked keys, in the order in which they entered tracking.
    pub entries: Seq<(Seq<char>, FDeltaPair)>,
}

impl LossyState {
    /// The number of whole buckets that the stream has filled.
    pub open spec fn buckets(self) -> nat {
        self.stream.len() / self.width as nat
    }

    /// A tracked key has been counted at least once and never more often
    /// than it occurred; what was missed of it is at most twice its `delta`;
    /// a key that is not tracked occurred at most twice as often as there
    /// are whole buckets.
    pub open spec fn inv(self) -> bool {
        &&& self.width >= 1
        &&& self.support.is_proper()
        &&& self.stream.len() <= u64::MAX
        &&& distinct_keys(self.entries)
        &&& forall|i: int|
            0 <= i < self.entries.len() ==> {
                let pair = (#[trigger] self.entries[i]).1;
                let seen = occurrences(self.stream, self.entries[i].0);
                &&& 1 <= pair.f <= seen <= pair.f + 2 * pair.delta
                &&& pair.delta * self.width < self.stream.len()
            }
        &&& forall|key: Seq<char>|
            !(#[trigger] has_key(self.entries, key)) ==> occurrences(self.stream, key) <= 2
                * self.buckets()
        &&& self.compact()
    }

    /// The tracked keys are few: those with a `delta` of at least `from`
    /// have been counted, together, no more often than there were
    /// observations after the first `from` buckets; and a key that entered
    /// tracking before the present bucket has been counted often enough to
    /// outlast the last pruning.
    pub open spec fn compact(self) -> bool {
        &&& forall|from: nat|
            mass_from(self.entries, from) == 0 || (#[trigger] mass_from(self.entries, from)) + from
                * self.width <= self.stream.len()
        &&& forall|i: int|
            0 <= i < self.entries.len() && (#[trigger] self.entries[i]).1.delta < self.buckets()
                ==> self.entries[i].1.f + self.entries[i].1.delta >= self.buckets() + 2
    }

    /// The state before any observation.
    pub open spec fn fresh(width: u64, support: Fraction) -> LossyState {
        LossyState { stream: Seq::empty(), width, support, entries: Seq::empty() }
    }

    /// The tracked keys after `key` has been counted and before any pruning:
    /// a tracked key gains one, a new key enters with a count of one and the
    /// number of whole buckets as its `delta`.
    pub open spec fn counted(self, key: Seq<char>) -> Seq<(Seq<char>, FDeltaPair)> {
        if has_key(self.entries, key) {
            let i = slot_of(self.entries, key);
            let pair = self.entries[i].1;
            self.entries.update(i, (key, FDeltaPair { f: (pair.f + 1) as u64, delta: pair.delta }))
        } else {
            let passed = (self.stream.len() + 1) / self.width as nat;
            self.entries.push((key, FDeltaPair { f: 1, delta: passed as u64 }))
        }
    }

    /// The state after one more observation of `key`: the key is counted,
    /// and where the observation completes a bucket, the keys that do not
    /// survive at the next bucket's number are dropped.
    pub open spec fn observe(self, key: Seq<char>) -> LossyState {
        let total = self.stream.len() + 1;
        let bucket = total / self.width as nat + 1;
        LossyState {
            stream: self.stream.push(key),
            width: self.width,
            support: self.support,
            entries: if total % self.width as nat == 0 {
                select(self.counted(key), survives(bucket))
            } else {
                self.counted(key)
            },
        }
    }

    /// The state after the observations `keys`, from the first to the last,
    /// of a counter made with `width` and `support`.
    pub open spec fn after(width: u64, support: Fraction, keys: Seq<Seq<char>>) -> LossyState
        decreases keys.len(),
    {
        if keys.len() == 0 {
            LossyState::fresh(width, support)
        } else {
            LossyState::after(width, support, keys.drop_last()).observe(keys.last())
        }
    }

    /// Whether the observation of `key` completes a bucket and drops `other`
    /// with a count and a `delta` that together are exactly the bucket's
    /// number.
    pub open spec fn marginal(self, key: Seq<char>, other: Seq<char>) -> bool {
        let total = self.stream.len() + 1;
        let bucket = total / self.width as nat + 1;
        let counted = self.counted(key);
        total % self.width as nat == 0 && has_key(counted, other) && ({
            let pair = counted[slot_of(counted, other)].1;
            pair.f + pair.delta == bucket
        })
    }

    /// The bounds of Lossy Counting as published, for one key: if it is
    /// tracked, what was missed of it is at most its `delta`; if it is not,
    /// it occurred at most as often as there are whole buckets.
    pub open spec fn tight(self, key: Seq<char>) -> bool {
        if has_key(self.entries, key) {
            let pair = self.entries[slot_of(self.entries, key)].1;
            occurrences(self.stream, key) <= pair.f + pair.delta
        } else {
            occurrences(self.stream, key) <= self.buckets()
        }
    }

    /// What a query at `threshold` reports: nothing before the first
    /// observation, then every tracked key that meets the threshold, with
    /// its counted share of the observations plus the support.
    pub open spec fn report(self, threshold: Fraction) -> Seq<(Seq<char>, Fraction)> {
        if self.stream.len() == 0 {
            Seq::empty()
        } else {
            select(self.entries, lossy_share(self.stream.len(), threshold, self.support))
        }
    }
}

/// How the number of whole buckets moves with one more observation.
pub(crate) proof fn lemma_buckets(total: int, width: int)
    requires
        total >= 1,
        width >= 1,
    ensures
        0 <= (total - 1) / width <= total / width <= total,
        total % width != 0 ==> (total / width) * width < total && (total - 1) / width == total
            / width,
        total % width == 0 ==> (total / width) * width == total && (total - 1) / width == total
            / width - 1,
{
    let q = total / width;
    lemma_fundamental_div_mod(total, width);
    lemma_mod_bound(total, width);
    lemma_div_is_ordered(total - 1, total, width);
    lemma_div_pos_is_pos(total - 1, width);
    lemma_div_nonincreasing(total, width);
    assert(width * q == q * width) by (nonlinear_arith);
    if total % width == 0 {
        assert((q - 1) * width + (width - 1) == total - 1) by (nonlinear_arith)
            requires
                q * width == total,
        ;
        lemma_fundamental_div_mod_converse(total - 1, width, q - 1, width - 1);
    } else {
        lemma_fundamental_div_mod_converse(total - 1, width, q, total % width - 1);
    }
}

/// The bucket width is the least whole number that, times the tolerance,
/// reaches one.
pub proof fn lemma_width_is_ceiling(error_tolerance: Fraction)
    requires
        error_tolerance.ppb > 0,
    ensures
        width_for(error_tolerance) * error_tolerance.ppb >= SCALE,
        (width_for(error_tolerance) - 1) * error_tolerance.ppb < SCALE,
        error_tolerance.ppb <= SCALE ==> 1 <= width_for(error_tolerance) <= SCALE,
{
    let e = error_tolerance.ppb as int;
    let x = SCALE + e - 1;
    let w = x / e;
    lemma_fundamental_div_mod(x, e);
    lemma_mod_bound(x, e);
    lemma_div_pos_is_pos(x, e);
    lemma_div_nonincreasing(x, e);
    assert(e * w == w * e && (w - 1) * e == w * e - e) by (nonlinear_arith);
    if e <= SCALE {
        assert(w >= 1) by (nonlinear_arith)
            requires
                w * e >= SCALE,
                e <= SCALE,
                e > 0,
                SCALE > 0,
        ;
        assert(w <= SCALE) by (nonlinear_arith)
            requires
                (w - 1) * e < SCALE,
                e >= 1,
        ;
    }
}

/// An observation keeps the error bounds.
pub proof fn lemma_observe_keeps_bounds(state: LossyState, key: Seq<char>)
    requires
        state.inv(),
        state.stream.len() < u64::MAX,
    ensures
        state.observe(key).inv(),
{
    let next = state.observe(key);
    let counted = state.counted(key);
    let total = (state.stream.len() + 1) as int;
    let width = state.width as int;
    let passed = total / width;
    let bucket = (passed + 1) as nat;
    lemma_buckets(total, width);
    lemma_observe_keeps_compact(state, key);
    assert forall|k: Seq<char>|
        occurrences(next.stream, k) == occurrences(state.stream, k) + if key == k {
            1nat
        } else {
            0nat
        } by {
        lemma_occurrences_push(state.stream, key, k);
    }
    lemma_occurrences_bounded(state.stream, key);
    // The entries after counting, before pruning.
    let fresh = !has_key(state.entries, key);
    let at = if fresh {
        state.entries.len() as int
    } else {
        slot_of(state.entries, key)
    };
    assert(counted.len() > at >= 0 && counted[at].0 == key);
    assert forall|j: int| 0 <= j < counted.len() && j != at implies (#[trigger] counted[j])
        == state.entries[j] && counted[j].0 != key by {}
    assert(distinct_keys(counted));
    assert forall|k: Seq<char>| !(#[trigger] has_key(counted, k)) implies !has_key(
        state.entries,
        k,
    ) && k != key by {
        if has_key(state.entries, k) {
            let j = slot_of(state.entries, k);
            assert(counted[j].0 == k);
        }
    }
    assert forall|j: int| 0 <= j < counted.len() implies {
        let pair = (#[trigger] counted[j]).1;
        let seen = occurrences(next.stream, counted[j].0);
        &&& 1 <= pair.f <= seen <= pair.f + 2 * pair.delta
        &&& j != at || !fresh ==> pair.delta * width < state.stream.len()
        &&& j == at && fresh ==> pair.f == 1 && pair.delta == passed && seen <= 2 * ((total - 1)
            / width) + 1
    } by {
        if j != at {
            assert(counted[j] == state.entries[j]);
        } else if !fresh {
            assert(state.entries[at].0 == key);
        }
    }
    if total % width == 0 {
        let keep = survives(bucket);
        lemma_select_distinct(counted, keep);
        lemma_select_sources(counted, keep);
        assert forall|i: int| 0 <= i < next.entries.len() implies {
            let pair = (#[trigger] next.entries[i]).1;
            let seen = occurrences(next.stream, next.entries[i].0);
            &&& 1 <= pair.f <= seen <= pair.f + 2 * pair.delta
            &&& pair.delta * next.width < next.stream.len()
        } by {
            assert(comes_from(counted, keep, next.entries[i]));
            let j = choose|j: int|
                0 <= j < counted.len() && (#[trigger] counted[j]).0 == next.entries[i].0 && keep(
                    counted[j].1,
                ) == Some(next.entries[i].1);
            assert(counted[j].1 == next.entries[i].1);
        }
        assert forall|k: Seq<char>| !(#[trigger] has_key(next.entries, k)) implies occurrences(
            next.stream,
            k,
        ) <= 2 * next.buckets() by {
            if has_key(counted, k) {
                let j = slot_of(counted, k);
                if keep(counted[j].1) is Some {
                    lemma_select_keeps(counted, keep, j);
                }
                let pair = counted[j].1;
                if !(j == at && fresh) {
                    assert(pair.delta < passed) by (nonlinear_arith)
                        requires
                            pair.delta * width < passed * width,
                            width >= 1,
                    ;
                }
            }
        }
    } else {
        assert forall|k: Seq<char>| !(#[trigger] has_key(next.entries, k)) implies occurrences(
            next.stream,
            k,
        ) <= 2 * next.buckets() by {}
    }
}

/// Whatever keys are observed, the error bounds hold.
pub proof fn lemma_bounds_after_any_stream(width: u64, support: Fraction, keys: Seq<Seq<char>>)
    requires
        width >= 1,
        support.is_proper(),
        keys.len() <= u64::MAX,
    ensures
        LossyState::after(width, support, keys).inv(),
        LossyState::after(width, support, keys).stream == keys,
        LossyState::after(width, support, keys).width == width,
        LossyState::after(width, support, keys).support == support,
    decreases keys.len(),
{
    if keys.len() > 0 {
        lemma_bounds_after_any_stream(width, support, keys.drop_last());
        lemma_observe_keeps_bounds(LossyState::after(width, support, keys.drop_last()), keys.last());
        assert(keys.drop_last().push(keys.last()) =~= keys);
    }
}

/// A tracked key is never counted more often than it occurred, and what was
/// missed of it is at most twice its `delta`; a key that is not tracked
/// occurred at most twice as often as there are whole buckets.
pub proof fn lemma_error_bounds(state: LossyState, key: Seq<char>)
    requires
        state.inv(),
    ensures
        has_key(state.entries, key) ==> ({
            let pair = state.entries[slot_of(state.entries, key)].1;
            pair.f <= occurrences(state.stream, key) <= pair.f + 2 * pair.delta
        }),
        !has_key(state.entries, key) ==> occurrences(state.stream, key) <= 2 * state.buckets(),
{
    if has_key(state.entries, key) {
        let i = slot_of(state.entries, key);
        assert(state.entries[i].0 == key);
    }
}

/// No frequent key is missed: a key that occurred more than twice as often
/// as there are whole buckets, and at least `threshold` times the length of
/// the stream, is reported at `threshold`.
pub proof fn lemma_frequent_keys_reported(state: LossyState, threshold: Fraction, key: Seq<char>)
    requires
        state.inv(),
        threshold.ppb <= SCALE,
        occurrences(state.stream, key) > 2 * state.buckets(),
        occurrences(state.stream, key) * SCALE >= threshold.ppb * state.stream.len(),
    ensures
        has_key(state.report(threshold), key),
{
    let total = state.stream.len();
    lemma_occurrences_bounded(state.stream, key);
    assert(has_key(state.entries, key));
    let i = slot_of(state.entries, key);
    let pair = state.entries[i].1;
    assert(lossy_meets(pair, total, threshold)) by {
        let gap = threshold.ppb as int - pair.delta as int * SCALE as int;
        if pair.delta >= 1 {
            assert(pair.delta as int * SCALE as int >= SCALE as int) by (nonlinear_arith)
                requires
                    pair.delta as int >= 1,
            ;
            assert(gap * total as int <= 0) by (nonlinear_arith)
                requires
                    gap <= 0,
                    total as int >= 0,
            ;
            assert(pair.f as int * SCALE as int >= 0) by (nonlinear_arith)
                requires
                    pair.f as int >= 0,
            ;
        } else {
            assert(pair.f == occurrences(state.stream, key));
            assert(gap == threshold.ppb as int);
        }
    }
    crate::fraction::lemma_share_at_most_one(pair.f as nat, total);
    lemma_select_keeps(state.entries, lossy_share(total, threshold, state.support), i);
}

/// An observation that does not drop a key at the margin keeps the
/// published bounds for that key.
pub proof fn lemma_observe_keeps_tight(state: LossyState, key: Seq<char>, other: Seq<char>)
    requires
        state.inv(),
        state.tight(other),
        state.stream.len() < u64::MAX,
        !state.marginal(key, other),
    ensures
        state.observe(key).tight(other),
{
    let next = state.observe(key);
    let counted = state.counted(key);
    let total = (state.stream.len() + 1) as int;
    let width = state.width as int;
    let passed = total / width;
    let bucket = (passed + 1) as nat;
    let keep = survives(bucket);
    lemma_buckets(total, width);
    lemma_occurrences_push(state.stream, key, other);
    lemma_occurrences_bounded(state.stream, key);
    let fresh = !has_key(state.entries, key);
    let at = if fresh {
        state.entries.len() as int
    } else {
        slot_of(state.entries, key)
    };
    assert(counted.len() > at >= 0 && counted[at].0 == key);
    assert forall|j: int| 0 <= j < counted.len() && j != at implies (#[trigger] counted[j])
        == state.entries[j] && counted[j].0 != key by {}
    assert(distinct_keys(counted));
    // Counting keeps the bound for `other`, tracked or not.
    assert forall|c: int| 0 <= c < counted.len() && (#[trigger] counted[c]).0 == other implies occurrences(
        next.stream,
        other,
    ) <= counted[c].1.f + counted[c].1.delta by {
        if c != at || !fresh {
            assert(state.entries[c].0 == other);
            lemma_slot_of(state.entries, c);
        }
    }
    if !has_key(counted, other) {
        if has_key(state.entries, other) {
            let j = slot_of(state.entries, other);
            assert(counted[j].0 == other);
        }
        assert(other != key);
    }
    if has_key(next.entries, other) {
        let j = slot_of(next.entries, other);
        if total % width == 0 {
            lemma_select_sources(counted, keep);
            assert(comes_from(counted, keep, next.entries[j]));
        }
    } else if has_key(counted, other) {
        let c = slot_of(counted, other);
        if keep(counted[c].1) is Some {
            lemma_select_keeps(counted, keep, c);
        }
    }
}

/// No observation of `keys` drops `other` at the margin.
pub open spec fn never_marginal(
    width: u64,
    support: Fraction,
    keys: Seq<Seq<char>>,
    other: Seq<char>,
) -> bool {
    forall|i: int|
        0 <= i < keys.len() ==> !(#[trigger] LossyState::after(
            width,
            support,
            keys.take(i),
        )).marginal(keys[i], other)
}

/// For a key that no observation of the stream drops at the margin, what
/// was missed never exceeds its `delta` while it is tracked, and it
/// occurred at most as often as there are whole buckets while it is not.
pub proof fn lemma_undercount_within_delta(
    width: u64,
    support: Fraction,
    keys: Seq<Seq<char>>,
    other: Seq<char>,
)
    requires
        width >= 1,
        support.is_proper(),
        keys.len() <= u64::MAX,
        never_marginal(width, support, keys, other),
    ensures
        LossyState::after(width, support, keys).tight(other),
    decreases keys.len(),
{
    if keys.len() > 0 {
        let front = keys.drop_last();
        assert(never_marginal(width, support, front, other)) by {
            assert forall|i: int| 0 <= i < front.len() implies !(#[trigger] LossyState::after(
                width,
                support,
                front.take(i),
            )).marginal(front[i], other) by {
                assert(front.take(i) =~= keys.take(i));
                assert(!LossyState::after(width, support, keys.take(i)).marginal(keys[i], other));
            }
        }
        lemma_undercount_within_delta(width, support, front, other);
        lemma_bounds_after_any_stream(width, support, front);
        assert(keys.take(keys.len() - 1) =~= front);
        assert(!LossyState::after(width, support, keys.take(keys.len() - 1)).marginal(
            keys[keys.len() - 1],
            other,
        ));
        lemma_observe_keeps_tight(LossyState::after(width, support, front), keys.last(), other);
    }
}

/// While a key stays tracked, its `delta` stays as it is and its count
/// never falls: it grows by one when the key is observed and not otherwise.
pub proof fn lemma_tracked_key_steady(state: LossyState, key: Seq<char>, held: Seq<char>)
    requires
        state.inv(),
        state.stream.len() < u64::MAX,
        has_key(state.entries, held),
        has_key(state.observe(key).entries, held),
    ensures
        ({
            let before = state.entries[slot_of(state.entries, held)].1;
            let after = state.observe(key).entries[slot_of(state.observe(key).entries, held)].1;
            &&& after.delta == before.delta
            &&& after.f == before.f + if held == key {
                1int
            } else {
                0int
            }
        }),
{
    let next = state.observe(key);
    let counted = state.counted(key);
    let total = state.stream.len() + 1;
    let bucket = total / state.width as nat + 1;
    let i = slot_of(state.entries, held);
    lemma_occurrences_bounded(state.stream, key);
    assert(distinct_keys(counted) && counted.len() > i && counted[i].0 == held && counted[i].1
        == FDeltaPair {
        f: (state.entries[i].1.f + if held == key {
            1int
        } else {
            0int
        }) as u64,
        delta: state.entries[i].1.delta,
    }) by {
        if has_key(state.entries, key) {
            let at = slot_of(state.entries, key);
            assert(state.entries[at].0 == key);
        }
    }
    let j = slot_of(next.entries, held);
    if total % state.width as nat == 0 {
        lemma_select_sources(counted, survives(bucket));
        assert(comes_from(counted, survives(bucket), next.entries[j]));
    }
}

/// Lossy Counting over a stream of string keys.
pub struct LossyCounter {
    support: Fraction,
    d: Table<FDeltaPair>,
    n: u64,
    bucket_width: u64,
    stream: Ghost<Seq<Seq<char>>>,
}

impl View for LossyCounter {
    type V = LossyState;

    closed spec fn view(&self) -> LossyState {
        LossyState {
            stream: self.stream@,
            width: self.bucket_width,
            support: self.support,
            entries: self.d@,
        }
    }
}

/// A lossy counter for the given support and error tolerance, both strictly
/// between zero and one; the bucket width is one over the tolerance, rounded
/// up.
pub fn new_lossy_counter(support: Fraction, error_tolerance: Fraction) -> (made: Result<
    LossyCounter,
    ConfigError,
>)
    ensures
        match made {
            Ok(counter) => lossy_fault(support, error_tolerance) is None && counter.wf()
                && counter@ == LossyState::fresh(width_for(error_tolerance) as u64, support),
            Err(fault) => lossy_fault(support, error_tolerance) == Some(fault),
        },
{
    if !error_tolerance.proper() {
        return Err(ConfigError::ErrorTolerance);
    }
    if !support.proper() {
        return Err(ConfigError::Support);
    }
    proof {
        lemma_width_is_ceiling(error_tolerance);
    }
    let bucket_width: u64 = (SCALE + error_tolerance.ppb - 1) / error_tolerance.ppb;
    Ok(LossyCounter { support, d: Table::new(), n: 0, bucket_width, stream: Ghost(Seq::empty()) })
}

impl LossyCounter {
    /// The fields agree with one another.
    pub closed spec fn sound(&self) -> bool {
        self.d.wf() && self.n == self.stream@.len()
    }

    /// The number of observations in a bucket.
    pub fn bucket_width(&self) -> (width: u64)
        ensures
            width == self@.width,
    {
        self.bucket_width
    }

    /// The number of tracked keys.
    pub fn len(&self) -> (n: usize)
        requires
            self.wf(),
        ensures
            n == self@.entries.len(),
    {
        self.d.len()
    }

    /// What is kept for `key`, if it is tracked: a count that is at most
    /// the key's true count and falls short of it by at most twice `delta`.
    /// A key that is not tracked occurred at most twice as often as there
    /// are whole buckets.
    pub fn get(&self, key: &str) -> (pair: Option<FDeltaPair>)
        requires
            self.wf(),
        ensures
            match pair {
                Some(p) => has_key(self@.entries, key@) && p == self@.entries[slot_of(
                    self@.entries,
                    key@,
                )].1 && 1 <= p.f <= occurrences(self.stream(), key@) <= p.f + 2 * p.delta,
                None => !has_key(self@.entries, key@) && occurrences(self.stream(), key@) <= 2
                    * self@.buckets(),
            },
    {
        match self.d.find(key) {
            Some(i) => {
                proof {
                    lemma_slot_of(self@.entries, i as int);
                }
                Some(self.d.value_at(i))
            },
            None => None,
        }
    }

    /// Drops the keys that do not survive at `bucket`.
    fn prune(&mut self, bucket: u128)
        requires
            old(self).d.wf(),
        ensures
            final(self).d.wf(),
            final(self).d@ == select(old(self).d@, survives(bucket as nat)),
            final(self).support == old(self).support,
            final(self).n == old(self).n,
            final(self).bucket_width == old(self).bucket_width,
            final(self).stream == old(self).stream,
    {
        let ghost keep = survives(bucket as nat);
        let mut kept: Table<FDeltaPair> = Table::new();
        let len = self.d.len();
        let mut i: usize = 0;
        proof {
            self.d.lemma_distinct();
            assert(kept@ =~= select(self.d@.take(0), keep));
        }
        while i < len
            invariant
                self.d.wf(),
                distinct_keys(self.d@),
                kept.wf(),
                len == self.d@.len(),
                i <= len,
                keep == survives(bucket as nat),
                kept@ == select(self.d@.take(i as int), keep),
            decreases len - i,
        {
            let pair = self.d.value_at(i);
            proof {
                lemma_select_step(self.d@, keep, i as int);
            }
            if pair.f as u128 + pair.delta as u128 > bucket {
                proof {
                    let before = self.d@.take(i as int);
                    lemma_select_sources(before, keep);
                    assert forall|j: int| 0 <= j < kept@.len() implies (#[trigger] kept@[j]).0
                        != self.d@[i as int].0 by {
                        assert(comes_from(before, keep, kept@[j]));
                        let s = choose|s: int|
                            0 <= s < before.len() && (#[trigger] before[s]).0 == kept@[j].0
                                && keep(before[s].1) == Some(kept@[j].1);
                        assert(before[s] == self.d@[s]);
                    }
                }
                kept.push(self.d.key_at(i).clone(), pair);
            }
            i += 1;
        }
        assert(self.d@.take(len as int) =~= self.d@);
        self.d = kept;
    }
}

impl Counter for LossyCounter {
    open spec fn wf(&self) -> bool {
        self.sound() && self@.inv()
    }

    open spec fn stream(&self) -> Seq<Seq<char>> {
        self@.stream
    }

    open spec fn answer(&self, threshold: Fraction) -> Seq<(Seq<char>, Fraction)> {
        self@.report(threshold)
    }

    fn observations(&self) -> (n: u64) {
        self.n
    }

    fn observe(&mut self, key: &str)
        ensures
            final(self)@ == old(self)@.observe(key@),
    {
        proof {
            lemma_observe_keeps_bounds(self@, key@);
            lemma_occurrences_bounded(self@.stream, key@);
            lemma_buckets(self.n + 1, self.bucket_width as int);
        }
        self.n = self.n + 1;
        let passed: u64 = self.n / self.bucket_width;
        let bucket: u128 = passed as u128 + 1;
        match self.d.find(key) {
            Some(i) => {
                let pair = self.d.value_at(i);
                proof {
                    lemma_slot_of(old(self)@.entries, i as int);
                }
                self.d.set(i, FDeltaPair { f: pair.f + 1, delta: pair.delta });
            },
            None => {
                self.d.push(key.to_owned(), FDeltaPair { f: 1, delta: passed });
            },
        }
        assert(self.d@ == old(self)@.counted(key@));
        if self.n % self.bucket_width == 0 {
            self.prune(bucket);
        }
        self.stream = Ghost(self.stream@.push(key@));
    }

    fn items_above_threshold(&self, threshold: Fraction) -> (items: Vec<Entry>) {
        let mut items: Vec<Entry> = Vec::new();
        if self.n == 0 {
            assert(report_of(items@) =~= Seq::empty());
            return items;
        }
        let ghost f = lossy_share(self.n as nat, threshold, self.support);
        let len = self.d.len();
        let mut i: usize = 0;
        assert(report_of(items@) =~= select(self.d@.take(0), f));
        while i < len
            invariant
                self.wf(),
                self.n > 0,
                len == self.d@.len(),
                i <= len,
                f == lossy_share(self.n as nat, threshold, self.support),
                report_of(items@) == select(self.d@.take(i as int), f),
            decreases len - i,
        {
            let pair = self.d.value_at(i);
            proof {
                lemma_select_step(self.d@, f, i as int);
                lemma_occurrences_bounded(self@.stream, self.d@[i as int].0);
            }
            if meets(pair, self.n, threshold) {
                let counted = Fraction::share(pair.f, self.n);
                let frequency = Fraction { ppb: counted.ppb + self.support.ppb };
                let entry = Entry { key: self.d.key_at(i).clone(), frequency };
                proof {
                    lemma_report_push(items@, entry);
                }
                items.push(entry);
            }
            i += 1;
        }
        assert(self.d@.take(len as int) =~= self.d@);
        items
    }
}

/// Whether a tracked key is reported at `threshold` after `total`
/// observations.
fn meets(pair: FDeltaPair, total: u64, threshold: Fraction) -> (b: bool)
    ensures
        b == lossy_meets(pair, total as nat, threshold),
{
    proof {
        assert(pair.delta as int * SCALE as int <= u64::MAX as int * SCALE as int)
            by (nonlinear_arith)
            requires
                pair.delta as int <= u64::MAX as int,
        ;
        assert(pair.f as int * SCALE as int <= u64::MAX as int * SCALE as int) by (nonlinear_arith)
            requires
                pair.f as int <= u64::MAX as int,
        ;
    }
    let lag: u128 = pair.delta as u128 * SCALE as u128;
    if lag >= threshold.ppb as u128 {
        proof {
            assert((threshold.ppb as int - pair.delta as int * SCALE as int) * total as int <= 0)
                by (nonlinear_arith)
                requires
                    threshold.ppb as int - pair.delta as int * SCALE as int <= 0,
                    total as int >= 0,
            ;
            assert(pair.f as int * SCALE as int >= 0) by (nonlinear_arith)
                requires
                    pair.f as int >= 0,
            ;
        }
        true
    } else {
        let gap: u128 = threshold.ppb as u128 - lag;
        proof {
            assert(gap as int * total as int <= u64::MAX as int * u64::MAX as int)
                by (nonlinear_arith)
                requires
                    0 <= gap as int <= u64::MAX as int,
                    0 <= total as int <= u64::MAX as int,
            ;
        }
        pair.f as u128 * SCALE as u128 >= gap * total as u128
    }
}

} // verus!
