//! Sticky Sampling: admits new keys at a rate that halves each time the
//! stream outgrows a window, and thins the counts it holds when it does.

use crate::counter::{lemma_report_push, report_of, ConfigError, Counter, Entry};
use crate::fraction::{share_ppb, Fraction, SCALE};
use crate::random::{coin_run, next_word, seeded_rng};
use crate::stream::{lemma_occurrences_bounded, lemma_occurrences_push, occurrences};
use crate::table::{
    comes_from, distinct_keys, has_key, lemma_select_distinct, lemma_select_keeps,
    lemma_select_sources, lemma_select_step, lemma_slot_of, select, slot_of, Table,
};
use vstd::arithmetic::div_mod::{lemma_fundamental_div_mod, lemma_mod_bound};
use vstd::prelude::*;

verus! {

/// How a count is thinned when the sampling rate doubles, given the number
/// of coin flips that said go on before the first that said stop.
#[derive(Clone, Copy, Debug, PartialEq, Eq, Structural)]
pub enum Thinning {
    /// The count loses one for each such flip; a key whose count would
    /// reach zero leaves.
    Cumulative,
    /// The count loses one if there was any such flip; a key whose count
    /// would reach zero leaves.
    SingleStep,
}

/// What is left of `count` after a run of `run` flips, if anything.
pub open spec fn thinned(count: u64, run: u64, mode: Thinning) -> Option<u64> {
    let loss = match mode {
        Thinning::Cumulative => run,
        Thinning::SingleStep => if run == 0 {
            0u64
        } else {
            1u64
        },
    };
    if loss == 0 {
        Some(count)
    } else if loss >= count {
        None
    } else {
        Some((count - loss) as u64)
    }
}

/// What is left of `count` after a run of `run` flips, if anything.
pub fn thin(count: u64, run: u64, mode: Thinning) -> (left: Option<u64>)
    ensures
        left == thinned(count, run, mode),
{
    let loss: u64 = match mode {
        Thinning::Cumulative => run,
        Thinning::SingleStep => if run == 0 {
            0
        } else {
            1
        },
    };
    if loss == 0 {
        Some(count)
    } else if loss >= count {
        None
    } else {
        Some(count - loss)
    }
}

/// The run that belongs to the key in slot `i`: `runs[i]`, and zero where
/// `runs` is too short.
pub open spec fn run_at(runs: Seq<u64>, i: int) -> u64 {
    if 0 <= i < runs.len() {
        runs[i]
    } else {
        0
    }
}

/// Each count paired with its run.
pub open spec fn with_runs(counts: Seq<(Seq<char>, u64)>, runs: Seq<u64>) -> Seq<
    (Seq<char>, (u64, u64)),
> {
    Seq::new(counts.len(), |i: int| (counts[i].0, (counts[i].1, run_at(runs, i))))
}

/// Thinning in `mode`, as a function of a count and its run.
pub open spec fn thinning(mode: Thinning) -> spec_fn((u64, u64)) -> Option<u64> {
    |pair: (u64, u64)| thinned(pair.0, pair.1, mode)
}

/// Whether the word `draw`, read as a fraction of two to the 64th, falls
/// below one over `rate`.
pub open spec fn admitted(draw: u64, rate: u128) -> bool {
    (draw as int) * (rate as int) < 0x1_0000_0000_0000_0000
}

/// Whether the word `draw` admits a new key at `rate`.
pub fn admits(draw: u64, rate: u128) -> (yes: bool)
    ensures
        yes == admitted(draw, rate),
{
    if rate > u64::MAX as u128 {
        proof {
            let d = draw as int;
            let r = rate as int;
            if d >= 1 {
                assert(d * r >= 0x1_0000_0000_0000_0000) by (nonlinear_arith)
                    requires
                        d >= 1,
                        r >= 0x1_0000_0000_0000_0000,
                ;
            } else {
                assert(d * r == 0) by (nonlinear_arith)
                    requires
                        d == 0,
                ;
            }
        }
        draw == 0
    } else {
        proof {
            assert(draw as int * rate as int <= u64::MAX as int * u64::MAX as int)
                by (nonlinear_arith)
                requires
                    0 <= draw as int <= u64::MAX as int,
                    0 <= rate as int <= u64::MAX as int,
            ;
        }
        draw as u128 * rate < 0x1_0000_0000_0000_0000
    }
}

/// The window for an error tolerance and the logarithm of one over support
/// times failure probability: two over the tolerance times that logarithm,
/// in billionths of an observation, rounded down.
pub open spec fn window_for(error_tolerance: Fraction, log_term: Fraction) -> nat
    recommends
        error_tolerance.ppb > 0,
{
    2 * log_term.ppb as nat * SCALE as nat / error_tolerance.ppb as nat
}

/// The first reason, if any, for which Sticky Sampling cannot be set up.
pub open spec fn sticky_fault(
    support: Fraction,
    error_tolerance: Fraction,
    failure_prob: Fraction,
    log_term: Fraction,
) -> Option<ConfigError> {
    if !error_tolerance.is_proper() {
        Some(ConfigError::ErrorTolerance)
    } else if !support.is_proper() {
        Some(ConfigError::Support)
    } else if !failure_prob.is_proper() {
        Some(ConfigError::FailureProbability)
    } else if log_term.ppb == 0 {
        Some(ConfigError::Logarithm)
    } else {
        None
    }
}

/// Whether a key counted `count` times is reported at `threshold` after
/// `total` observations: `count >= (threshold - tolerance) * total`.
pub open spec fn sticky_meets(
    count: u64,
    total: nat,
    threshold: Fraction,
    error_tolerance: Fraction,
) -> bool {
    count as int * SCALE as int >= (threshold.ppb as int - error_tolerance.ppb as int)
        * total as int
}

/// What a query makes of a count: `count / total + support`, if the count
/// meets the threshold.
pub open spec fn sticky_share(
    total: nat,
    threshold: Fraction,
    error_tolerance: Fraction,
    support: Fraction,
) -> spec_fn(u64) -> Option<Fraction> {
    |count: u64|
        if sticky_meets(count, total, threshold, error_tolerance) {
            Some(Fraction { ppb: (share_ppb(count as nat, total) + support.ppb) as u64 })
        } else {
            None
        }
}

/// No window that has doubled reaches this many billionths.
pub open spec fn window_limit() -> nat {
    2 * u64::MAX as nat * SCALE as nat
}

/// The sticky sampler as a mathematical value.
pub struct StickyState {
    /// The keys observed so far, in order.
    pub stream: Seq<Seq<char>>,
    /// The offset added to every reported frequency.
    pub support: Fraction,
    /// What is taken off the threshold of a query.
    pub error_tolerance: Fraction,
    /// How counts are thinned when the rate doubles.
    pub thinning: Thinning,
    /// A new key is admitted with a chance of one in `rate`.
    pub rate: u128,
    /// The length of stream, in billionths of an observation, beyond which
    /// the rate doubles next.
    pub window: u128,
    /// The sampled keys with their counts, in the order in which they
    /// entered.
    pub counts: Seq<(Seq<char>, u64)>,
}

impl StickyState {
    /// A sampled key has been counted at least once and never more often
    /// than it occurred; the rate is at least one and no larger than the
    /// window.
    pub open spec fn inv(self) -> bool {
        &&& self.support.is_proper()
        &&& self.error_tolerance.is_proper()
        &&& self.stream.len() <= u64::MAX
        &&& 1 <= self.rate <= self.window
        &&& self.rate > 1 ==> self.window < window_limit()
        &&& distinct_keys(self.counts)
        &&& forall|i: int|
            0 <= i < self.counts.len() ==> 1 <= (#[trigger] self.counts[i]).1 <= occurrences(
                self.stream,
                self.counts[i].0,
            )
    }

    /// The state before any observation.
    pub open spec fn fresh(
        support: Fraction,
        error_tolerance: Fraction,
        window: u128,
    ) -> StickyState {
        StickyState {
            stream: Seq::empty(),
            support,
            error_tolerance,
            thinning: Thinning::Cumulative,
            rate: 1,
            window,
            counts: Seq::empty(),
        }
    }

    /// Whether the next observation takes the stream beyond the window.
    pub open spec fn due(self) -> bool {
        (self.stream.len() + 1) * SCALE as nat > self.window
    }

    /// The counts as the next observation finds them: thinned by `runs` if
    /// the rate doubles, else as they are.
    pub open spec fn settled(self, runs: Seq<u64>) -> Seq<(Seq<char>, u64)> {
        if self.due() {
            select(with_runs(self.counts, runs), thinning(self.thinning))
        } else {
            self.counts
        }
    }

    /// The state after one more observation of `key`, where the coin flips
    /// gave `runs` and the admission draw gave `draw`. If the stream
    /// outgrows the window, rate and window double and the counts are
    /// thinned. Then a sampled key gains one, and a new key enters with a
    /// count of one if the draw admits it at the rate.
    pub open spec fn observe(self, key: Seq<char>, runs: Seq<u64>, draw: u64) -> StickyState {
        let rate = if self.due() {
            (2 * self.rate) as u128
        } else {
            self.rate
        };
        let window = if self.due() {
            (2 * self.window) as u128
        } else {
            self.window
        };
        let settled = self.settled(runs);
        StickyState {
            stream: self.stream.push(key),
            support: self.support,
            error_tolerance: self.error_tolerance,
            thinning: self.thinning,
            rate,
            window,
            counts: if has_key(settled, key) {
                let i = slot_of(settled, key);
                settled.update(i, (key, (settled[i].1 + 1) as u64))
            } else if admitted(draw, rate) {
                settled.push((key, 1u64))
            } else {
                settled
            },
        }
    }

    /// The state after the first `count` of the observations `keys`, the
    /// `i`-th with the outcomes `runs[i]` and `draws[i]`.
    pub open spec fn after(
        self,
        keys: Seq<Seq<char>>,
        runs: Seq<Seq<u64>>,
        draws: Seq<u64>,
        count: nat,
    ) -> StickyState
        decreases count,
    {
        if count == 0 {
            self
        } else {
            let i = count - 1;
            self.after(keys, runs, draws, i as nat).observe(keys[i], runs[i], draws[i])
        }
    }

    /// What a query at `threshold` reports: nothing before the first
    /// observation, then every sampled key that meets the threshold, with
    /// its counted share of the observations plus the support.
    pub open spec fn report(self, threshold: Fraction) -> Seq<(Seq<char>, Fraction)> {
        if self.stream.len() == 0 {
            Seq::empty()
        } else {
            select(
                self.counts,
                sticky_share(self.stream.len(), threshold, self.error_tolerance, self.support),
            )
        }
    }
}

/// Thinning leaves distinct keys, each with a count of at least one that is
/// no larger than the key's true count.
pub proof fn lemma_settled_in_bounds(state: StickyState, runs: Seq<u64>)
    requires
        state.inv(),
    ensures
        distinct_keys(state.settled(runs)),
        state.settled(runs).len() <= state.counts.len(),
        forall|j: int|
            0 <= j < state.settled(runs).len() ==> 1 <= (#[trigger] state.settled(runs)[j]).1
                <= occurrences(state.stream, state.settled(runs)[j].0),
{
    if state.due() {
        let paired = with_runs(state.counts, runs);
        let f = thinning(state.thinning);
        let settled = state.settled(runs);
        assert(distinct_keys(paired)) by {
            assert forall|i: int, j: int|
                0 <= i < paired.len() && 0 <= j < paired.len() && i != j implies (
                #[trigger] paired[i]).0 != (#[trigger] paired[j]).0 by {
                assert(paired[i].0 == state.counts[i].0 && paired[j].0 == state.counts[j].0);
            }
        }
        lemma_select_distinct(paired, f);
        lemma_select_sources(paired, f);
        assert forall|j: int| 0 <= j < settled.len() implies 1 <= (#[trigger] settled[j]).1
            <= occurrences(state.stream, settled[j].0) by {
            assert(comes_from(paired, f, settled[j]));
            let i = choose|i: int|
                0 <= i < paired.len() && (#[trigger] paired[i]).0 == settled[j].0 && f(
                    paired[i].1,
                ) == Some(settled[j].1);
            assert(paired[i].1.0 == state.counts[i].1);
        }
    }
}

/// An observation keeps the sampler's invariant, whatever the draws.
pub proof fn lemma_observe_keeps_inv(
    state: StickyState,
    key: Seq<char>,
    runs: Seq<u64>,
    draw: u64,
)
    requires
        state.inv(),
        state.stream.len() < u64::MAX,
    ensures
        state.observe(key, runs, draw).inv(),
{
    let next = state.observe(key, runs, draw);
    let settled = state.settled(runs);
    lemma_settled_in_bounds(state, runs);
    assert forall|k: Seq<char>|
        occurrences(next.stream, k) == occurrences(state.stream, k) + if key == k {
            1nat
        } else {
            0nat
        } by {
        lemma_occurrences_push(state.stream, key, k);
    }
    lemma_occurrences_bounded(state.stream, key);
    if state.due() {
        assert((state.stream.len() + 1) * SCALE as nat <= u64::MAX as nat * SCALE as nat)
            by (nonlinear_arith)
            requires
                state.stream.len() + 1 <= u64::MAX as nat,
        ;
    }
    if has_key(settled, key) {
        let i = slot_of(settled, key);
        assert forall|j: int| 0 <= j < next.counts.len() implies (#[trigger] next.counts[j]).0
            == settled[j].0 by {}
    } else if admitted(draw, next.rate) {
        assert(next.counts.drop_last() =~= settled);
    }
}

/// A sampled key is never counted more often than it occurred.
pub proof fn lemma_never_overcounts(state: StickyState, key: Seq<char>)
    requires
        state.inv(),
        has_key(state.counts, key),
    ensures
        1 <= state.counts[slot_of(state.counts, key)].1 <= occurrences(state.stream, key),
{
    let i = slot_of(state.counts, key);
    assert(state.counts[i].0 == key);
}

/// With each observation, rate and window either both stay or both double;
/// they double exactly when the stream outgrows the window.
pub proof fn lemma_rate_only_doubles(
    state: StickyState,
    key: Seq<char>,
    runs: Seq<u64>,
    draw: u64,
)
    requires
        state.inv(),
        state.stream.len() < u64::MAX,
    ensures
        ({
            let next = state.observe(key, runs, draw);
            if state.due() {
                next.rate == 2 * state.rate && next.window == 2 * state.window
            } else {
                next.rate == state.rate && next.window == state.window
            }
        }),
{
    if state.due() {
        assert((state.stream.len() + 1) * SCALE as nat <= u64::MAX as nat * SCALE as nat)
            by (nonlinear_arith)
            requires
                state.stream.len() + 1 <= u64::MAX as nat,
        ;
    }
}

/// The stream outgrows the window when its length exceeds the whole
/// observations in the window.
proof fn lemma_due(length: nat, window: nat)
    ensures
        length * SCALE as nat > window <==> length > window / SCALE as nat,
{
    let whole = window as int / SCALE as int;
    lemma_fundamental_div_mod(window as int, SCALE as int);
    lemma_mod_bound(window as int, SCALE as int);
    if length > whole {
        assert(length * SCALE as nat >= (whole + 1) * SCALE as nat) by (nonlinear_arith)
            requires
                length >= whole + 1,
        ;
        assert((whole + 1) * SCALE as nat == SCALE as nat * whole + SCALE as nat)
            by (nonlinear_arith);
    } else {
        assert(length * SCALE as nat <= whole * SCALE as nat) by (nonlinear_arith)
            requires
                length <= whole,
                whole >= 0,
        ;
        assert(whole * SCALE as nat == SCALE as nat * whole) by (nonlinear_arith);
    }
}

/// From a sampler that has observed nothing, rate and window stay as they
/// are for as many observations as the window holds whole ones; the next
/// observation doubles both, once, whatever the keys and the draws.
pub proof fn lemma_first_doubling(
    start: StickyState,
    keys: Seq<Seq<char>>,
    runs: Seq<Seq<u64>>,
    draws: Seq<u64>,
    count: nat,
)
    requires
        start.inv(),
        start.stream.len() == 0,
        (start.window / SCALE as u128) < u64::MAX,
        count <= start.window / SCALE as u128 + 1,
    ensures
        ({
            let end = start.after(keys, runs, draws, count);
            &&& end.inv()
            &&& end.stream.len() == count
            &&& count <= start.window / SCALE as u128 ==> end.rate == start.rate && end.window
                == start.window
            &&& count == start.window / SCALE as u128 + 1 ==> end.rate == 2 * start.rate
                && end.window == 2 * start.window
        }),
    decreases count,
{
    if count > 0 {
        let i = (count - 1) as nat;
        let before = start.after(keys, runs, draws, i);
        lemma_first_doubling(start, keys, runs, draws, i);
        lemma_observe_keeps_inv(before, keys[i as int], runs[i as int], draws[i as int]);
        lemma_rate_only_doubles(before, keys[i as int], runs[i as int], draws[i as int]);
        lemma_due(count, start.window as nat);
    }
}

/// Sticky Sampling over a stream of string keys.
pub struct StickySampler {
    error_tolerance: Fraction,
    support: Fraction,
    s: Table<u64>,
    r: u128,
    n: u64,
    t: u128,
    thinning: Thinning,
    rng: rand::StdRng,
    stream: Ghost<Seq<Seq<char>>>,
}

impl View for StickySampler {
    type V = StickyState;

    closed spec fn view(&self) -> StickyState {
        StickyState {
            stream: self.stream@,
            support: self.support,
            error_tolerance: self.error_tolerance,
            thinning: self.thinning,
            rate: self.r,
            window: self.t,
            counts: self.s@,
        }
    }
}

/// A sticky sampler for the given support, error tolerance and failure
/// probability, all strictly between zero and one, and for `log_term`, the
/// natural logarithm of one over support times failure probability, which
/// must not be zero. The window is two over the tolerance times `log_term`;
/// the rate is one; counts are thinned cumulatively; the random draws come
/// from a generator seeded with `seed`, so that samplers that are seeded
/// alike and observe the same keys make the same draws.
pub fn new_sampler(
    support: Fraction,
    error_tolerance: Fraction,
    failure_prob: Fraction,
    log_term: Fraction,
    seed: u64,
) -> (made: Result<StickySampler, ConfigError>)
    ensures
        match made {
            Ok(sampler) => sticky_fault(support, error_tolerance, failure_prob, log_term) is None
                && sampler.wf() && sampler@ == StickyState::fresh(
                support,
                error_tolerance,
                window_for(error_tolerance, log_term) as u128,
            ),
            Err(fault) => sticky_fault(support, error_tolerance, failure_prob, log_term) == Some(
                fault,
            ),
        },
{
    if !error_tolerance.proper() {
        return Err(ConfigError::ErrorTolerance);
    }
    if !support.proper() {
        return Err(ConfigError::Support);
    }
    if !failure_prob.proper() {
        return Err(ConfigError::FailureProbability);
    }
    if log_term.ppb == 0 {
        return Err(ConfigError::Logarithm);
    }
    proof {
        let l = log_term.ppb as nat;
        let e = error_tolerance.ppb as nat;
        assert(2 * l * SCALE as nat <= 2 * u64::MAX as nat * SCALE as nat) by (nonlinear_arith)
            requires
                l <= u64::MAX as nat,
        ;
        assert(2 * l * SCALE as nat >= e) by (nonlinear_arith)
            requires
                l >= 1,
                e < SCALE as nat,
        ;
        assert(2 * l * SCALE as nat / e >= 1) by (nonlinear_arith)
            requires
                e >= 1,
                2 * l * SCALE as nat >= e,
        ;
    }
    let t: u128 = 2 * (log_term.ppb as u128) * (SCALE as u128) / (error_tolerance.ppb as u128);
    Ok(
        StickySampler {
            error_tolerance,
            support,
            s: Table::new(),
            r: 1,
            n: 0,
            t,
            thinning: Thinning::Cumulative,
            rng: seeded_rng(seed),
            stream: Ghost(Seq::empty()),
        },
    )
}

impl StickySampler {
    /// The fields agree with one another.
    pub closed spec fn sound(&self) -> bool {
        self.s.wf() && self.n == self.stream@.len()
    }

    /// The same sampler with its counts thinned in `mode` from now on.
    pub fn with_thinning(self, mode: Thinning) -> (sampler: StickySampler)
        requires
            self.wf(),
        ensures
            sampler.wf(),
            sampler@.thinning == mode,
            sampler@.stream == self@.stream,
            sampler@.support == self@.support,
            sampler@.error_tolerance == self@.error_tolerance,
            sampler@.rate == self@.rate,
            sampler@.window == self@.window,
            sampler@.counts == self@.counts,
    {
        let mut sampler = self;
        sampler.thinning = mode;
        sampler
    }

    /// The present rate: a new key is admitted with a chance of one in it.
    pub fn rate(&self) -> (rate: u128)
        ensures
            rate == self@.rate,
    {
        self.r
    }

    /// The present window, in billionths of an observation.
    pub fn window(&self) -> (window: u128)
        ensures
            window == self@.window,
    {
        self.t
    }

    /// The number of sampled keys.
    pub fn len(&self) -> (n: usize)
        requires
            self.wf(),
        ensures
            n == self@.counts.len(),
    {
        self.s.len()
    }

    /// The count kept for `key`, if it is sampled: at least one and at most
    /// the key's true count.
    pub fn get(&self, key: &str) -> (count: Option<u64>)
        requires
            self.wf(),
        ensures
            match count {
                Some(c) => has_key(self@.counts, key@) && c == self@.counts[slot_of(
                    self@.counts,
                    key@,
                )].1 && 1 <= c <= occurrences(self.stream(), key@),
                None => !has_key(self@.counts, key@),
            },
    {
        match self.s.find(key) {
            Some(i) => {
                proof {
                    lemma_slot_of(self@.counts, i as int);
                }
                Some(self.s.value_at(i))
            },
            None => None,
        }
    }

    /// Whether the next observation doubles the rate.
    pub fn is_due(&self) -> (due: bool)
        requires
            self.wf(),
        ensures
            due == self@.due(),
    {
        proof {
            assert((self.n as nat + 1) * SCALE as nat <= (u64::MAX as nat + 1) * SCALE as nat)
                by (nonlinear_arith)
                requires
                    self.n as nat <= u64::MAX as nat,
            ;
        }
        (self.n as u128 + 1) * (SCALE as u128) > self.t
    }

    /// Whether the next observation, with the coin flips giving `runs`,
    /// finds `key` sampled.
    fn stays(&self, key: &str, runs: &Vec<u64>) -> (yes: bool)
        requires
            self.wf(),
        ensures
            yes == has_key(self@.settled(runs@), key@),
    {
        let due = self.is_due();
        let ghost paired = with_runs(self@.counts, runs@);
        let ghost f = thinning(self@.thinning);
        proof {
            lemma_select_sources(paired, f);
        }
        match self.s.find(key) {
            Some(i) => {
                let run: u64 = if i < runs.len() {
                    runs[i]
                } else {
                    0
                };
                let left = thin(self.s.value_at(i), run, self.thinning);
                proof {
                    assert(self@.counts[i as int].0 == key@);
                    assert(paired[i as int] == (key@, (self@.counts[i as int].1, run)));
                    if due && left is Some {
                        lemma_select_keeps(paired, f, i as int);
                    }
                    if due && left is None {
                        let settled = select(paired, f);
                        assert forall|j: int| 0 <= j < settled.len() implies (#[trigger] settled[j]).0
                            != key@ by {
                            assert(comes_from(paired, f, settled[j]));
                            let s = choose|s: int|
                                0 <= s < paired.len() && (#[trigger] paired[s]).0 == settled[j].0
                                    && f(paired[s].1) == Some(settled[j].1);
                            assert(paired[s].0 == self@.counts[s].0);
                        }
                    }
                }
                !due || left.is_some()
            },
            None => {
                proof {
                    if due {
                        let settled = select(paired, f);
                        assert forall|j: int| 0 <= j < settled.len() implies (#[trigger] settled[j]).0
                            != key@ by {
                            assert(comes_from(paired, f, settled[j]));
                            let s = choose|s: int|
                                0 <= s < paired.len() && (#[trigger] paired[s]).0 == settled[j].0
                                    && f(paired[s].1) == Some(settled[j].1);
                            assert(paired[s].0 == self@.counts[s].0);
                        }
                    }
                }
                false
            },
        }
    }

    /// Flips, for each sampled key in turn, a fair coin until it says stop
    /// or the key's count is used up, and returns the runs.
    fn draw_runs(&mut self) -> (runs: Vec<u64>)
        requires
            old(self).wf(),
        ensures
            final(self).wf(),
            final(self)@ == old(self)@,
            runs@.len() == old(self)@.counts.len(),
    {
        let mut runs: Vec<u64> = Vec::new();
        let len = self.s.len();
        let mut i: usize = 0;
        while i < len
            invariant
                self.wf(),
                self@ == old(self)@,
                len == self.s@.len(),
                i <= len,
                runs@.len() == i,
            decreases len - i,
        {
            let count = self.s.value_at(i);
            let run = coin_run(&mut self.rng, count);
            runs.push(run);
            i += 1;
        }
        runs
    }

    /// Thins every count by its run and drops the keys of which nothing is
    /// left.
    fn prune(&mut self, runs: &Vec<u64>)
        requires
            old(self).s.wf(),
        ensures
            final(self).s.wf(),
            final(self).s@ == select(with_runs(old(self).s@, runs@), thinning(old(self).thinning)),
            final(self).error_tolerance == old(self).error_tolerance,
            final(self).support == old(self).support,
            final(self).r == old(self).r,
            final(self).n == old(self).n,
            final(self).t == old(self).t,
            final(self).thinning == old(self).thinning,
            final(self).stream == old(self).stream,
    {
        let ghost f = thinning(self.thinning);
        let ghost paired = with_runs(self.s@, runs@);
        let mut kept: Table<u64> = Table::new();
        let len = self.s.len();
        let mut i: usize = 0;
        proof {
            self.s.lemma_distinct();
            assert(kept@ =~= select(paired.take(0), f));
        }
        while i < len
            invariant
                self.s.wf(),
                distinct_keys(self.s@),
                kept.wf(),
                len == self.s@.len(),
                i <= len,
                f == thinning(self.thinning),
                paired == with_runs(self.s@, runs@),
                kept@ == select(paired.take(i as int), f),
            decreases len - i,
        {
            let count = self.s.value_at(i);
            let run: u64 = if i < runs.len() {
                runs[i]
            } else {
                0
            };
            proof {
                lemma_select_step(paired, f, i as int);
            }
            match thin(count, run, self.thinning) {
                Some(left) => {
                    proof {
                        let before = paired.take(i as int);
                        lemma_select_sources(before, f);
                        assert forall|j: int| 0 <= j < kept@.len() implies (#[trigger] kept@[j]).0
                            != self.s@[i as int].0 by {
                            assert(comes_from(before, f, kept@[j]));
                            let s = choose|s: int|
                                0 <= s < before.len() && (#[trigger] before[s]).0 == kept@[j].0
                                    && f(before[s].1) == Some(kept@[j].1);
                            assert(before[s] == paired[s]);
                        }
                    }
                    kept.push(self.s.key_at(i).clone(), left);
                },
                None => {},
            }
            i += 1;
        }
        assert(paired.take(len as int) =~= paired);
        self.s = kept;
    }

    /// Records one occurrence of `key`, with the outcomes of the random
    /// draws given: `runs` holds, for each sampled key in turn, the number of
    /// coin flips that said go on, and `draw` is the word that decides
    /// whether a new key is admitted.
    pub fn observe_with(&mut self, key: &str, runs: &Vec<u64>, draw: u64)
        requires
            old(self).wf(),
            old(self).stream().len() < u64::MAX,
        ensures
            final(self).wf(),
            final(self)@ == old(self)@.observe(key@, runs@, draw),
    {
        proof {
            lemma_observe_keeps_inv(self@, key@, runs@, draw);
            lemma_settled_in_bounds(self@, runs@);
            lemma_occurrences_bounded(self@.stream, key@);
        }
        let due = self.is_due();
        self.n = self.n + 1;
        if due {
            proof {
                assert(self.n as nat * SCALE as nat <= u64::MAX as nat * SCALE as nat)
                    by (nonlinear_arith)
                    requires
                        self.n as nat <= u64::MAX as nat,
                ;
            }
            self.t = self.t * 2;
            self.r = self.r * 2;
            self.prune(runs);
        }
        assert(self.s@ == old(self)@.settled(runs@));
        match self.s.find(key) {
            Some(i) => {
                let count = self.s.value_at(i);
                proof {
                    lemma_slot_of(self.s@, i as int);
                }
                self.s.set(i, count + 1);
            },
            None => {
                if admits(draw, self.r) {
                    self.s.push(key.to_owned(), 1);
                }
            },
        }
        self.stream = Ghost(self.stream@.push(key@));
    }
}

impl Counter for StickySampler {
    open spec fn wf(&self) -> bool {
        self.sound() && self@.inv()
    }

    open spec fn stream(&self) -> Seq<Seq<char>> {
        self@.stream
    }

    open spec fn answer(&self, threshold: Fraction) -> Seq<(Seq<char>, Fraction)> {
        self@.report(threshold)
    }

    fn observations(&self) -> (n: u64) {
        self.n
    }

    fn observe(&mut self, key: &str)
        ensures
            exists|runs: Seq<u64>, draw: u64|
                final(self)@ == #[trigger] old(self)@.observe(key@, runs, draw),
    {
        let runs = if self.is_due() {
            self.draw_runs()
        } else {
            Vec::new()
        };
        // A key that stays sampled is counted without a draw.
        let draw = if self.stays(key, &runs) {
            0
        } else {
            next_word(&mut self.rng)
        };
        self.observe_with(key, &runs, draw);
    }

    fn items_above_threshold(&self, threshold: Fraction) -> (items: Vec<Entry>) {
        let mut items: Vec<Entry> = Vec::new();
        if self.n == 0 {
            assert(report_of(items@) =~= Seq::empty());
            return items;
        }
        let ghost f = sticky_share(self.n as nat, threshold, self.error_tolerance, self.support);
        let len = self.s.len();
        let mut i: usize = 0;
        assert(report_of(items@) =~= select(self.s@.take(0), f));
        while i < len
            invariant
                self.wf(),
                self.n > 0,
                len == self.s@.len(),
                i <= len,
                f == sticky_share(self.n as nat, threshold, self.error_tolerance, self.support),
                report_of(items@) == select(self.s@.take(i as int), f),
            decreases len - i,
        {
            let count = self.s.value_at(i);
            proof {
                lemma_select_step(self.s@, f, i as int);
                lemma_occurrences_bounded(self@.stream, self.s@[i as int].0);
            }
            if meets(count, self.n, threshold, self.error_tolerance) {
                let counted = Fraction::share(count, self.n);
                let frequency = Fraction { ppb: counted.ppb + self.support.ppb };
                let entry = Entry { key: self.s.key_at(i).clone(), frequency };
                proof {
                    lemma_report_push(items@, entry);
                }
                items.push(entry);
            }
            i += 1;
        }
        assert(self.s@.take(len as int) =~= self.s@);
        items
    }
}

/// Whether a key counted `count` times is reported at `threshold` after
/// `total` observations.
fn meets(count: u64, total: u64, threshold: Fraction, error_tolerance: Fraction) -> (b: bool)
    ensures
        b == sticky_meets(count, total as nat, threshold, error_tolerance),
{
    if error_tolerance.ppb >= threshold.ppb {
        proof {
            assert((threshold.ppb as int - error_tolerance.ppb as int) * total as int <= 0)
                by (nonlinear_arith)
                requires
                    threshold.ppb as int - error_tolerance.ppb as int <= 0,
                    total as int >= 0,
            ;
            assert(count as int * SCALE as int >= 0) by (nonlinear_arith)
                requires
                    count as int >= 0,
            ;
        }
        true
    } else {
        let gap: u64 = threshold.ppb - error_tolerance.ppb;
        proof {
            assert(gap as int * total as int <= u64::MAX as int * u64::MAX as int)
                by (nonlinear_arith)
                requires
                    0 <= gap as int <= u64::MAX as int,
                    0 <= total as int <= u64::MAX as int,
            ;
            assert(count as int * SCALE as int <= u64::MAX as int * SCALE as int)
                by (nonlinear_arith)
                requires
                    count as int <= u64::MAX as int,
            ;
        }
        count as u128 * SCALE as u128 >= gap as u128 * total as u128
    }
}

} // verus!
