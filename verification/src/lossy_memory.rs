//! Why Lossy Counting stays small: the keys that entered tracking within
//! the last few buckets share the observations of those buckets, and a key
//! that has stayed longer has been counted more often.

use crate::lossy::{lemma_buckets, survives, FDeltaPair, LossyState};
use crate::stream::lemma_occurrences_bounded;
use crate::table::{
    comes_from, has_key, lemma_select_sources, select, slot_of,
};
use vstd::arithmetic::power2::{lemma_pow2_pos, lemma_pow2_unfold, pow2};
use vstd::prelude::*;

verus! {

/// What a tracked key adds to the counts of the keys whose `delta` is at
/// least `from`.
pub open spec fn weight(pair: FDeltaPair, from: nat) -> nat {
    if pair.delta >= from {
        pair.f as nat
    } else {
        0
    }
}

/// The sum of the counts of the tracked keys whose `delta` is at least
/// `from`.
pub open spec fn mass_from(entries: Seq<(Seq<char>, FDeltaPair)>, from: nat) -> nat
    decreases entries.len(),
{
    if entries.len() == 0 {
        0
    } else {
        mass_from(entries.drop_last(), from) + weight(entries.last().1, from)
    }
}

/// The number of tracked keys whose `delta` is at least `from`.
pub open spec fn held_from(entries: Seq<(Seq<char>, FDeltaPair)>, from: nat) -> nat
    decreases entries.len(),
{
    if entries.len() == 0 {
        0
    } else {
        held_from(entries.drop_last(), from) + if entries.last().1.delta >= from {
            1nat
        } else {
            0nat
        }
    }
}

/// The least `delta` of the keys that entered tracking within the last
/// `2^k - 1` whole buckets of `buckets`.
pub open spec fn reach(buckets: nat, k: nat) -> nat {
    if pow2(k) - 1 >= buckets {
        0
    } else {
        (buckets - (pow2(k) - 1)) as nat
    }
}

/// One more entry adds its weight.
proof fn lemma_mass_push(
    entries: Seq<(Seq<char>, FDeltaPair)>,
    entry: (Seq<char>, FDeltaPair),
    from: nat,
)
    ensures
        mass_from(entries.push(entry), from) == mass_from(entries, from) + weight(entry.1, from),
{
    assert(entries.push(entry).drop_last() =~= entries);
}

/// Replacing an entry exchanges its weight.
proof fn lemma_mass_update(
    entries: Seq<(Seq<char>, FDeltaPair)>,
    i: int,
    entry: (Seq<char>, FDeltaPair),
    from: nat,
)
    requires
        0 <= i < entries.len(),
    ensures
        mass_from(entries.update(i, entry), from) + weight(entries[i].1, from) == mass_from(
            entries,
            from,
        ) + weight(entry.1, from),
    decreases entries.len(),
{
    let updated = entries.update(i, entry);
    if i == entries.len() - 1 {
        assert(updated.drop_last() =~= entries.drop_last());
    } else {
        lemma_mass_update(entries.drop_last(), i, entry, from);
        assert(updated.drop_last() =~= entries.drop_last().update(i, entry));
    }
}

/// The sum is at least the count of each key that it covers.
proof fn lemma_mass_covers(entries: Seq<(Seq<char>, FDeltaPair)>, i: int, from: nat)
    requires
        0 <= i < entries.len(),
    ensures
        mass_from(entries, from) >= weight(entries[i].1, from),
    decreases entries.len(),
{
    if i < entries.len() - 1 {
        lemma_mass_covers(entries.drop_last(), i, from);
    }
}

/// Pruning does not raise the sum.
proof fn lemma_mass_pruned(entries: Seq<(Seq<char>, FDeltaPair)>, bucket: nat, from: nat)
    ensures
        mass_from(select(entries, survives(bucket)), from) <= mass_from(entries, from),
    decreases entries.len(),
{
    if entries.len() > 0 {
        let rest = select(entries.drop_last(), survives(bucket));
        lemma_mass_pruned(entries.drop_last(), bucket, from);
        if survives(bucket)(entries.last().1) is Some {
            lemma_mass_push(rest, entries.last(), from);
        }
    }
}

/// Where every key is counted at least once, there are no more keys than
/// counts.
proof fn lemma_held_at_most_mass(entries: Seq<(Seq<char>, FDeltaPair)>, from: nat)
    requires
        forall|i: int| 0 <= i < entries.len() ==> (#[trigger] entries[i]).1.f >= 1,
    ensures
        held_from(entries, from) <= mass_from(entries, from),
    decreases entries.len(),
{
    if entries.len() > 0 {
        let rest = entries.drop_last();
        assert forall|i: int| 0 <= i < rest.len() implies (#[trigger] rest[i]).1.f >= 1 by {
            assert(rest[i] == entries[i]);
        }
        lemma_held_at_most_mass(rest, from);
        assert(entries[entries.len() - 1] == entries.last());
    }
}

/// Every key has a `delta` of at least zero.
proof fn lemma_held_from_zero(entries: Seq<(Seq<char>, FDeltaPair)>)
    ensures
        held_from(entries, 0) == entries.len(),
    decreases entries.len(),
{
    if entries.len() > 0 {
        lemma_held_from_zero(entries.drop_last());
    }
}

/// Where each key with a `delta` from `low` up to `high` is counted at
/// least `least` times, the number of those keys times `least` is at most
/// the sum of the counts from `low`.
proof fn lemma_held_gap(entries: Seq<(Seq<char>, FDeltaPair)>, low: nat, high: nat, least: nat)
    requires
        low <= high,
        forall|i: int|
            0 <= i < entries.len() && low <= (#[trigger] entries[i]).1.delta < high
                ==> entries[i].1.f >= least,
    ensures
        held_from(entries, high) <= held_from(entries, low),
        (held_from(entries, low) - held_from(entries, high)) * least <= mass_from(entries, low),
    decreases entries.len(),
{
    if entries.len() > 0 {
        let rest = entries.drop_last();
        let last = entries.last().1;
        assert forall|i: int| 0 <= i < rest.len() && low <= (#[trigger] rest[i]).1.delta
            < high implies rest[i].1.f >= least by {
            assert(rest[i] == entries[i]);
        }
        lemma_held_gap(rest, low, high, least);
        assert(entries[entries.len() - 1] == entries.last());
        let gap = held_from(rest, low) - held_from(rest, high);
        if low <= last.delta < high {
            assert((gap + 1) * least == gap * least + least) by (nonlinear_arith);
        }
    } else {
        assert(0 * least == 0) by (nonlinear_arith);
    }
}

/// An observation keeps the counter compact.
pub proof fn lemma_observe_keeps_compact(state: LossyState, key: Seq<char>)
    requires
        state.inv(),
        state.stream.len() < u64::MAX,
    ensures
        state.observe(key).compact(),
{
    let next = state.observe(key);
    let counted = state.counted(key);
    let total = (state.stream.len() + 1) as int;
    let width = state.width as int;
    let passed = total / width;
    let bucket = (passed + 1) as nat;
    let keep = survives(bucket);
    lemma_buckets(total, width);
    lemma_occurrences_bounded(state.stream, key);
    let fresh = !has_key(state.entries, key);
    let at = if fresh {
        state.entries.len() as int
    } else {
        slot_of(state.entries, key)
    };
    let boundary = total % width == 0;
    assert(next.buckets() == passed);
    assert forall|from: nat|
        mass_from(next.entries, from) == 0 || (#[trigger] mass_from(next.entries, from)) + from
            * next.width <= next.stream.len() by {
        let before = mass_from(state.entries, from);
        assert(before == 0 || before + from * state.width <= state.stream.len());
        if fresh {
            let entry = (key, FDeltaPair { f: 1, delta: passed as u64 });
            if boundary {
                assert(counted.drop_last() =~= state.entries);
                assert(next.entries == select(state.entries, keep));
                lemma_mass_pruned(state.entries, bucket, from);
            } else {
                lemma_mass_push(state.entries, entry, from);
                if passed >= from {
                    assert(from * width <= passed * width) by (nonlinear_arith)
                        requires
                            from <= passed,
                            width >= 1,
                    ;
                }
            }
        } else {
            let pair = state.entries[at].1;
            let entry = (key, FDeltaPair { f: (pair.f + 1) as u64, delta: pair.delta });
            lemma_mass_update(state.entries, at, entry, from);
            lemma_mass_covers(state.entries, at, from);
            if boundary {
                lemma_mass_pruned(counted, bucket, from);
            }
        }
    }
    assert forall|i: int|
        0 <= i < next.entries.len() && (#[trigger] next.entries[i]).1.delta
            < next.buckets() implies next.entries[i].1.f + next.entries[i].1.delta
        >= next.buckets() + 2 by {
        if boundary {
            lemma_select_sources(counted, keep);
            assert(comes_from(counted, keep, next.entries[i]));
        } else {
            if i != at {
                assert(next.entries[i] == state.entries[i]);
            }
        }
    }
}

/// The keys that entered tracking within the last `2^k - 1` whole buckets
/// number at most the bucket width times `2k + 1`.
proof fn lemma_held_within(state: LossyState, k: nat)
    requires
        state.inv(),
    ensures
        held_from(state.entries, reach(state.buckets(), k)) <= state.width * (2 * k + 1),
    decreases k,
{
    let entries = state.entries;
    let width = state.width as int;
    let total = state.stream.len() as int;
    let buckets = state.buckets() as int;
    let low = reach(state.buckets(), k);
    vstd::arithmetic::div_mod::lemma_fundamental_div_mod(total, width);
    vstd::arithmetic::div_mod::lemma_mod_bound(total, width);
    vstd::arithmetic::div_mod::lemma_div_pos_is_pos(total, width);
    assert(width * buckets == buckets * width) by (nonlinear_arith);
    assert(mass_from(entries, low) == 0 || mass_from(entries, low) + low * state.width
        <= state.stream.len());
    lemma_pow2_pos(k);
    if k == 0 {
        assert(pow2(0) == 1) by {
            vstd::arithmetic::power2::lemma2_to64();
        }
        lemma_held_at_most_mass(entries, low);
        assert(width * 1 == width) by (nonlinear_arith);
    } else {
        let j = (k - 1) as nat;
        let high = reach(state.buckets(), j);
        let half = pow2(j) as int;
        lemma_pow2_unfold(k);
        lemma_pow2_pos(j);
        lemma_held_within(state, j);
        let least = (half + 2) as nat;
        assert forall|i: int|
            0 <= i < entries.len() && low <= (#[trigger] entries[i]).1.delta
                < high implies entries[i].1.f >= least by {}
        lemma_held_gap(entries, low, high, least);
        let gap = held_from(entries, low) - held_from(entries, high);
        let mass = mass_from(entries, low) as int;
        assert(mass < 2 * half * width) by {
            if mass != 0 {
                if low == 0 {
                    assert(total < (buckets + 1) * width) by (nonlinear_arith)
                        requires
                            total == buckets * width + total % width,
                            total % width < width,
                    ;
                    assert((buckets + 1) * width <= 2 * half * width) by (nonlinear_arith)
                        requires
                            buckets + 1 <= 2 * half,
                            width >= 1,
                    ;
                } else {
                    assert(low * width == buckets * width - (2 * half - 1) * width)
                        by (nonlinear_arith)
                        requires
                            low == buckets - (2 * half - 1),
                    ;
                    assert((2 * half - 1) * width == 2 * half * width - width)
                        by (nonlinear_arith);
                }
            } else {
                assert(2 * half * width > 0) by (nonlinear_arith)
                    requires
                        half >= 1,
                        width >= 1,
                ;
            }
        }
        assert(gap < 2 * width) by (nonlinear_arith)
            requires
                gap * (half + 2) <= mass,
                mass < 2 * half * width,
                half >= 1,
                gap >= 0,
                width >= 1,
        ;
        assert(width * (2 * j + 1) + 2 * width == width * (2 * k + 1)) by (nonlinear_arith)
            requires
                k == j + 1,
        ;
    }
}

/// The number of tracked keys grows with the logarithm of the stream's
/// length at most: with fewer than `2^k` whole buckets, it is at most the
/// bucket width times `2k + 1`.
pub proof fn lemma_memory_bound(state: LossyState, k: nat)
    requires
        state.inv(),
        state.buckets() < pow2(k),
    ensures
        state.entries.len() <= state.width * (2 * k + 1),
{
    lemma_held_within(state, k);
    lemma_held_from_zero(state.entries);
}

} // verus!
