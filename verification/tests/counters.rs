use countish::{
    new_lossy_counter, new_naive_sampler, new_sampler, ConfigError, Counter, Entry, FDeltaPair,
    Fraction, NaiveSampler, StickySampler, Thinning, SCALE,
};

fn frac(x: f64) -> Fraction {
    Fraction::from_ppb((x * 1e9).round() as u64)
}

fn log_term(support: f64, failure_prob: f64) -> Fraction {
    frac((1.0 / (support * failure_prob)).ln())
}

fn keys_of(items: &[Entry]) -> Vec<String> {
    items.iter().map(|e| e.key.clone()).collect()
}

/// A small generator of repeatable "random" numbers for streams.
fn step(state: &mut u64) -> u64 {
    *state = state
        .wrapping_mul(6364136223846793005)
        .wrapping_add(1442695040888963407);
    *state >> 33
}

#[test]
fn naive() {
    let mut sampler = NaiveSampler::default();
    for _ in 1..10 {
        sampler.observe("shane");
    }
    sampler.observe("hansen");
    let items = sampler.items_above_threshold(frac(0.5));
    assert_eq!(items.len(), 1);
    assert_eq!(items[0].key, "shane");
}

#[test]
fn lossy() {
    let mut sampler = new_lossy_counter(frac(0.01), frac(0.005)).unwrap();
    for _ in 1..10 {
        sampler.observe("shane");
    }
    sampler.observe("hansen");
    let items = sampler.items_above_threshold(frac(0.5));
    assert_eq!(items.len(), 1);
    assert_eq!(items[0].key, "shane");
}

#[test]
fn sticky() {
    let mut sampler = new_sampler(frac(0.1), frac(0.1), frac(0.01), log_term(0.1, 0.01), 1).unwrap();
    for _ in 1..10 {
        sampler.observe("shane");
    }
    sampler.observe("hansen");
    let items = sampler.items_above_threshold(frac(0.5));
    assert_eq!(items.len(), 1, "asd");
    assert_eq!(items[0].key, "shane");
}

#[test]
fn naive_reports_exact_frequency() {
    let mut sampler = new_naive_sampler();
    for _ in 0..9 {
        sampler.observe("shane");
    }
    sampler.observe("hansen");
    assert_eq!(sampler.observations(), 10);
    let items = sampler.items_above_threshold(frac(0.5));
    assert_eq!(items.len(), 1);
    assert_eq!(items[0].frequency, Fraction::from_ppb(900_000_000));
    let all = sampler.items_above_threshold(frac(0.1));
    assert_eq!(keys_of(&all), vec!["shane".to_string(), "hansen".to_string()]);
    assert_eq!(all[1].frequency, Fraction::from_ppb(100_000_000));
}

#[test]
fn naive_cutoff_is_rounded_down() {
    let mut sampler = new_naive_sampler();
    for key in ["a", "a", "b"] {
        sampler.observe(key);
    }
    // The cutoff is floor(3 * 0.5) = 1, so a key seen once is reported too.
    let items = sampler.items_above_threshold(frac(0.5));
    assert_eq!(keys_of(&items), vec!["a".to_string(), "b".to_string()]);
    assert_eq!(items[0].frequency, Fraction::from_ppb(666_666_666));
    assert_eq!(items[1].frequency, Fraction::from_ppb(333_333_333));
    // At 0.7 the cutoff is floor(2.1) = 2.
    let items = sampler.items_above_threshold(frac(0.7));
    assert_eq!(keys_of(&items), vec!["a".to_string()]);
    // At a threshold of one only a key that is the whole stream passes.
    assert!(sampler.items_above_threshold(frac(1.0)).is_empty());
}

#[test]
fn naive_counts_sum_to_total() {
    let mut sampler = new_naive_sampler();
    let mut state = 7;
    let mut truth = vec![0u64; 13];
    for _ in 0..5000 {
        let k = (step(&mut state) % 13) as usize;
        truth[k] += 1;
        sampler.observe(&format!("key{}", k));
    }
    let mut sum = 0;
    for (k, expected) in truth.iter().enumerate() {
        let count = sampler.get(&format!("key{}", k));
        assert_eq!(count, *expected);
        sum += count;
    }
    assert_eq!(sum, sampler.observations());
    assert_eq!(sampler.get("never seen"), 0);
    assert_eq!(sampler.len(), 13);
    // Exactly the keys at or above the cutoff are reported.
    let cutoff = (5000.0 * 0.08) as u64;
    let items = sampler.items_above_threshold(frac(0.08));
    let expected = truth.iter().filter(|c| **c >= cutoff).count();
    assert_eq!(items.len(), expected);
    for item in &items {
        let count = sampler.get(&item.key);
        assert!(count >= cutoff);
        assert_eq!(item.frequency.ppb, (count as u128 * SCALE as u128 / 5000) as u64);
    }
}

#[test]
fn queries_before_any_observation_are_empty() {
    let naive = new_naive_sampler();
    assert!(naive.items_above_threshold(frac(0.5)).is_empty());
    let lossy = new_lossy_counter(frac(0.01), frac(0.005)).unwrap();
    assert!(lossy.items_above_threshold(frac(0.5)).is_empty());
    let sticky = new_sampler(frac(0.1), frac(0.1), frac(0.01), log_term(0.1, 0.01), 1).unwrap();
    assert!(sticky.items_above_threshold(frac(0.5)).is_empty());
    assert_eq!(sticky.observations(), 0);
}

#[test]
fn queries_are_repeatable() {
    let mut naive = new_naive_sampler();
    let mut lossy = new_lossy_counter(frac(0.01), frac(0.1)).unwrap();
    let mut sticky = new_sampler(frac(0.1), frac(0.1), frac(0.01), log_term(0.1, 0.01), 3).unwrap();
    let mut state = 11;
    for _ in 0..2000 {
        let key = format!("k{}", step(&mut state) % 40);
        naive.observe(&key);
        lossy.observe(&key);
        sticky.observe(&key);
    }
    let same = |a: Vec<Entry>, b: Vec<Entry>| {
        assert_eq!(a.len(), b.len());
        for (x, y) in a.iter().zip(b.iter()) {
            assert_eq!(x.key, y.key);
            assert_eq!(x.frequency, y.frequency);
        }
    };
    let t = frac(0.02);
    same(naive.items_above_threshold(t), naive.items_above_threshold(t));
    same(lossy.items_above_threshold(t), lossy.items_above_threshold(t));
    same(sticky.items_above_threshold(t), sticky.items_above_threshold(t));
}

#[test]
fn lossy_reports_count_share_plus_support() {
    let mut sampler = new_lossy_counter(frac(0.01), frac(0.005)).unwrap();
    assert_eq!(sampler.bucket_width(), 200);
    for _ in 0..9 {
        sampler.observe("shane");
    }
    sampler.observe("hansen");
    let items = sampler.items_above_threshold(frac(0.5));
    assert_eq!(items.len(), 1);
    assert_eq!(items[0].frequency, Fraction::from_ppb(910_000_000));
    assert_eq!(sampler.get("shane"), Some(FDeltaPair { f: 9, delta: 0 }));
    assert_eq!(sampler.get("hansen"), Some(FDeltaPair { f: 1, delta: 0 }));
    assert_eq!(sampler.get("nobody"), None);
}

#[test]
fn lossy_bucket_width_is_rounded_up() {
    assert_eq!(new_lossy_counter(frac(0.5), frac(0.3)).unwrap().bucket_width(), 4);
    assert_eq!(new_lossy_counter(frac(0.5), frac(0.5)).unwrap().bucket_width(), 2);
    assert_eq!(new_lossy_counter(frac(0.5), frac(0.0001)).unwrap().bucket_width(), 10_000);
    let finest = new_lossy_counter(frac(0.5), Fraction::from_ppb(1)).unwrap();
    assert_eq!(finest.bucket_width(), 1_000_000_000);
    let coarsest = new_lossy_counter(frac(0.5), Fraction::from_ppb(999_999_999)).unwrap();
    assert_eq!(coarsest.bucket_width(), 2);
}

#[test]
fn lossy_prunes_at_bucket_boundaries() {
    // Buckets of two observations.
    let mut sampler = new_lossy_counter(frac(0.01), frac(0.5)).unwrap();
    sampler.observe("a");
    assert_eq!(sampler.get("a"), Some(FDeltaPair { f: 1, delta: 0 }));
    sampler.observe("b");
    // The boundary at two observations drops both keys.
    assert_eq!(sampler.len(), 0);
    sampler.observe("a");
    assert_eq!(sampler.get("a"), Some(FDeltaPair { f: 1, delta: 1 }));
    sampler.observe("a");
    assert_eq!(sampler.get("a"), None);
    sampler.observe("a");
    // Four occurrences, one of them counted: three were missed, which is
    // more than delta and no more than twice delta.
    assert_eq!(sampler.get("a"), Some(FDeltaPair { f: 1, delta: 2 }));
    let items = sampler.items_above_threshold(frac(0.5));
    assert_eq!(items.len(), 1);
    assert_eq!(items[0].key, "a");
    assert_eq!(items[0].frequency, Fraction::from_ppb(210_000_000));
}

#[test]
fn lossy_keeps_a_frequent_key_across_boundaries() {
    // Buckets of four observations.
    let mut sampler = new_lossy_counter(frac(0.01), frac(0.25)).unwrap();
    assert_eq!(sampler.bucket_width(), 4);
    for key in ["x", "x", "x", "y", "x", "z", "x", "x"] {
        sampler.observe(key);
    }
    // At four observations: x has 3 + 0 > 2 and stays, y has 1 + 1 and goes.
    // At eight: x has 6 + 0 > 3 and stays, z has 1 + 1 and goes.
    assert_eq!(sampler.get("x"), Some(FDeltaPair { f: 6, delta: 0 }));
    assert_eq!(sampler.get("y"), None);
    assert_eq!(sampler.get("z"), None);
    assert_eq!(sampler.len(), 1);
}

#[test]
fn lossy_threshold_test_subtracts_delta() {
    let mut sampler = new_lossy_counter(frac(0.01), frac(0.25)).unwrap();
    for key in ["x", "x", "x", "y", "q"] {
        sampler.observe(key);
    }
    assert_eq!(sampler.get("q"), Some(FDeltaPair { f: 1, delta: 1 }));
    // q: 1 >= (0.9 - 1) * 5 holds; x: 3 >= 0.9 * 5 does not.
    let items = sampler.items_above_threshold(frac(0.9));
    assert_eq!(keys_of(&items), vec!["q".to_string()]);
    // x: 3 >= 0.6 * 5 holds exactly.
    let items = sampler.items_above_threshold(frac(0.6));
    assert_eq!(keys_of(&items), vec!["x".to_string(), "q".to_string()]);
    assert_eq!(items[0].frequency, Fraction::from_ppb(610_000_000));
}

#[test]
fn lossy_error_stays_within_twice_delta() {
    let mut exact = new_naive_sampler();
    let mut sampler = new_lossy_counter(frac(0.01), frac(0.02)).unwrap();
    let width = sampler.bucket_width();
    let mut state = 5;
    for i in 0..20_000u64 {
        let r = step(&mut state);
        let key = if r % 3 == 0 {
            format!("hot{}", r % 7)
        } else {
            format!("cold{}", r % 5000)
        };
        exact.observe(&key);
        sampler.observe(&key);
        if i % 97 == 0 {
            let seen = exact.get(&key);
            match sampler.get(&key) {
                Some(pair) => {
                    assert!(pair.f >= 1 && pair.f <= seen);
                    assert!(seen - pair.f <= 2 * pair.delta);
                }
                None => assert!(seen <= 2 * (sampler.observations() / width)),
            }
        }
    }
}

#[test]
fn lossy_memory_stays_bounded() {
    let tolerance = 0.01;
    let mut sampler = new_lossy_counter(frac(0.01), frac(tolerance)).unwrap();
    let width = sampler.bucket_width();
    let mut state = 9;
    for _ in 0..100_000u64 {
        let r = step(&mut state);
        let key = if r % 2 == 0 {
            format!("hot{}", r % 20)
        } else {
            format!("cold{}", r)
        };
        sampler.observe(&key);
        let n = sampler.observations();
        if n % width == 0 {
            let bound = (1.0 / tolerance) * (tolerance * n as f64).ln().max(1.0);
            assert!(sampler.len() as f64 <= bound);
        }
        // With fewer than 2^k whole buckets there are at most width * (2k + 1) keys.
        let buckets = n / width;
        let k = 64 - buckets.leading_zeros() as u64;
        assert!(sampler.len() as u64 <= width * (2 * k + 1));
    }
}

#[test]
fn lossy_memory_bound_is_met_by_distinct_keys() {
    // Buckets of four observations; every key is new.
    let mut sampler = new_lossy_counter(frac(0.01), frac(0.25)).unwrap();
    let mut most = 0;
    for i in 0..1000u64 {
        sampler.observe(&format!("k{}", i));
        most = most.max(sampler.len());
        if sampler.observations() % 4 == 0 {
            assert_eq!(sampler.len(), 0);
        }
    }
    assert_eq!(most, 3);
}

#[test]
fn construction_rejects_zero_error_tolerance() {
    assert_eq!(
        new_lossy_counter(frac(0.01), frac(0.0)).err(),
        Some(ConfigError::ErrorTolerance)
    );
    assert_eq!(
        new_sampler(frac(0.1), frac(0.0), frac(0.01), log_term(0.1, 0.01), 1).err(),
        Some(ConfigError::ErrorTolerance)
    );
}

#[test]
fn construction_rejects_parameters_outside_the_unit_interval() {
    assert_eq!(
        new_lossy_counter(frac(0.01), frac(1.0)).err(),
        Some(ConfigError::ErrorTolerance)
    );
    assert_eq!(new_lossy_counter(frac(0.0), frac(0.1)).err(), Some(ConfigError::Support));
    assert_eq!(new_lossy_counter(frac(1.0), frac(0.1)).err(), Some(ConfigError::Support));
    let log = frac(2.0);
    assert_eq!(
        new_sampler(frac(0.1), frac(1.5), frac(0.01), log, 1).err(),
        Some(ConfigError::ErrorTolerance)
    );
    assert_eq!(new_sampler(frac(0.0), frac(0.1), frac(0.01), log, 1).err(), Some(ConfigError::Support));
    assert_eq!(
        new_sampler(frac(0.1), frac(0.1), frac(0.0), log, 1).err(),
        Some(ConfigError::FailureProbability)
    );
    assert_eq!(
        new_sampler(frac(0.1), frac(0.1), frac(1.0), log, 1).err(),
        Some(ConfigError::FailureProbability)
    );
    assert_eq!(
        new_sampler(frac(0.1), frac(0.1), frac(0.01), frac(0.0), 1).err(),
        Some(ConfigError::Logarithm)
    );
    // The tolerance is looked at first.
    assert_eq!(
        new_sampler(frac(0.0), frac(0.0), frac(0.0), frac(0.0), 1).err(),
        Some(ConfigError::ErrorTolerance)
    );
    assert!(new_sampler(frac(0.1), frac(0.1), frac(0.01), log, 1).is_ok());
}

#[test]
fn sticky_window_is_two_over_tolerance_times_logarithm() {
    let sampler = new_sampler(frac(0.1), frac(0.1), frac(0.01), log_term(0.1, 0.01), 1).unwrap();
    assert_eq!(sampler.rate(), 1);
    // 20 * ln(1000) = 138.1551...
    assert_eq!(sampler.window(), 138_155_105_580);
    let sampler = new_sampler(frac(0.1), frac(0.8), frac(0.01), frac(1.0), 1).unwrap();
    assert_eq!(sampler.window(), 2_500_000_000);
    let sampler = new_sampler(frac(0.1), frac(0.3), frac(0.01), frac(1.0), 1).unwrap();
    assert_eq!(sampler.window(), 6_666_666_666);
}

#[test]
fn sticky_reports_count_share_plus_support() {
    let mut sampler = new_sampler(frac(0.1), frac(0.1), frac(0.01), log_term(0.1, 0.01), 1).unwrap();
    for _ in 0..9 {
        sampler.observe("shane");
    }
    sampler.observe("hansen");
    assert_eq!(sampler.get("shane"), Some(9));
    assert_eq!(sampler.get("hansen"), Some(1));
    let items = sampler.items_above_threshold(frac(0.5));
    assert_eq!(items.len(), 1);
    assert_eq!(items[0].frequency, Fraction::from_ppb(1_000_000_000));
    // 1 >= (0.2 - 0.1) * 10 holds exactly.
    assert_eq!(sampler.items_above_threshold(frac(0.2)).len(), 2);
    assert_eq!(sampler.items_above_threshold(frac(0.21)).len(), 1);
    // A threshold below the tolerance lets every sampled key through.
    assert_eq!(sampler.items_above_threshold(frac(0.05)).len(), 2);
}

#[test]
fn sticky_rate_doubles_once_past_the_window() {
    // A window of twenty observations.
    let mut sampler = new_sampler(frac(0.1), frac(0.1), frac(0.01), frac(1.0), 1).unwrap();
    assert_eq!(sampler.window(), 20_000_000_000);
    for i in 0..20 {
        assert!(!sampler.is_due());
        sampler.observe(&format!("k{}", i));
        assert_eq!(sampler.rate(), 1);
        assert_eq!(sampler.window(), 20_000_000_000);
    }
    assert!(sampler.is_due());
    sampler.observe("one more");
    assert_eq!(sampler.observations(), 21);
    assert_eq!(sampler.rate(), 2);
    assert_eq!(sampler.window(), 40_000_000_000);
    for i in 21..40 {
        sampler.observe(&format!("k{}", i));
        assert_eq!(sampler.rate(), 2);
    }
    sampler.observe("forty-first");
    assert_eq!(sampler.rate(), 4);
    assert_eq!(sampler.window(), 80_000_000_000);
}

#[test]
fn sticky_rate_doubles_past_a_fractional_window() {
    // A window of two and a half observations.
    let mut sampler = new_sampler(frac(0.1), frac(0.8), frac(0.01), frac(1.0), 1).unwrap();
    let none = Vec::new();
    sampler.observe_with("a", &none, 0);
    sampler.observe_with("a", &none, 0);
    assert_eq!((sampler.rate(), sampler.window()), (1, 2_500_000_000));
    sampler.observe_with("a", &none, 0);
    assert_eq!((sampler.rate(), sampler.window()), (2, 5_000_000_000));
    sampler.observe_with("a", &none, 0);
    sampler.observe_with("a", &none, 0);
    // Five observations do not exceed a window of five.
    assert_eq!((sampler.rate(), sampler.window()), (2, 5_000_000_000));
    sampler.observe_with("a", &none, 0);
    assert_eq!((sampler.rate(), sampler.window()), (4, 10_000_000_000));
    assert_eq!(sampler.get("a"), Some(6));
}

fn two_and_a_half(mode: Thinning) -> StickySampler {
    new_sampler(frac(0.1), frac(0.8), frac(0.01), frac(1.0), 1)
        .unwrap()
        .with_thinning(mode)
}

#[test]
fn sticky_thins_cumulatively() {
    let none = Vec::new();
    let mut sampler = two_and_a_half(Thinning::Cumulative);
    sampler.observe_with("a", &none, 0);
    sampler.observe_with("a", &none, 0);
    sampler.observe_with("a", &none, 0);
    sampler.observe_with("b", &none, 0);
    sampler.observe_with("c", &none, 0);
    assert_eq!(sampler.get("a"), Some(3));
    // The sixth observation doubles the rate: a loses two, b loses none,
    // c would lose its only count and leaves.
    sampler.observe_with("d", &vec![2, 0, 1], 0);
    assert_eq!(sampler.get("a"), Some(1));
    assert_eq!(sampler.get("b"), Some(1));
    assert_eq!(sampler.get("c"), None);
    assert_eq!(sampler.get("d"), Some(1));
    assert_eq!(sampler.len(), 3);
}

#[test]
fn sticky_thins_by_a_single_step() {
    let none = Vec::new();
    let mut sampler = two_and_a_half(Thinning::SingleStep);
    sampler.observe_with("a", &none, 0);
    sampler.observe_with("a", &none, 0);
    sampler.observe_with("a", &none, 0);
    sampler.observe_with("b", &none, 0);
    sampler.observe_with("c", &none, 0);
    // However long the run, a loses one; c loses its only count.
    sampler.observe_with("a", &vec![2, 0, 7], 0);
    assert_eq!(sampler.get("a"), Some(3));
    assert_eq!(sampler.get("b"), Some(1));
    assert_eq!(sampler.get("c"), None);
}

#[test]
fn sticky_evicted_key_reenters_as_new() {
    let none = Vec::new();
    let mut sampler = two_and_a_half(Thinning::Cumulative);
    sampler.observe_with("a", &none, 0);
    sampler.observe_with("a", &none, 0);
    // The third observation doubles the rate; a run of two uses up a's
    // count, and the draw admits it again with a count of one.
    sampler.observe_with("a", &vec![2], 0);
    assert_eq!(sampler.get("a"), Some(1));
    assert_eq!(sampler.observations(), 3);
}

#[test]
fn sticky_admits_by_the_draw() {
    let none = Vec::new();
    let mut sampler = two_and_a_half(Thinning::Cumulative);
    // At a rate of one every draw admits.
    sampler.observe_with("a", &none, u64::MAX);
    assert_eq!(sampler.get("a"), Some(1));
    sampler.observe_with("a", &none, u64::MAX);
    sampler.observe_with("a", &none, u64::MAX);
    assert_eq!(sampler.rate(), 2);
    // At a rate of two the lower half of the words admits.
    sampler.observe_with("b", &none, 1 << 63);
    assert_eq!(sampler.get("b"), None);
    sampler.observe_with("c", &none, (1 << 63) - 1);
    assert_eq!(sampler.get("c"), Some(1));
    // A sampled key is counted whatever the draw.
    sampler.observe_with("a", &none, u64::MAX);
    assert_eq!(sampler.get("a"), Some(4));
    assert_eq!(sampler.rate(), 4);
    sampler.observe_with("d", &none, 1 << 62);
    assert_eq!(sampler.get("d"), None);
    sampler.observe_with("e", &none, (1 << 62) - 1);
    assert_eq!(sampler.get("e"), Some(1));
}

#[test]
fn sticky_is_repeatable_under_a_seed() {
    let run = |seed: u64| {
        let mut sampler = new_sampler(frac(0.01), frac(0.05), frac(0.1), log_term(0.01, 0.1), seed).unwrap();
        let mut state = 1;
        for _ in 0..20_000 {
            sampler.observe(&format!("k{}", step(&mut state) % 3000));
        }
        let items = sampler.items_above_threshold(frac(0.0));
        (
            sampler.rate(),
            sampler.len(),
            items.iter().map(|e| (e.key.clone(), e.frequency.ppb)).collect::<Vec<_>>(),
        )
    };
    assert_eq!(run(17), run(17));
    assert_eq!(run(18), run(18));
    assert!(run(17).0 > 1);
}

#[test]
fn sticky_never_overcounts() {
    let mut exact = new_naive_sampler();
    let mut sampler = new_sampler(frac(0.01), frac(0.05), frac(0.1), log_term(0.01, 0.1), 5).unwrap();
    let mut state = 3;
    for _ in 0..20_000 {
        let r = step(&mut state);
        let key = if r % 2 == 0 { format!("hot{}", r % 5) } else { format!("cold{}", r % 4000) };
        exact.observe(&key);
        sampler.observe(&key);
        if let Some(count) = sampler.get(&key) {
            assert!(1 <= count && count <= exact.get(&key));
        }
    }
    // The frequent keys are found, near their true frequency.
    let items = sampler.items_above_threshold(frac(0.08));
    let mut found = keys_of(&items);
    found.sort();
    assert_eq!(found, vec!["hot0", "hot1", "hot2", "hot3", "hot4"]);
}

#[test]
fn sticky_memory_stays_bounded() {
    let (support, tolerance, failure) = (0.1, 0.1, 0.1);
    let log = (1.0f64 / (support * failure)).ln();
    let bound = 2.0 / tolerance * log;
    let mut sampler = new_sampler(frac(support), frac(tolerance), frac(failure), frac(log), 23).unwrap();
    let mut rate = sampler.rate();
    for i in 0..200_000u64 {
        sampler.observe(&format!("k{}", i));
        if sampler.rate() != rate {
            rate = sampler.rate();
            assert!(sampler.len() as f64 <= 2.0 * bound);
        }
    }
    assert!(rate >= 1024);
    assert!(sampler.len() as f64 <= 2.0 * bound);
}

#[test]
fn sticky_error_stays_within_tolerance() {
    let (support, tolerance, failure) = (0.01, 0.05, 0.1);
    let trials = 40u64;
    let mut failed = 0;
    for seed in 0..trials {
        let mut exact = new_naive_sampler();
        let mut sampler = new_sampler(
            frac(support),
            frac(tolerance),
            frac(failure),
            log_term(support, failure),
            seed,
        )
        .unwrap();
        let mut state = seed + 100;
        for _ in 0..20_000 {
            let r = step(&mut state);
            let key = if r % 2 == 0 { format!("hot{}", r % 5) } else { format!("cold{}", r % 4000) };
            exact.observe(&key);
            sampler.observe(&key);
        }
        let n = exact.observations() as f64;
        let items = sampler.items_above_threshold(frac(0.08));
        let mut within = items.len() == 5;
        for item in &items {
            let estimate = item.frequency.ppb as f64 / 1e9 - support;
            let truth = exact.get(&item.key) as f64 / n;
            within = within && estimate <= truth && truth - estimate <= tolerance;
        }
        if !within {
            failed += 1;
        }
    }
    assert!(failed as f64 <= failure * trials as f64);
}

fn nine_to_one<T: Counter>(mut counter: T) -> Vec<Entry> {
    for _ in 0..9 {
        counter.observe("shane");
    }
    counter.observe("hansen");
    assert_eq!(counter.observations(), 10);
    counter.items_above_threshold(frac(0.5))
}

#[test]
fn every_counter_finds_the_frequent_key() {
    let lossy = new_lossy_counter(frac(0.0001), frac(0.0001)).unwrap();
    let sticky = new_sampler(frac(0.0001), frac(0.0001), frac(0.0001), log_term(0.0001, 0.0001), 1)
        .unwrap();
    let reports = vec![nine_to_one(new_naive_sampler()), nine_to_one(lossy), nine_to_one(sticky)];
    for (items, offset) in reports.iter().zip([0u64, 100_000, 100_000]) {
        assert_eq!(items.len(), 1);
        assert_eq!(items[0].key, "shane");
        assert_eq!(items[0].frequency.ppb, 900_000_000 + offset);
    }
}

#[test]
fn lossy_reports_every_frequent_key() {
    let mut exact = new_naive_sampler();
    let mut sampler = new_lossy_counter(frac(0.01), frac(0.02)).unwrap();
    let width = sampler.bucket_width();
    let mut state = 77;
    for _ in 0..30_000 {
        let r = step(&mut state);
        let key = if r % 2 == 0 { format!("hot{}", r % 5) } else { format!("cold{}", r % 9000) };
        exact.observe(&key);
        sampler.observe(&key);
    }
    let n = exact.observations();
    let threshold = frac(0.08);
    let reported = keys_of(&sampler.items_above_threshold(threshold));
    // A key seen more than twice per whole bucket and in at least 8% of
    // the stream must be among the reported ones.
    for item in exact.items_above_threshold(frac(0.0)) {
        let count = exact.get(&item.key);
        if count > 2 * (n / width) && count as f64 >= 0.08 * n as f64 {
            assert!(reported.contains(&item.key));
        }
    }
    for k in 0..5 {
        assert!(reported.contains(&format!("hot{}", k)));
    }
}
