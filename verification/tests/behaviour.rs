use ternary_ear::{
    Ear, EarMemory, EarTraining, FrequencyDetector, HarmonicAnalyzer, Pattern, RhythmTracker,
};

fn report(found: &[Pattern]) -> Vec<(Vec<i8>, u32, u64)> {
    found.iter().map(|p| (p.values.clone(), p.observations, p.last_seen)).collect()
}

#[test]
fn recurring_report_is_complete_and_ordered() {
    let mut ear = Ear::new(3);
    ear.listen_all(&[1, 1, 0, 1, 1, 0, 1, 1]);
    let found = ear.detect_recurring(2);
    assert_eq!(
        report(&found),
        vec![
            (vec![1, 1], 3, 8),
            (vec![1, 0], 2, 8),
            (vec![0, 1], 2, 8),
            (vec![1, 1, 0], 2, 8),
            (vec![1, 0, 1], 2, 8),
            (vec![0, 1, 1], 2, 8),
        ]
    );
    // the ear itself is left as it was
    assert_eq!(ear.buffer, vec![1, 1, 0, 1, 1, 0, 1, 1]);
    assert_eq!(ear.total_ticks(), 8);
}

#[test]
fn recurring_threshold_filters_and_lengths_are_bounded() {
    let mut ear = Ear::new(2);
    ear.listen_all(&[1, 1, 0, 1, 1, 0, 1, 1]);
    let found = ear.detect_recurring(3);
    assert_eq!(report(&found), vec![(vec![1, 1], 3, 8)]);
    let mut short = Ear::new(5);
    short.listen(1);
    assert!(short.detect_recurring(0).is_empty());
    let mut tiny = Ear::new(1);
    tiny.listen_all(&[1, 1, 1]);
    assert!(tiny.detect_recurring(0).is_empty());
}

#[test]
fn recurring_with_zero_threshold_lists_each_window_once() {
    let mut ear = Ear::new(2);
    ear.listen_all(&[0, 0, 0, 1]);
    let found = ear.detect_recurring(0);
    assert_eq!(report(&found), vec![(vec![0, 0], 2, 4), (vec![0, 1], 1, 4)]);
}

#[test]
fn listen_observes_patterns_that_end_the_buffer() {
    let mut ear = Ear::new(3);
    ear.watch(Pattern::new(vec![1, -1]));
    ear.watch(Pattern::new(vec![0, 1, -1]));
    ear.watch(Pattern::new(vec![]));
    ear.listen_all(&[1, -1, 0, 1, -1]);
    assert_eq!(ear.patterns[0].observations, 2);
    assert_eq!(ear.patterns[0].last_seen, 5);
    assert_eq!(ear.patterns[1].observations, 1);
    assert_eq!(ear.patterns[1].last_seen, 5);
    // the empty pattern ends every buffer
    assert_eq!(ear.patterns[2].observations, 5);
    ear.listen(1);
    assert_eq!(ear.patterns[0].observations, 2);
    assert_eq!(ear.patterns[0].last_seen, 5);
    assert_eq!(ear.total_ticks(), 6);
}

#[test]
fn listen_all_clamps_and_counts_ticks() {
    let mut ear = Ear::new(2);
    ear.listen_all(&[100, -100, 0, 1, -1, 127, -128]);
    assert_eq!(ear.buffer, vec![1, -1, 0, 1, -1, 1, -1]);
    assert_eq!(ear.total_ticks(), 7);
    ear.clear_buffer();
    assert!(ear.buffer.is_empty());
    assert_eq!(ear.total_ticks(), 7);
}

#[test]
fn clear_buffer_keeps_patterns() {
    let mut ear = Ear::new(2);
    ear.watch(Pattern::new(vec![1]));
    ear.listen(1);
    ear.clear_buffer();
    assert_eq!(ear.patterns.len(), 1);
    assert_eq!(ear.patterns[0].observations, 1);
    assert_eq!(ear.max_pattern_len, 2);
}

#[test]
fn patterns_clone_and_compare() {
    let p = Pattern { values: vec![1, -1], observations: 2, last_seen: 7 };
    let q = p.clone();
    assert_eq!(p, q);
    assert_ne!(p, Pattern::new(vec![1, -1]));
    let mut ear = Ear::new(2);
    ear.watch(q);
    let copy = ear.clone();
    assert_eq!(copy.patterns, ear.patterns);
}

#[test]
fn pattern_length() {
    let p = Pattern::new(vec![1, 0, -1]);
    assert_eq!(p.len(), 3);
    assert!(!p.is_empty());
    assert!(Pattern::new(vec![]).is_empty());
    assert_eq!(p.observations, 0);
    assert_eq!(p.last_seen, 0);
}

#[test]
fn frequency_counts_sum_to_total() {
    let mut fd = FrequencyDetector::new();
    fd.observe(1);
    fd.observe(1);
    fd.observe(-1);
    fd.observe(9);
    fd.observe(-9);
    fd.observe(0);
    assert_eq!(fd.counts, [2, 1, 3]);
    assert_eq!(fd.total, 6);
    assert_eq!(fd.counts.iter().sum::<u64>(), fd.total);
}

#[test]
fn dominant_is_last_of_the_greatest() {
    let mut fd = FrequencyDetector::new();
    assert_eq!(fd.dominant(), 1);
    fd.observe(-1);
    fd.observe(-1);
    fd.observe(0);
    fd.observe(0);
    assert_eq!(fd.dominant(), 0);
    fd.observe(-1);
    assert_eq!(fd.dominant(), -1);
    fd.observe(1);
    fd.observe(1);
    fd.observe(1);
    assert_eq!(fd.dominant(), 1);
}

#[test]
fn uniformity_is_within_a_tenth_of_a_third() {
    assert!(FrequencyDetector::new().is_uniform());
    let fd = FrequencyDetector { counts: [11, 10, 9], total: 30 };
    assert!(!fd.is_uniform());
    let fd = FrequencyDetector { counts: [11, 10, 10], total: 31 };
    assert!(fd.is_uniform());
    let fd = FrequencyDetector { counts: [0, 0, 5], total: 5 };
    assert!(!fd.is_uniform());
}

#[test]
fn index_of_ternary_values() {
    assert_eq!(FrequencyDetector::idx(-1), 0);
    assert_eq!(FrequencyDetector::idx(0), 1);
    assert_eq!(FrequencyDetector::idx(1), 2);
}

#[test]
fn inverse_edge_cases_and_symmetry() {
    assert!(HarmonicAnalyzer::are_inverse(&[], &[]));
    assert!(!HarmonicAnalyzer::are_inverse(&[1], &[-1, 0]));
    assert!(HarmonicAnalyzer::are_inverse(&[-1, 0, 1], &[1, 0, -1]));
    assert!(HarmonicAnalyzer::are_inverse(&[5, -7], &[-5, 7]));
    assert!(!HarmonicAnalyzer::are_inverse(&[0, 1], &[1, 0]));
}

#[test]
fn shifted_edge_cases() {
    assert!(!HarmonicAnalyzer::are_shifted(&[], &[], 0));
    // rotation is cyclic: a whole turn leaves a sequence as it was
    assert!(HarmonicAnalyzer::are_shifted(&[1, 0], &[1, 0], 2));
    assert!(HarmonicAnalyzer::are_shifted(&[1, 0, -1], &[1, 0, -1], 3));
    assert!(HarmonicAnalyzer::are_shifted(&[1, 0, -1], &[-1, 1, 0], 4));
    assert!(!HarmonicAnalyzer::are_shifted(&[1, 0, -1], &[-1, 1, 0], 5));
    assert!(!HarmonicAnalyzer::are_shifted(&[1, 0], &[1, 0, 0], 0));
    assert!(HarmonicAnalyzer::are_shifted(&[1, 0, -1, 0], &[-1, 0, 1, 0], 2));
    assert!(HarmonicAnalyzer::are_shifted(&[1, 0, -1], &[0, -1, 1], 2));
    assert!(!HarmonicAnalyzer::are_shifted(&[1, 0, -1], &[0, -1, 1], 1));
}

#[test]
fn correlation_terms_formula() {
    assert_eq!(HarmonicAnalyzer::correlation_terms(&[1, 1, 1], &[1, 1, 1]), Some((3, 3)));
    assert_eq!(HarmonicAnalyzer::correlation_terms(&[1, 1, 1], &[-1, -1, -1]), Some((-3, 3)));
    assert_eq!(HarmonicAnalyzer::correlation_terms(&[1, -1], &[-1, 1]), Some((-2, 2)));
    assert_eq!(HarmonicAnalyzer::correlation_terms(&[1, 0, -1, 1], &[1, 1, 1, 0]), Some((0, 4)));
    assert_eq!(HarmonicAnalyzer::correlation_terms(&[], &[]), None);
    assert_eq!(HarmonicAnalyzer::correlation_terms(&[1], &[1, 1]), None);
}

#[test]
fn correlated_partners_in_order() {
    let mut ha = HarmonicAnalyzer::new();
    ha.add_relationship(0, 1, 1);
    ha.add_relationship(2, 0, -1);
    ha.add_relationship(3, 4, 0);
    ha.add_relationship(0, 0, 1);
    assert_eq!(ha.find_correlated(0), vec![1, 2, 0]);
    assert_eq!(ha.find_correlated(4), vec![3]);
    assert_eq!(ha.find_correlated(9), Vec::<usize>::new());
    ha.add_relationship(4, 7, 1);
    assert_eq!(ha.find_correlated(4), vec![3, 7]);
    assert_eq!(ha.find_correlated(7), vec![4]);
}

#[test]
fn period_needs_four_values_and_strong_correlation() {
    let mut rt = RhythmTracker::new();
    rt.observe(1);
    rt.observe(-1);
    rt.observe(1);
    assert_eq!(rt.detect_period(), 0);
    assert_eq!(rt.period, 0);
    assert_eq!(rt.predict_next(), None);
    let mut flat = RhythmTracker::new();
    for v in [1, 0, 0, 0, 0, 0, 0, 0] {
        flat.observe(v);
    }
    assert_eq!(flat.detect_period(), 0);
    assert_eq!(flat.predict_next(), None);
}

#[test]
fn period_three_is_the_first_best_lag() {
    let mut rt = RhythmTracker::new();
    for _ in 0..4 {
        rt.observe(1);
        rt.observe(-1);
        rt.observe(0);
    }
    // lags 3 and 6 both correlate at 2/3; the first one wins
    assert_eq!(rt.detect_period(), 3);
    assert_eq!(rt.period, 3);
    assert_eq!(rt.predict_next(), Some(1));
    rt.observe(7);
    assert_eq!(rt.buffer[12], 1);
    assert_eq!(rt.predict_next(), Some(-1));
    assert_eq!(rt.len(), 13);
    assert!(!rt.is_empty());
}

#[test]
fn period_ignores_a_correlation_of_one_half() {
    let mut rt = RhythmTracker::new();
    // lag 2 correlates at exactly 1/2: sum 1 over 2 pairs
    for v in [1, 0, 1, -1] {
        rt.observe(v);
    }
    assert_eq!(rt.detect_period(), 0);
}

#[test]
fn prediction_with_a_set_period() {
    let rt = RhythmTracker { buffer: vec![1, 0, -1, 1, 0], period: 3 };
    assert_eq!(rt.predict_next(), Some(-1));
    let rt = RhythmTracker { buffer: vec![1, 0], period: 3 };
    assert_eq!(rt.predict_next(), None);
    assert!(RhythmTracker::new().is_empty());
}

#[test]
fn training_counts() {
    let mut et = EarTraining::new();
    for _ in 0..8 {
        et.record(true);
    }
    for _ in 0..2 {
        et.record(false);
    }
    assert_eq!(et.hits, 8);
    assert_eq!(et.misses, 2);
    assert_eq!(et.total(), 10);
    assert!(!et.is_mature());
    for _ in 0..10 {
        et.record(false);
    }
    assert!(et.is_mature());
}

#[test]
fn memory_eviction_keeps_order() {
    let mut mem = EarMemory::new(2);
    assert!(mem.is_empty());
    mem.store(Pattern::new(vec![1]), 1);
    mem.store(Pattern::new(vec![0]), 2);
    mem.store(Pattern::new(vec![-1]), 3);
    assert_eq!(mem.memories.len(), 2);
    assert_eq!(mem.memories[0].0.values, vec![0]);
    assert_eq!(mem.memories[0].1, 2);
    assert_eq!(mem.memories[1].0.values, vec![-1]);
    assert_eq!(mem.memories[1].1, 3);
    assert!(mem.retrieve(&[-1]).is_some());
}

#[test]
fn eviction_is_least_recently_used() {
    let mut mem = EarMemory::new(2);
    mem.store(Pattern::new(vec![1]), 1);
    mem.store(Pattern::new(vec![0]), 2);
    assert!(mem.retrieve(&[1]).is_some());
    // [0] is now the least recently used
    mem.store(Pattern::new(vec![-1]), 3);
    assert_eq!(mem.len(), 2);
    assert!(mem.retrieve(&[1]).is_some());
    assert!(mem.retrieve(&[0]).is_none());
    assert_eq!(mem.memories[0].0.values, vec![-1]);
    assert_eq!(mem.memories[1].0.values, vec![1]);
    assert_eq!(mem.memories[1].1, 1);
    // a miss leaves the order alone
    assert!(mem.retrieve(&[0, 0]).is_none());
    assert_eq!(mem.memories[0].0.values, vec![-1]);
}

#[test]
fn retrieve_finds_the_first_match() {
    let mut mem = EarMemory::new(5);
    mem.store(Pattern { values: vec![1, 1], observations: 4, last_seen: 0 }, 0);
    mem.store(Pattern { values: vec![1, 1], observations: 9, last_seen: 0 }, 1);
    assert_eq!(mem.retrieve(&[1, 1]).unwrap().observations, 4);
    // the retrieved one moved to the back, so the other now comes first
    assert_eq!(mem.retrieve(&[1, 1]).unwrap().observations, 9);
    assert!(mem.retrieve(&[1]).is_none());
    assert!(mem.retrieve(&[1, 1, 1]).is_none());
}

#[test]
fn frequent_patterns_in_storage_order() {
    let mut mem = EarMemory::new(10);
    mem.store(Pattern { values: vec![1], observations: 5, last_seen: 0 }, 0);
    mem.store(Pattern { values: vec![0], observations: 1, last_seen: 0 }, 0);
    mem.store(Pattern { values: vec![-1], observations: 3, last_seen: 0 }, 0);
    let freq = mem.find_frequent(3);
    assert_eq!(freq.len(), 2);
    assert_eq!(freq[0].values, vec![1]);
    assert_eq!(freq[1].values, vec![-1]);
    assert_eq!(mem.find_frequent(0).len(), 3);
    assert!(mem.find_frequent(6).is_empty());
}

#[test]
fn period_of_a_raw_buffer() {
    // lags 2 and 3 both correlate at 4 (16/4 and 12/3): the first one wins
    let mut rt = RhythmTracker { buffer: vec![2, 2, 2, 2, 2, 2], period: 0 };
    assert_eq!(rt.detect_period(), 2);
    let mut rt = RhythmTracker { buffer: vec![3, -3, 3, -3, 3, -3], period: 9 };
    assert_eq!(rt.detect_period(), 2);
    assert_eq!(rt.predict_next(), Some(3));
    let mut rt = RhythmTracker { buffer: vec![3, -3, 3, -3], period: 9 };
    rt.buffer[2] = 0;
    // lag 2: (3 * 0 + -3 * -3) / 2 = 4.5
    assert_eq!(rt.detect_period(), 2);
}

#[test]
fn readme_quick_start() {
    let mut ear = Ear::new(3);
    ear.watch(Pattern::new(vec![1, -1]));
    ear.listen_all(&[1, -1, 0, 1, -1]);
    assert!(ear.patterns[0].observations >= 2);

    let mut ear2 = Ear::new(3);
    ear2.listen_all(&[1, 1, 0, 1, 1, 0, 1, 1]);
    let found = ear2.detect_recurring(2);
    assert!(found.iter().any(|p| p.values == vec![1, 1]));

    let mut fd = FrequencyDetector::new();
    fd.observe(1);
    fd.observe(1);
    fd.observe(-1);
    assert_eq!(fd.dominant(), 1);

    let mut rt = RhythmTracker::new();
    for _ in 0..6 {
        rt.observe(1);
        rt.observe(-1);
    }
    assert_eq!(rt.detect_period(), 2);
    assert_eq!(rt.predict_next(), Some(1));

    let mut mem = EarMemory::new(10);
    mem.store(Pattern::new(vec![1, -1, 0]), 100);
    assert_eq!(mem.len(), 1);
}
