use ternary_ear::{
    Ear, EarMemory, EarTraining, FrequencyDetector, HarmonicAnalyzer, Pattern, RhythmTracker,
};

#[test]
fn pattern_observe() {
    let mut p = Pattern::new(vec![1, 0, -1]);
    p.observe(10);
    p.observe(20);
    assert_eq!(p.observations, 2);
    assert_eq!(p.last_seen, 20);
}

#[test]
fn ear_listen_and_match() {
    let mut ear = Ear::new(3);
    ear.watch(Pattern::new(vec![1, -1]));
    ear.listen_all(&[1, -1, 0, 1, -1]);
    // Pattern [1, -1] should have been observed at least twice
    assert!(ear.patterns[0].observations >= 2);
}

#[test]
fn ear_detect_recurring() {
    let mut ear = Ear::new(3);
    ear.listen_all(&[1, 1, 0, 1, 1, 0, 1, 1]);
    let found = ear.detect_recurring(2);
    assert!(!found.is_empty());
    // [1, 1] should be detected
    assert!(found.iter().any(|p| p.values == vec![1, 1]));
}

#[test]
fn ear_total_ticks() {
    let mut ear = Ear::new(2);
    ear.listen_all(&[1, 0, -1]);
    assert_eq!(ear.total_ticks(), 3);
}

#[test]
fn frequency_detector_uniform() {
    let mut fd = FrequencyDetector::new();
    for _ in 0..10 {
        fd.observe(-1);
        fd.observe(0);
        fd.observe(1);
    }
    assert!(fd.is_uniform());
}

#[test]
fn harmonic_analyzer_inverse() {
    assert!(HarmonicAnalyzer::are_inverse(&[1, 0, -1], &[-1, 0, 1]));
    assert!(!HarmonicAnalyzer::are_inverse(&[1, 0, -1], &[1, 0, -1]));
}

#[test]
fn harmonic_analyzer_shifted() {
    // shift 0 means a[i] == b[i]: the sequences are identical
    assert!(HarmonicAnalyzer::are_shifted(&[1, 0, -1], &[1, 0, -1], 0));
    // a[i] == b[(i + 1) % 3] for [1, 0, -1] and [-1, 1, 0]
    assert!(HarmonicAnalyzer::are_shifted(&[1, 0, -1], &[-1, 1, 0], 1));
    assert!(!HarmonicAnalyzer::are_shifted(&[1, 0, -1], &[0, 0, 0], 1));
}

#[test]
fn rhythm_tracker_period() {
    let mut rt = RhythmTracker::new();
    // Perfect period-2 pattern
    for _ in 0..6 {
        rt.observe(1);
        rt.observe(-1);
    }
    let p = rt.detect_period();
    assert_eq!(p, 2);
}

#[test]
fn rhythm_tracker_predict() {
    let mut rt = RhythmTracker::new();
    for _ in 0..6 {
        rt.observe(1);
        rt.observe(-1);
    }
    rt.detect_period();
    assert_eq!(rt.predict_next(), Some(1));
}

#[test]
fn ear_training_accuracy() {
    let mut et = EarTraining::new();
    for _ in 0..8 {
        et.record(true);
    }
    for _ in 0..2 {
        et.record(false);
    }
    assert_eq!(et.total(), 10);
    let accuracy = et.hits as f64 / et.total() as f64;
    assert!((accuracy - 0.8).abs() < 0.001);
}

#[test]
fn ear_training_maturity() {
    let mut et = EarTraining::new();
    assert!(!et.is_mature());
    for _ in 0..20 {
        et.record(true);
    }
    assert!(et.is_mature());
}

#[test]
fn ear_memory_store_and_retrieve() {
    let mut mem = EarMemory::new(10);
    let p = Pattern { values: vec![1, -1, 0], observations: 3, last_seen: 100 };
    mem.store(p, 100);
    let retrieved = mem.retrieve(&[1, -1, 0]);
    assert!(retrieved.is_some());
    assert_eq!(retrieved.unwrap().observations, 3);
}

#[test]
fn ear_memory_capacity() {
    let mut mem = EarMemory::new(2);
    mem.store(Pattern::new(vec![1]), 1);
    mem.store(Pattern::new(vec![0]), 2);
    mem.store(Pattern::new(vec![-1]), 3); // should evict oldest
    assert_eq!(mem.len(), 2);
    assert!(mem.retrieve(&[1]).is_none()); // evicted
}

#[test]
fn ear_memory_frequent() {
    let mut mem = EarMemory::new(10);
    mem.store(Pattern { values: vec![1], observations: 5, last_seen: 0 }, 0);
    mem.store(Pattern { values: vec![0], observations: 1, last_seen: 0 }, 0);
    let freq = mem.find_frequent(3);
    assert_eq!(freq.len(), 1);
}

#[test]
fn harmonic_analyzer_find_correlated() {
    let mut ha = HarmonicAnalyzer::new();
    ha.add_relationship(0, 1, 1);
    ha.add_relationship(0, 2, -1);
    let correlated = ha.find_correlated(0);
    assert_eq!(correlated.len(), 2);
}

#[test]
fn ear_clamps_values() {
    let mut ear = Ear::new(2);
    ear.listen(5);
    ear.listen(-3);
    assert_eq!(ear.buffer, vec![1, -1]);
}
