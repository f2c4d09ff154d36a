use fraud_api::knn::{key_less_than, FraudScore, KnnHeap, INFINITY_KEY};

fn key(d: f32) -> u32 {
    d.to_bits()
}

#[test]
fn new_heap_is_empty_with_infinite_worst() {
    let h = KnnHeap::new();
    assert_eq!(h.size(), 0);
    assert_eq!(h.worst(), INFINITY_KEY);
    assert_eq!(INFINITY_KEY, f32::INFINITY.to_bits());
}

#[test]
fn empty_heap_scores_one_half() {
    let h = KnnHeap::new();
    assert_eq!(h.fraud_score(), FraudScore { num: 1, den: 2 });
}

#[test]
fn worst_is_infinite_until_five_are_held() {
    let mut h = KnnHeap::new();
    for (i, d) in [3.0f32, 1.0, 4.0, 1.5].iter().enumerate() {
        h.push(key(*d), (i % 2) as u8);
        assert_eq!(h.worst(), INFINITY_KEY);
    }
    h.push(key(9.0), 0);
    assert_eq!(h.size(), 5);
    assert_eq!(h.worst(), key(9.0));
}

#[test]
fn keeps_the_five_nearest() {
    let mut h = KnnHeap::new();
    let ds = [5.0f32, 0.5, 7.0, 2.0, 9.0, 1.0, 8.0, 0.25, 3.0, 6.0];
    for (i, d) in ds.iter().enumerate() {
        // label 1 for distances below 2
        h.push(key(*d), if *d < 2.0 { 1 } else { 0 });
        let _ = i;
    }
    // the five nearest are 0.25, 0.5, 1.0, 2.0, 3.0
    assert_eq!(h.size(), 5);
    assert_eq!(h.worst(), key(3.0));
    assert_eq!(h.fraud_score(), FraudScore { num: 3, den: 5 });
}

#[test]
fn farther_neighbour_is_rejected_when_full() {
    let mut h = KnnHeap::new();
    for d in [1.0f32, 2.0, 3.0, 4.0, 5.0] {
        h.push(key(d), 0);
    }
    h.push(key(5.0), 1);
    h.push(key(10.0), 1);
    assert_eq!(h.worst(), key(5.0));
    assert_eq!(h.fraud_score(), FraudScore { num: 0, den: 5 });
    h.push(key(0.5), 1);
    assert_eq!(h.worst(), key(4.0));
    assert_eq!(h.fraud_score(), FraudScore { num: 1, den: 5 });
}

#[test]
fn partial_heap_scores_by_its_size() {
    let mut h = KnnHeap::new();
    h.push(key(1.0), 1);
    h.push(key(2.0), 0);
    h.push(key(3.0), 1);
    assert_eq!(h.fraud_score(), FraudScore { num: 2, den: 3 });
}

#[test]
fn long_runs_keep_the_five_nearest() {
    // after each push, the worst key is the fifth smallest of all offered
    // (infinite while fewer than five were offered)
    let mut r: u64 = 17;
    let mut offered: Vec<u32> = Vec::new();
    let mut h = KnnHeap::new();
    for _ in 0..60 {
        r = r.wrapping_mul(6364136223846793005).wrapping_add(1442695040888963407);
        let d = key(((r >> 40) % 1000) as f32);
        offered.push(d);
        h.push(d, (r & 1) as u8);
        let mut sorted = offered.clone();
        sorted.sort();
        assert_eq!(h.size(), offered.len().min(5));
        let want = if sorted.len() < 5 { INFINITY_KEY } else { sorted[4] };
        assert_eq!(h.worst(), want);
    }
}

#[test]
fn nan_keys_compare_as_floats() {
    let nan = f32::NAN.to_bits();
    assert!(!key_less_than(key(1.0), nan));
    assert!(!key_less_than(nan, key(1.0)));
    assert!(key_less_than(key(1.0), key(2.0)));
    assert!(key_less_than(key(1.0), INFINITY_KEY));
    // a NaN is never above another key, so it does not rise to the root
    let mut h = KnnHeap::new();
    for d in [1.0f32, 2.0, 3.0, 4.0] {
        h.push(key(d), 0);
    }
    h.push(nan, 1);
    assert_eq!(h.worst(), key(4.0));
    h.push(key(0.5), 0);
    assert_eq!(h.worst(), key(3.0));
    assert_eq!(h.fraud_score(), FraudScore { num: 1, den: 5 });
}
