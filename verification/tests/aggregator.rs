use paclog::freq::FreqMap;

#[test]
fn total_counts_every_increment() {
    let mut map: FreqMap<String> = FreqMap::new();
    assert_eq!(map.total(), 0);
    let keys = ["a", "b", "a", "c", "a", "b"];
    for k in keys {
        map.inc(k.to_string());
    }
    assert_eq!(map.total(), keys.len());
    assert_eq!(map.len(), 3);
}

#[test]
fn sorted_by_freq_counts_sum_to_total() {
    let mut map: FreqMap<String> = FreqMap::new();
    let keys = ["x", "y", "x", "z", "x", "y", "w"];
    for k in keys {
        map.inc(k.to_string());
    }
    let total = map.total();
    let sorted = map.sorted_by_freq();
    let sum: usize = sorted.iter().map(|(_, c)| *c).sum();
    assert_eq!(sum, total);
}

#[test]
fn sorted_by_freq_is_descending_with_exact_counts() {
    let mut map: FreqMap<String> = FreqMap::new();
    for k in ["x", "y", "x", "z", "x", "y"] {
        map.inc(k.to_string());
    }
    let sorted = map.sorted_by_freq();
    assert_eq!(sorted.len(), 3);
    for w in sorted.windows(2) {
        assert!(w[0].1 >= w[1].1);
    }
    assert_eq!(sorted[0], ("x".to_string(), 3));
    assert_eq!(sorted[1], ("y".to_string(), 2));
    assert_eq!(sorted[2], ("z".to_string(), 1));
}

#[test]
fn sorted_by_key_is_ascending() {
    let mut map: FreqMap<u16> = FreqMap::new();
    for k in [5u16, 3, 5, 9, 3, 1] {
        map.inc(k);
    }
    let sorted = map.sorted_by_key();
    assert_eq!(sorted, vec![(1u16, 1usize), (3, 2), (5, 2), (9, 1)]);
}
