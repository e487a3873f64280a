use sqrt_cache::{floor_sqrt, CacheEntry, SqrtCache, CACHE_SIZE};

fn entry(number: u8, sqroot: u8) -> CacheEntry {
    CacheEntry { number, sqroot }
}

fn slots(c: &SqrtCache) -> Vec<CacheEntry> {
    (0..c.len()).map(|i| c.slot(i)).collect()
}

#[test]
fn floor_sqrt_exact_values() {
    assert_eq!(floor_sqrt(0), 0);
    assert_eq!(floor_sqrt(1), 1);
    assert_eq!(floor_sqrt(3), 1);
    assert_eq!(floor_sqrt(4), 2);
    assert_eq!(floor_sqrt(15), 3);
    assert_eq!(floor_sqrt(16), 4);
    assert_eq!(floor_sqrt(99), 9);
    assert_eq!(floor_sqrt(100), 10);
    assert_eq!(floor_sqrt(255), 15);
}

#[test]
fn floor_sqrt_matches_float_root() {
    for n in 0..=255u8 {
        assert_eq!(floor_sqrt(n), (n as f64).sqrt() as u8, "n = {}", n);
    }
}

#[test]
fn new_cache_is_full_of_default_slots() {
    let c = SqrtCache::new();
    assert_eq!(c.len(), CACHE_SIZE);
    assert_eq!(c.len(), 100);
    for e in slots(&c) {
        assert_eq!(e, entry(0, 0));
    }
}

#[test]
fn lookup_misses_on_absent_key() {
    let c = SqrtCache::new();
    assert_eq!(c.lookup(5), None);
    assert_eq!(c.lookup(0), Some(0));
}

#[test]
fn fill_miss_writes_three_neighbors() {
    let mut c = SqrtCache::new();
    assert_eq!(c.fill_miss(100, 10, 20, 30), 10);
    assert_eq!(c.slot(10), entry(99, 9));
    assert_eq!(c.slot(20), entry(100, 10));
    assert_eq!(c.slot(30), entry(101, 10));
    assert_eq!(c.lookup(99), Some(9));
    assert_eq!(c.lookup(100), Some(10));
    assert_eq!(c.lookup(101), Some(10));
    assert_eq!(c.len(), CACHE_SIZE);
}

#[test]
fn fill_miss_later_draw_overwrites_earlier() {
    let mut c = SqrtCache::new();
    assert_eq!(c.fill_miss(100, 7, 7, 7), 10);
    assert_eq!(c.slot(7), entry(101, 10));
    assert_eq!(c.lookup(99), None);
    assert_eq!(c.lookup(100), None);
    assert_eq!(c.fill_miss(50, 8, 9, 8), 7);
    assert_eq!(c.slot(8), entry(51, 7));
    assert_eq!(c.slot(9), entry(50, 7));
}

#[test]
fn boundary_key_zero_skips_negative_candidate() {
    let mut c = SqrtCache::new();
    c.fill_miss(100, 5, 50, 51);
    assert_eq!(c.slot(5), entry(99, 9));
    assert_eq!(c.fill_miss(0, 5, 6, 7), 0);
    assert_eq!(c.slot(5), entry(99, 9));
    assert_eq!(c.slot(6), entry(0, 0));
    assert_eq!(c.slot(7), entry(1, 1));
    assert_eq!(c.lookup(255), None);
}

#[test]
fn boundary_key_zero_query() {
    let mut c = SqrtCache::new();
    assert_eq!(c.cache_calculate(0), 0);
    let mut d = SqrtCache::new();
    d.fill_miss(7, 0, 1, 2);
    d.fill_miss(7, 3, 4, 5);
    for i in 0..CACHE_SIZE {
        d.fill_miss(40, i, i, i);
    }
    assert_eq!(d.lookup(0), None);
    assert_eq!(d.cache_calculate(0), 0);
    assert_eq!(d.lookup(255), None);
    assert_eq!(d.lookup(1), Some(1));
}

#[test]
fn boundary_key_max_skips_overflowing_candidate() {
    let mut c = SqrtCache::new();
    c.fill_miss(100, 5, 50, 51);
    assert_eq!(c.fill_miss(255, 1, 2, 5), 15);
    assert_eq!(c.slot(1), entry(254, 15));
    assert_eq!(c.slot(2), entry(255, 15));
    assert_eq!(c.slot(5), entry(99, 9));
    assert_eq!(c.lookup(0), Some(0));
    assert_eq!(c.cache_calculate(0), 0);
    assert_eq!(c.cache_calculate(255), 15);
}

#[test]
fn concrete_sixteen_then_fifteen() {
    let mut c = SqrtCache::new();
    assert_eq!(c.cache_calculate(16), 4);
    assert_eq!(c.cache_calculate(15), 3);
}

#[test]
fn repeated_hit_returns_same_value_without_change() {
    let mut c = SqrtCache::new();
    assert_eq!(c.fill_miss(16, 1, 2, 3), 4);
    let before = slots(&c);
    assert_eq!(c.cache_calculate(16), 4);
    assert_eq!(slots(&c), before);
    assert_eq!(c.cache_calculate(16), 4);
    assert_eq!(slots(&c), before);
}

#[test]
fn repeated_query_after_random_miss() {
    let mut c = SqrtCache::new();
    let first = c.cache_calculate(200);
    assert_eq!(first, 14);
    if c.lookup(200).is_some() {
        let before = slots(&c);
        assert_eq!(c.cache_calculate(200), first);
        assert_eq!(slots(&c), before);
    }
}

#[test]
fn random_miss_writes_the_upper_neighbor() {
    let mut c = SqrtCache::new();
    assert_eq!(c.cache_calculate(200), 14);
    assert_eq!(c.len(), CACHE_SIZE);
    assert_eq!(c.lookup(201), Some(14));
    let changed = slots(&c).iter().filter(|e| **e != entry(0, 0)).count();
    assert!(changed >= 1 && changed <= 3);
}

#[test]
fn slot_count_never_changes() {
    let mut c = SqrtCache::new();
    for i in 0..1000u32 {
        c.cache_calculate((i * 7 % 256) as u8);
        assert_eq!(c.len(), CACHE_SIZE);
    }
}

#[test]
fn long_run_always_correct() {
    let mut c = SqrtCache::new();
    let mut key: u64 = 1;
    for _ in 0..100_000u32 {
        key = (key * 1_103_515_245 + 12_345) % 65_536;
        let k = (key % 256) as u8;
        let expected = (k as f64).sqrt() as u8;
        assert_eq!(c.cache_calculate(k), expected, "key = {}", k);
    }
    assert_eq!(c.len(), CACHE_SIZE);
}

#[test]
fn every_key_correct_from_fresh_cache() {
    for k in 0..=255u8 {
        let mut c = SqrtCache::new();
        assert_eq!(c.cache_calculate(k), floor_sqrt(k));
    }
}
