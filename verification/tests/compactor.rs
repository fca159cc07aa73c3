use datasketches::common::random::seed_from_reading;
use datasketches::req::keys::i64_from_key;
use datasketches::req::keys::i64_key;
use datasketches::common::random::random_bit;
use datasketches::req::compactor::compare;
use datasketches::req::compactor::merge_sorted;
use datasketches::req::compactor::ReqCompactor;
use datasketches::req::MIN_K;
use std::cmp::Ordering;

/// Rounds to the nearest even integer, as the sketch does for section sizes.
fn nearest_even(value: f32) -> u32 {
    ((value / 2.0).round() as u32) << 1
}

/// The section sizes that successive shrinks of `section_size` give, up to and
/// including the first one below `MIN_K`.
fn schedule(section_size: u32) -> Vec<u32> {
    let mut raw = section_size as f32;
    let mut out = Vec::new();
    loop {
        raw /= std::f32::consts::SQRT_2;
        let ne = nearest_even(raw);
        out.push(ne);
        if ne < u32::from(MIN_K) {
            return out;
        }
    }
}

fn new_compactor(hra: bool, lg_weight: u8, section_size: u32) -> ReqCompactor {
    ReqCompactor::new(hra, lg_weight, section_size, schedule(section_size))
}

/// Fills a compactor to its nominal capacity with ascending values.
fn filled(hra: bool, lg_weight: u8, section_size: u32, n: u32) -> ReqCompactor {
    let mut c = new_compactor(hra, lg_weight, section_size);
    for i in 0..n {
        c.append(i as u64);
    }
    c.sort();
    c
}

/// Total weight held by a compactor (items count * 2^lg_weight)
fn total_weight(c: &ReqCompactor) -> u64 {
    (c.num_items() as u64) << c.lg_weight()
}

#[test]
fn test_merge_sorted_empty_sides() {
    assert_eq!(merge_sorted(vec![1, 2], Vec::new()), vec![1, 2]);
    assert_eq!(merge_sorted(Vec::new(), vec![1, 2]), vec![1, 2]);
    assert_eq!(merge_sorted(Vec::new(), Vec::new()), Vec::<u64>::new());
}

#[test]
fn test_hra_compacts_the_low_end() {
    let c = filled(true, 0, 12, 72);
    assert_eq!(c.compute_compaction_range(1), (0, 12));
    assert_eq!(c.compute_compaction_range(2), (0, 24));
    assert_eq!(c.compute_compaction_range(3), (0, 36));
}

#[test]
fn test_lra_mirrors_hra() {
    let c = filled(false, 0, 12, 72);
    assert_eq!(c.compute_compaction_range(1), (60, 72));
    assert_eq!(c.compute_compaction_range(2), (48, 72));
    assert_eq!(c.compute_compaction_range(3), (36, 72));
}

#[test]
fn test_compact_preserves_total_weight() {
    let mut c = filled(true, 0, 12, 72);
    let mut next = new_compactor(true, 1, 12);
    let before = total_weight(&c) + total_weight(&next);
    let mut rng: u64 = 1;
    c.compact(&mut next, &mut rng);
    assert_eq!(
        total_weight(&c) + total_weight(&next),
        before,
        "compaction must preserve total weight exactly"
    );
}

#[test]
fn schedule_of_twelve() {
    assert_eq!(schedule(12), vec![8, 6, 4, 4, 2]);
}

#[test]
fn compare_orders_keys() {
    assert_eq!(compare(&1, &2), Ordering::Less);
    assert_eq!(compare(&2, &2), Ordering::Equal);
    assert_eq!(compare(&3, &2), Ordering::Greater);
}

#[test]
fn merge_sorted_interleaves_and_keeps_duplicates() {
    assert_eq!(
        merge_sorted(vec![1, 3, 3, 7], vec![2, 3, 8]),
        vec![1, 2, 3, 3, 3, 7, 8]
    );
}

#[test]
fn new_compactor_is_empty_and_sorted() {
    let c = new_compactor(true, 2, 12);
    assert_eq!(c.num_items(), 0);
    assert_eq!(c.lg_weight(), 2);
    assert!(c.is_sorted());
    assert_eq!(c.state(), 0);
    assert_eq!(c.section_size(), 12);
    assert_eq!(c.num_sections(), 3);
    assert_eq!(c.nom_capacity(), 72);
    assert!(c.items().is_empty());
}

#[test]
fn append_keeps_single_item_sorted() {
    let mut c = new_compactor(true, 0, 12);
    c.append(5);
    assert!(c.is_sorted());
    c.append(3);
    assert!(!c.is_sorted());
    assert_eq!(c.items(), &[5, 3]);
    c.sort();
    assert!(c.is_sorted());
    assert_eq!(c.items(), &[3, 5]);
}

#[test]
fn compute_weight_counts_at_most_or_below() {
    let mut c = new_compactor(true, 2, 12);
    for v in [7u64, 1, 5, 5, 3] {
        c.append(v);
    }
    assert_eq!(c.compute_weight(5, true), 4 << 2);
    assert!(c.is_sorted());
    assert_eq!(c.items(), &[1, 3, 5, 5, 7]);
    assert_eq!(c.compute_weight(5, false), 2 << 2);
    assert_eq!(c.compute_weight(0, true), 0);
    assert_eq!(c.compute_weight(100, false), 5 << 2);
}

#[test]
fn compact_promotes_every_other_item_of_the_low_end() {
    let mut c = filled(true, 0, 12, 72);
    let mut next = new_compactor(true, 1, 12);
    // state 0 is even, so the coin is drawn: the step from 1 has top bit 0.
    let mut rng: u64 = 1;
    assert_eq!(c.compact(&mut next, &mut rng), (6, 0));
    assert_eq!(rng, 1082269761);
    assert_eq!(c.num_items(), 60);
    assert_eq!(c.items()[0], 12);
    assert_eq!(next.items(), &[0, 2, 4, 6, 8, 10]);
    assert!(next.is_sorted());
    assert_eq!(c.state(), 1);
}

#[test]
fn compact_with_odd_state_flips_the_coin_without_drawing() {
    let mut c = filled(false, 0, 12, 72);
    let mut next = new_compactor(false, 1, 12);
    let mut rng: u64 = 1;
    c.compact(&mut next, &mut rng);
    assert_eq!(c.state(), 1);
    // Refill, then compact with odd state: the coin flips from false to true.
    let mut i = 0u64;
    while c.num_items() < 72 {
        c.append(1000 + i);
        i += 1;
    }
    c.sort();
    let before_rng = rng;
    assert_eq!(c.compact(&mut next, &mut rng), (12, 0));
    assert_eq!(rng, before_rng);
    assert_eq!(next.num_items(), 6 + 12);
}

#[test]
fn sections_grow_after_enough_compactions() {
    let mut c = new_compactor(true, 0, 12);
    let mut next = new_compactor(true, 1, 12);
    let mut rng: u64 = 1;
    let mut results = Vec::new();
    let mut v = 0u64;
    for _ in 0..4 {
        while c.num_items() < 72 {
            c.append(v);
            v += 1;
        }
        c.sort();
        results.push(c.compact(&mut next, &mut rng));
    }
    assert_eq!(results, vec![(6, 0), (12, 0), (6, 0), (18, 24)]);
    assert_eq!(c.state(), 4);
    assert_eq!(c.num_sections(), 6);
    assert_eq!(c.section_size(), 8);
    assert_eq!(c.nom_capacity(), 96);
    assert_eq!(c.num_items(), 36);
    assert_eq!(next.num_items(), 42);
}

#[test]
fn ensure_enough_sections_needs_enough_compactions() {
    let mut c = new_compactor(true, 0, 12);
    assert!(!c.ensure_enough_sections());
    assert_eq!(c.num_sections(), 3);
    assert_eq!(c.section_size(), 12);
}

#[test]
fn merge_combines_items_and_states() {
    let mut a = new_compactor(true, 0, 12);
    for v in [5u64, 1, 3] {
        a.append(v);
    }
    let mut b = new_compactor(true, 0, 12);
    for v in [4u64, 2] {
        b.append(v);
    }
    a.merge(&b);
    assert_eq!(a.items(), &[1, 2, 3, 4, 5]);
    assert!(a.is_sorted());
    assert_eq!(a.state(), 0);
    assert_eq!(b.items(), &[4, 2]);
}

#[test]
fn merge_grows_sections_until_settled() {
    // Build a compactor whose state reaches 4 through compactions, then merge
    // it into a fresh one: the merged state calls for one growth.
    let mut src = new_compactor(true, 0, 12);
    let mut sink = new_compactor(true, 1, 12);
    let mut rng: u64 = 1;
    let mut v = 0u64;
    for _ in 0..4 {
        while src.num_items() < 72 {
            src.append(v);
            v += 1;
        }
        src.sort();
        src.compact(&mut sink, &mut rng);
    }
    let mut fresh = new_compactor(true, 0, 12);
    fresh.merge(&src);
    assert_eq!(fresh.state(), 4);
    assert_eq!(fresh.num_sections(), 6);
    assert_eq!(fresh.section_size(), 8);
    assert_eq!(fresh.num_items(), 36);
    assert!(fresh.is_sorted());
    assert!(!fresh.ensure_enough_sections());
    assert_eq!(fresh.num_sections(), 6);
}

#[test]
fn random_bit_steps_xorshift() {
    let mut s: u64 = 1;
    assert!(!random_bit(&mut s));
    assert_eq!(s, 1082269761);
    let mut t: u64 = 9181757771948286951;
    assert!(random_bit(&mut t));
    assert_eq!(t, 16460966181113277408);
}

#[test]
fn seed_is_never_zero() {
    assert_ne!(datasketches::common::random::seed(), 0);
    assert_eq!(datasketches::common::random::seed_from_nanos(0), 0x2545_F491_4F6C_DD1D);
    assert_eq!(datasketches::common::random::seed_from_nanos(42), 42);
}

#[test]
fn seed_from_reading_truncates_and_falls_back() {
    assert_eq!(seed_from_reading(None), 0x2545_F491_4F6C_DD1D);
    assert_eq!(seed_from_reading(Some(0)), 0x2545_F491_4F6C_DD1D);
    assert_eq!(seed_from_reading(Some(7)), 7);
    assert_eq!(seed_from_reading(Some((5u128 << 64) | 9)), 9);
    assert_eq!(seed_from_reading(Some(1u128 << 64)), 0x2545_F491_4F6C_DD1D);
}

#[test]
fn i64_keys_keep_order_and_invert() {
    assert_eq!(i64_key(i64::MIN), 0);
    assert_eq!(i64_key(-1), (1u64 << 63) - 1);
    assert_eq!(i64_key(0), 1u64 << 63);
    assert_eq!(i64_key(i64::MAX), u64::MAX);
    for x in [i64::MIN, -5, -1, 0, 1, 42, i64::MAX] {
        assert_eq!(i64_from_key(i64_key(x)), x);
    }
    assert!(i64_key(-5) < i64_key(3));
}

#[test]
fn can_compact_a_full_sorted_compactor() {
    let c = filled(true, 0, 12, 72);
    let next = new_compactor(true, 1, 12);
    assert!(c.can_compact(&next));
    // Too few items: the kept part would exceed what is held.
    let small = filled(true, 0, 12, 40);
    assert!(!small.can_compact(&next));
    // Unsorted items cannot be compacted.
    let mut unsorted = filled(true, 0, 12, 72);
    unsorted.append(0);
    assert!(!unsorted.can_compact(&next));
}

#[test]
fn section_size_stays_even_as_sections_grow() {
    let mut c = new_compactor(true, 0, 12);
    let mut next = new_compactor(true, 1, 12);
    let mut rng: u64 = 1;
    let mut v = 0u64;
    for _ in 0..4 {
        while c.num_items() < c.nom_capacity() {
            c.append(v);
            v += 1;
        }
        c.sort();
        c.compact(&mut next, &mut rng);
        assert_eq!(c.section_size() % 2, 0);
    }
    assert_eq!(c.section_size(), 8);
}
