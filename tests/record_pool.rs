use nadac_report::amount::Amount;
use nadac_report::record_pool::{PoolType, RecordPool};
use nadac_report::registry::DescriptionRegistry;

#[test]
fn test_insert_with_most_pool() {
    let mut pool = RecordPool::new(3, PoolType::Most).unwrap();

    let d1 = Amount::new(1, 0);
    let d2 = Amount::new(2, 0);
    let d3 = Amount::new(3, 0);
    let d4 = Amount::new(4, 0);
    let d5 = Amount::new(5, 0);
    let d6 = Amount::new(32, 1);

    pool.insert(d1.clone(), 1);
    pool.insert(d2.clone(), 2);
    pool.insert(d3.clone(), 3);
    pool.insert(d4.clone(), 4);
    pool.insert(d5.clone(), 5);
    pool.insert(d6.clone(), 6);

    assert_eq!(pool.records.len(), 3);

    let mut counter = 0;
    let mut it = pool.iter();
    while let Some(record) = it.next() {
        if counter == 0 {
            assert_eq!(record.0, d6);
        } else if counter == 1 {
            assert_eq!(record.0, d4);
        } else if counter == 2 {
            assert_eq!(record.0, d5);
        }

        counter += 1;
    }
}

#[test]
fn test_insert_with_least_pool() {
    let mut pool = RecordPool::new(3, PoolType::Least).unwrap();

    let d1 = Amount::new(-1, 0);
    let d2 = Amount::new(-2, 0);
    let d3 = Amount::new(-3, 0);
    let d4 = Amount::new(-4, 0);
    let d5 = Amount::new(-5, 0);
    let d6 = Amount::new(-32, 1);

    pool.insert(d1.clone(), 1);
    pool.insert(d2.clone(), 2);
    pool.insert(d3.clone(), 3);
    pool.insert(d4.clone(), 4);
    pool.insert(d5.clone(), 5);
    pool.insert(d6.clone(), 6);

    assert_eq!(pool.records.len(), 3);

    let mut counter = 0;
    let mut it = pool.iter();
    while let Some(record) = it.next_back() {
        if counter == 0 {
            assert_eq!(record.0, d6);
        } else if counter == 1 {
            assert_eq!(record.0, d4);
        } else if counter == 2 {
            assert_eq!(record.0, d5);
        }

        counter += 1;
    }
}

fn scenario(pool_type: PoolType, sign: i64) -> (RecordPool, DescriptionRegistry) {
    let mut pool = RecordPool::new(3, pool_type).unwrap();
    let mut registry = DescriptionRegistry::new();
    let inputs = [(10, "a"), (20, "b"), (30, "c"), (40, "d"), (50, "e"), (32, "f")];
    for (tenths, description) in inputs {
        let code = registry.code_for_description(description).unwrap();
        if let Some((_, evicted)) = pool.insert(Amount::new(sign * tenths, 1), code) {
            registry.cleanup_descriptions(evicted);
        }
    }
    (pool, registry)
}

fn contents(pool: &RecordPool, registry: &DescriptionRegistry) -> Vec<(Amount, String)> {
    let mut out = Vec::new();
    let mut it = pool.iter();
    while let Some((d, code)) = it.next() {
        out.push((d, registry.get_description_for_code(code).unwrap()));
    }
    out
}

#[test]
fn largest_three_with_descriptions() {
    let (pool, registry) = scenario(PoolType::Most, 1);
    assert_eq!(
        contents(&pool, &registry),
        vec![
            (Amount::new(32, 1), "f".to_string()),
            (Amount::new(40, 1), "d".to_string()),
            (Amount::new(50, 1), "e".to_string()),
        ]
    );
    let mut it = pool.iter();
    let mut descending = Vec::new();
    while let Some((d, _)) = it.next_back() {
        descending.push(d);
    }
    assert_eq!(descending, vec![Amount::new(50, 1), Amount::new(40, 1), Amount::new(32, 1)]);
    // The evicted descriptions are gone.
    for code in 0..3 {
        assert_eq!(registry.get_description_for_code(code), None);
    }
}

#[test]
fn smallest_three_with_descriptions() {
    let (pool, registry) = scenario(PoolType::Least, -1);
    assert_eq!(
        contents(&pool, &registry),
        vec![
            (Amount::new(-50, 1), "e".to_string()),
            (Amount::new(-40, 1), "d".to_string()),
            (Amount::new(-32, 1), "f".to_string()),
        ]
    );
}

#[test]
fn zero_bounds_refused() {
    assert!(RecordPool::new(0, PoolType::Most).is_err());
    assert!(RecordPool::new(0, PoolType::Least).is_err());
}

#[test]
fn fits_while_room_then_by_range() {
    let mut pool = RecordPool::new(2, PoolType::Most).unwrap();
    assert!(pool.fits(&Amount::new(-100, 0)));
    pool.insert(Amount::new(1, 0), 0);
    pool.insert(Amount::new(3, 0), 1);
    // Full: beyond the largest, or within [smallest, largest].
    assert!(pool.fits(&Amount::new(4, 0)));
    assert!(pool.fits(&Amount::new(2, 0)));
    assert!(pool.fits(&Amount::new(1, 0)));
    assert!(!pool.fits(&Amount::new(5, 1)));

    let mut least = RecordPool::new(2, PoolType::Least).unwrap();
    least.insert(Amount::new(1, 0), 0);
    least.insert(Amount::new(3, 0), 1);
    assert!(least.fits(&Amount::new(0, 0)));
    assert!(least.fits(&Amount::new(3, 0)));
    assert!(!least.fits(&Amount::new(31, 1)));
}

#[test]
fn equal_values_at_other_scales_are_one_key() {
    let mut pool = RecordPool::new(3, PoolType::Most).unwrap();
    assert_eq!(pool.insert(Amount::new(15, 1), 7), None);
    // 1.50 is the number 1.5: its code replaces the old one, with no new entry.
    assert_eq!(pool.insert(Amount::new(150, 2), 8), None);
    assert_eq!(pool.records, vec![(Amount::new(15, 1), 8)]);
    // The same value and code again changes nothing.
    assert_eq!(pool.insert(Amount::new(15, 1), 8), None);
    assert_eq!(pool.records.len(), 1);
}

#[test]
fn eviction_returns_the_dropped_entry() {
    let mut most = RecordPool::new(2, PoolType::Most).unwrap();
    most.insert(Amount::new(5, 0), 0);
    most.insert(Amount::new(7, 0), 1);
    assert_eq!(most.insert(Amount::new(6, 0), 2), Some((Amount::new(5, 0), 0)));
    assert_eq!(most.insert(Amount::new(1, 0), 3), None);

    let mut least = RecordPool::new(2, PoolType::Least).unwrap();
    least.insert(Amount::new(5, 0), 0);
    least.insert(Amount::new(7, 0), 1);
    assert_eq!(least.insert(Amount::new(6, 0), 2), Some((Amount::new(7, 0), 1)));
}

#[test]
fn iterators_are_independent_and_restartable() {
    let mut pool = RecordPool::new(3, PoolType::Most).unwrap();
    let mut empty = pool.iter();
    assert_eq!(empty.next(), None);
    assert_eq!(empty.next_back(), None);
    pool.insert(Amount::new(2, 0), 0);
    pool.insert(Amount::new(1, 0), 1);
    let mut it = pool.iter();
    assert_eq!(it.next(), Some((Amount::new(1, 0), 1)));
    assert_eq!(it.next_back(), Some((Amount::new(2, 0), 0)));
    assert_eq!(it.next_back(), Some((Amount::new(1, 0), 1)));
    assert_eq!(it.next_back(), None);
    assert_eq!(it.next(), Some((Amount::new(2, 0), 0)));
    assert_eq!(it.next(), None);
    let mut again = pool.iter();
    assert_eq!(again.next(), Some((Amount::new(1, 0), 1)));
}

#[test]
fn pool_holds_the_largest_of_all_offered() {
    let values: Vec<i64> = vec![17, -3, 42, 8, 8, 99, -50, 23, 42, 0, 61, 5, 77, -1, 30];
    for n in 1..6usize {
        let mut most = RecordPool::new(n, PoolType::Most).unwrap();
        let mut least = RecordPool::new(n, PoolType::Least).unwrap();
        for (i, v) in values.iter().enumerate() {
            most.insert(Amount::new(*v, 0), i);
            least.insert(Amount::new(*v, 0), i);
            assert!(most.records.len() <= n && least.records.len() <= n);
        }
        let mut distinct = values.clone();
        distinct.sort();
        distinct.dedup();
        let k = n.min(distinct.len());
        let top: Vec<i128> = most.records.iter().map(|e| e.0.mantissa).collect();
        let bottom: Vec<i128> = least.records.iter().map(|e| e.0.mantissa).collect();
        let want_top: Vec<i128> =
            distinct[distinct.len() - k..].iter().map(|v| *v as i128).collect();
        let want_bottom: Vec<i128> = distinct[..k].iter().map(|v| *v as i128).collect();
        assert_eq!(top, want_top);
        assert_eq!(bottom, want_bottom);
    }
}

#[test]
fn intern_then_lookup_round_trips() {
    let mut registry = DescriptionRegistry::new();
    let a = registry.code_for_description("ACETAMINOPHEN 500 MG").unwrap();
    let b = registry.code_for_description("IBUPROFEN").unwrap();
    assert_eq!(a, 0);
    assert_eq!(b, 1);
    assert_eq!(registry.get_description_for_code(a), Some("ACETAMINOPHEN 500 MG".to_string()));
    assert_eq!(registry.get_description_for_code(b), Some("IBUPROFEN".to_string()));
    assert_eq!(registry.code_for_description("IBUPROFEN"), Some(1));
    assert_eq!(registry.use_count(b), 2);
    registry.cleanup_descriptions(b);
    assert_eq!(registry.get_description_for_code(b), Some("IBUPROFEN".to_string()));
    registry.cleanup_descriptions(b);
    assert_eq!(registry.get_description_for_code(b), None);
    assert_eq!(registry.use_count(b), 0);
    // Releasing an unknown code changes nothing; codes are never reused.
    registry.cleanup_descriptions(b);
    assert_eq!(registry.code_for_description("IBUPROFEN"), Some(2));
    assert_eq!(registry.use_count(a), 1);
}
