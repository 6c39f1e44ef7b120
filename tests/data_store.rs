use nadac_report::amount::Amount;
use nadac_report::data_store::{DataStore, StoreError};

fn entries(store: &DataStore, top: bool) -> Vec<(i128, u32, String)> {
    let pool = if top { store.get_top() } else { store.get_bottom() };
    let mut out = Vec::new();
    let mut it = pool.iter();
    while let Some((d, code)) = it.next() {
        out.push((d.mantissa, d.scale, store.get_description_for_code(code).unwrap()));
    }
    out
}

fn row(description: &str, start: &str, end: &str) -> Vec<String> {
    vec![description.to_string(), "00000".to_string(), start.to_string(), end.to_string()]
}

#[test]
fn zero_size_refused() {
    assert!(DataStore::new(0).is_err());
    assert!(DataStore::new(1).is_ok());
}

#[test]
fn shared_description_counted_and_dropped() {
    let mut store = DataStore::new(2).unwrap();
    let n = |v: i64| Amount::new(v, 0);
    store.record("x", n(0), n(10)).unwrap();
    store.record("x", n(0), n(20)).unwrap();
    // One code for the shared text, used twice.
    assert_eq!(store.registry.use_count(0), 2);
    assert_eq!(store.get_description_for_code(0), Some("x".to_string()));
    assert_eq!(store.get_description_for_code(1), None);

    // 30 evicts 10 from the top; 10 moves to the empty bottom pool.
    store.record("y", n(0), n(30)).unwrap();
    assert_eq!(store.registry.use_count(0), 2);
    store.record("z", n(0), n(5)).unwrap();
    // 1 evicts 10 from the bottom; the top does not take it, so it is dropped.
    store.record("w", n(0), n(1)).unwrap();
    assert_eq!(store.registry.use_count(0), 1);
    assert_eq!(store.get_description_for_code(0), Some("x".to_string()));
    // 40 evicts 20 from the top; the bottom does not take it either.
    store.record("v", n(0), n(40)).unwrap();
    assert_eq!(store.registry.use_count(0), 0);
    assert_eq!(store.get_description_for_code(0), None);

    assert_eq!(
        entries(&store, true),
        vec![(30, 0, "y".to_string()), (40, 0, "v".to_string())]
    );
    assert_eq!(
        entries(&store, false),
        vec![(1, 0, "w".to_string()), (5, 0, "z".to_string())]
    );
}

#[test]
fn recording_a_retained_value_again() {
    let mut store = DataStore::new(3).unwrap();
    store.record("a", Amount::new(100, 2), Amount::new(250, 2)).unwrap();
    let top = entries(&store, true);
    let code_uses = store.registry.use_count(0);
    store.record("a", Amount::new(100, 2), Amount::new(250, 2)).unwrap();
    assert_eq!(entries(&store, true), top);
    assert_eq!(store.get_bottom().records.len(), 0);
    // Nothing changes: the entry already stands under this description's code.
    assert_eq!(code_uses, 1);
    assert_eq!(store.registry.use_count(0), 1);
    assert_eq!(store.get_description_for_code(0), Some("a".to_string()));
}

#[test]
fn new_description_for_a_held_difference_releases_the_old_one() {
    let mut store = DataStore::new(2).unwrap();
    store.record("old", Amount::new(0, 0), Amount::new(15, 1)).unwrap();
    // The same number written at another scale, with another description.
    store.record("new", Amount::new(0, 0), Amount::new(150, 2)).unwrap();
    assert_eq!(entries(&store, true), vec![(15, 1, "new".to_string())]);
    assert_eq!(store.registry.use_count(0), 0);
    assert_eq!(store.get_description_for_code(0), None);
    assert_eq!(store.registry.use_count(1), 1);
    assert_eq!(store.get_bottom().records.len(), 0);
}

#[test]
fn sizes_stay_within_capacity() {
    for n in 1..5usize {
        let mut store = DataStore::new(n).unwrap();
        for i in 0..40i64 {
            let change = (i * 37) % 23 - 11;
            store.record(&format!("item {}", i % 7), Amount::new(0, 0), Amount::new(change, 1))
                .unwrap();
            assert!(store.get_top().records.len() <= n);
            assert!(store.get_bottom().records.len() <= n);
        }
        let total: usize = (0..40).map(|c| store.registry.use_count(c)).sum();
        assert_eq!(total, store.get_top().records.len() + store.get_bottom().records.len());
    }
}

#[test]
fn insert_parses_the_fields() {
    let mut store = DataStore::new(2).unwrap();
    store.insert(&row("DRUG A", "1.50", "2.75")).unwrap();
    store.insert(&row("DRUG B", "3.00", "1.00")).unwrap();
    store.insert(&row("DRUG C", "-0.5", "0.25")).unwrap();
    // 2.75 - 1.50, 1.00 - 3.00, 0.25 - (-0.5)
    assert_eq!(
        entries(&store, true),
        vec![(75, 2, "DRUG C".to_string()), (125, 2, "DRUG A".to_string())]
    );
    assert_eq!(entries(&store, false), vec![(-200, 2, "DRUG B".to_string())]);
}

#[test]
fn insert_reports_each_missing_or_bad_field() {
    let mut store = DataStore::new(2).unwrap();
    let short = vec!["DRUG".to_string(), "x".to_string()];
    assert_eq!(store.insert(&short), Err(StoreError::MissingStartPrice));
    let bad_start = row("DRUG", "abc", "1.0");
    assert_eq!(store.insert(&bad_start), Err(StoreError::InvalidStartPrice));
    let no_end = vec!["DRUG".to_string(), "x".to_string(), "1.0".to_string()];
    assert_eq!(store.insert(&no_end), Err(StoreError::MissingEndPrice));
    let bad_end = row("DRUG", "1.0", "");
    assert_eq!(store.insert(&bad_end), Err(StoreError::InvalidEndPrice));
    assert_eq!(store.get_top().records.len(), 0);
    assert_eq!(store.registry.use_count(0), 0);
}

#[test]
fn difference_overflow_reported() {
    let mut store = DataStore::new(2).unwrap();
    let big = Amount { mantissa: 0xFFFF_FFFF_FFFF_FFFF_FFFF_FFFF, scale: 0 };
    let low = Amount { mantissa: -0xFFFF_FFFF_FFFF_FFFF_FFFF_FFFF, scale: 0 };
    assert_eq!(store.record("huge", low, big), Err(StoreError::DifferenceOverflow));
    assert_eq!(store.get_top().records.len(), 0);
}

#[test]
fn difference_is_end_minus_start() {
    let mut store = DataStore::new(1).unwrap();
    store.record("d", Amount::new(5, 1), Amount::new(2, 0)).unwrap();
    assert_eq!(entries(&store, true), vec![(15, 1, "d".to_string())]);
}

#[test]
fn value_refused_by_both_pools_interns_nothing() {
    let mut store = DataStore::new(1).unwrap();
    let n = |v: i64| Amount::new(v, 0);
    store.record("hi", n(0), n(10)).unwrap();
    store.record("lo", n(0), n(-10)).unwrap();
    store.record("mid", n(0), n(3)).unwrap();
    assert_eq!(store.get_description_for_code(2), None);
    assert_eq!(store.registry.use_count(2), 0);
    store.record("next", n(0), n(11)).unwrap();
    // Code 2 was never handed out, so the new description takes it.
    assert_eq!(entries(&store, true), vec![(11, 0, "next".to_string())]);
    assert_eq!(store.get_description_for_code(2), Some("next".to_string()));
}

#[test]
fn use_counts_sum_to_pool_sizes_for_distinct_values() {
    let mut store = DataStore::new(3).unwrap();
    let changes: Vec<i64> = vec![12, -7, 30, 4, -25, 18, 0, -3, 41, -60, 9, 27, -14, 5];
    for (i, change) in changes.iter().enumerate() {
        let description = format!("item {}", i % 4);
        store.record(&description, Amount::new(100, 0), Amount::new(100 + *change, 0)).unwrap();
        let total: usize = (0..10).map(|c| store.registry.use_count(c)).sum();
        assert_eq!(total, store.get_top().records.len() + store.get_bottom().records.len());
        for code in 0..10 {
            let used = store.get_top().records.iter().filter(|e| e.1 == code).count()
                + store.get_bottom().records.iter().filter(|e| e.1 == code).count();
            assert_eq!(store.registry.use_count(code), used);
            assert_eq!(store.get_description_for_code(code).is_some(), used > 0);
        }
    }
    let tops: Vec<i128> = store.get_top().records.iter().map(|e| e.0.mantissa).collect();
    let bottoms: Vec<i128> = store.get_bottom().records.iter().map(|e| e.0.mantissa).collect();
    assert_eq!(tops, vec![27, 30, 41]);
    assert_eq!(bottoms, vec![-60, -25, -14]);
}
