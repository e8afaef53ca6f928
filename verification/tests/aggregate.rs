use onebrc::table::{StationAggregate, StationTable};
use onebrc::StationAggregateTmp;

fn fields(tally: &StationAggregateTmp) -> (i64, i64, i128, u64) {
    (tally.min(), tally.max(), tally.total(), tally.count())
}

fn table_of(readings: &[(&[u8], i64)]) -> StationTable {
    let mut table = StationTable::new();
    for (name, tenths) in readings {
        table.record(name, *tenths);
    }
    table
}

#[test]
fn default_is_the_identity() {
    let tally = StationAggregateTmp::default();
    assert_eq!(fields(&tally), (i64::MAX, i64::MIN, 0, 0));
}

#[test]
fn first_reading_sets_both_extremes() {
    let mut tally = StationAggregateTmp::default();
    tally.observe(-5);
    assert_eq!(fields(&tally), (-5, -5, -5, 1));
}

#[test]
fn observe_keeps_extremes_sum_and_number() {
    let mut tally = StationAggregateTmp::default();
    tally.observe(50);
    tally.observe(-30);
    tally.observe(20);
    assert_eq!(fields(&tally), (-30, 50, 40, 3));
}

#[test]
fn merge_folds_two_aggregates() {
    let mut a = StationAggregateTmp::default();
    a.observe(10);
    a.observe(70);
    let mut b = StationAggregateTmp::default();
    b.observe(-20);
    a.merge(&b);
    assert_eq!(fields(&a), (-20, 70, 60, 3));
}

#[test]
fn merge_with_the_identity_changes_nothing() {
    let mut a = StationAggregateTmp::default();
    a.observe(10);
    a.merge(&StationAggregateTmp::default());
    assert_eq!(fields(&a), (10, 10, 10, 1));
    let mut e = StationAggregateTmp::default();
    e.merge(&a);
    assert_eq!(fields(&e), (10, 10, 10, 1));
}

#[test]
fn merge_is_commutative_and_associative() {
    let build = |values: &[i64]| {
        let mut tally = StationAggregateTmp::default();
        for v in values {
            tally.observe(*v);
        }
        tally
    };
    let (a, b, c) = (build(&[1, 900]), build(&[-999]), build(&[5, 5, 5]));
    let mut ab = a;
    ab.merge(&b);
    let mut ba = b;
    ba.merge(&a);
    assert_eq!(fields(&ab), fields(&ba));
    let mut ab_c = ab;
    ab_c.merge(&c);
    let mut bc = b;
    bc.merge(&c);
    let mut a_bc = a;
    a_bc.merge(&bc);
    assert_eq!(fields(&ab_c), fields(&a_bc));
    assert_eq!(fields(&ab_c), (-999, 900, -83, 6));
}

#[test]
fn table_starts_empty() {
    let table = StationTable::new();
    assert!(table.get(b"a").is_none());
    assert_eq!(table.finalize(), vec![]);
}

#[test]
fn table_records_by_station() {
    let table = table_of(&[(b"b", 10), (b"a", -5), (b"b", 30), (b"c", 0)]);
    assert_eq!(table.finalize().len(), 3);
    assert_eq!(fields(&table.get(b"a").unwrap()), (-5, -5, -5, 1));
    assert_eq!(fields(&table.get(b"b").unwrap()), (10, 30, 40, 2));
    assert_eq!(fields(&table.get(b"c").unwrap()), (0, 0, 0, 1));
    assert!(table.get(b"d").is_none());
    assert!(table.get(b"").is_none());
}

#[test]
fn table_folds_in_an_aggregate() {
    let mut table = table_of(&[(b"a", 10)]);
    let mut tally = StationAggregateTmp::default();
    tally.observe(-10);
    tally.observe(40);
    table.fold_in(b"a", &tally);
    table.fold_in(b"z", &tally);
    assert_eq!(fields(&table.get(b"a").unwrap()), (-10, 40, 40, 3));
    assert_eq!(fields(&table.get(b"z").unwrap()), (-10, 40, 30, 2));
}

#[test]
fn finalize_lists_stations_in_ascending_order() {
    let table = table_of(&[(b"m", 1), (b"z", 2), (b"a", 3), (b"mm", 4), (b"b", 5), (b"a", 7)]);
    let out = table.finalize();
    let expected = vec![
        StationAggregate { name: b"a".to_vec(), min: 3, max: 7, total: 10, count: 2 },
        StationAggregate { name: b"b".to_vec(), min: 5, max: 5, total: 5, count: 1 },
        StationAggregate { name: b"m".to_vec(), min: 1, max: 1, total: 1, count: 1 },
        StationAggregate { name: b"mm".to_vec(), min: 4, max: 4, total: 4, count: 1 },
        StationAggregate { name: b"z".to_vec(), min: 2, max: 2, total: 2, count: 1 },
    ];
    assert_eq!(out, expected);
    for pair in out.windows(2) {
        assert!(pair[0].name < pair[1].name);
    }
}

#[test]
fn tables_merge_station_by_station() {
    let mut a = table_of(&[(b"x", 10), (b"y", 20)]);
    let b = table_of(&[(b"y", -20), (b"z", 5), (b"y", 100)]);
    a.merge(&b);
    let expected = vec![
        StationAggregate { name: b"x".to_vec(), min: 10, max: 10, total: 10, count: 1 },
        StationAggregate { name: b"y".to_vec(), min: -20, max: 100, total: 100, count: 3 },
        StationAggregate { name: b"z".to_vec(), min: 5, max: 5, total: 5, count: 1 },
    ];
    assert_eq!(a.finalize(), expected);
}

#[test]
fn tables_merge_the_same_in_any_order() {
    let parts: [&[(&[u8], i64)]; 3] = [
        &[(b"x", 10), (b"y", 20)],
        &[(b"y", -20), (b"z", 5)],
        &[(b"x", 999), (b"w", -999), (b"z", 0)],
    ];
    let orders = [[0, 1, 2], [0, 2, 1], [1, 0, 2], [1, 2, 0], [2, 0, 1], [2, 1, 0]];
    let mut results = Vec::new();
    for order in orders {
        let mut table = StationTable::new();
        for i in order {
            table.merge(&table_of(parts[i]));
        }
        results.push(table.finalize());
    }
    for result in &results {
        assert_eq!(result, &results[0]);
    }
    assert_eq!(results[0].len(), 4);
    assert_eq!(
        results[0][1],
        StationAggregate { name: b"x".to_vec(), min: 10, max: 999, total: 1009, count: 2 }
    );
}
