use onebrc::count::{count_lines_concurrent, count_lines_read_line, count_lines_read_to_buf};
use onebrc::engine::combine;
use onebrc::partition::{partition, plan_partitions, section_size, Partition};
use onebrc::reconcile::{pair_intervals, reconcile, BoundaryInterval};
use onebrc::table::StationTable;
use onebrc::worker::{run_worker, WorkerOutcome};
use onebrc::{parse_lines, process, StationAggregate};

const INPUT: &str = "station1;99.9
station3;23.0
station1;-67.4
station1;-55.8
station2;43.3
station2;81.8
station3;-82.2
station2;10.1
station3;-99.9
";

fn outcomes(data: &[u8], workers: usize) -> Vec<WorkerOutcome> {
    (0..workers).map(|index| run_worker(data, workers, index)).collect()
}

fn counted(table: &StationTable) -> u64 {
    table.finalize().iter().map(|station| station.count).sum()
}

fn total_count(stations: &[StationAggregate]) -> u64 {
    stations.iter().map(|station| station.count).sum()
}

#[test]
fn sections_share_the_size_evenly() {
    assert_eq!(section_size(130, 4), 32);
    assert_eq!(section_size(130, 1), 130);
    assert_eq!(section_size(0, 3), 0);
    assert_eq!(section_size(2, 5), 0);
    assert_eq!(partition(130, 4, 0), Partition { start: 0, end: 32 });
    assert_eq!(partition(130, 4, 1), Partition { start: 32, end: 64 });
    assert_eq!(partition(130, 4, 3), Partition { start: 96, end: 128 });
    assert_eq!(partition(130, 1, 0), Partition { start: 0, end: 130 });
}

#[test]
fn plan_lists_one_range_for_each_worker() {
    assert_eq!(
        plan_partitions(10, 3),
        vec![
            Partition { start: 0, end: 3 },
            Partition { start: 3, end: 6 },
            Partition { start: 6, end: 9 },
        ]
    );
}

#[test]
fn more_workers_than_bytes_gives_empty_ranges() {
    let plan = plan_partitions(2, 5);
    assert_eq!(plan.len(), 5);
    for range in plan {
        assert_eq!(range, Partition { start: 0, end: 0 });
    }
    assert_eq!(plan_partitions(0, 3), vec![Partition { start: 0, end: 0 }; 3]);
}

#[test]
fn one_worker_reads_everything() {
    let outcome = run_worker(INPUT.as_bytes(), 1, 0);
    assert_eq!(outcome.skipped_to, None);
    assert_eq!(outcome.stopped_at, None);
    assert_eq!(counted(&outcome.table), 9);
    assert_eq!(outcome.table.finalize(), parse_lines(INPUT.as_bytes()));
}

#[test]
fn two_workers_leave_out_the_line_across_the_boundary() {
    let data = INPUT.as_bytes();
    assert_eq!(data.len(), 130);
    let first = run_worker(data, 2, 0);
    assert_eq!(first.skipped_to, None);
    assert_eq!(first.stopped_at, Some(58));
    assert_eq!(counted(&first.table), 4);
    let second = run_worker(data, 2, 1);
    assert_eq!(second.skipped_to, Some(72));
    assert_eq!(second.stopped_at, None);
    assert_eq!(counted(&second.table), 4);
    assert!(first.table.get(b"station2").is_none());
    assert_eq!(second.table.get(b"station2").unwrap().count(), 2);
}

#[test]
fn four_workers_report_three_intervals() {
    let data = INPUT.as_bytes();
    let outcomes = outcomes(data, 4);
    let counts: Vec<u64> = outcomes.iter().map(|outcome| counted(&outcome.table)).collect();
    assert_eq!(counts, vec![2, 1, 1, 2]);
    let slots = pair_intervals(&outcomes);
    assert_eq!(
        slots,
        vec![
            Some(BoundaryInterval { start: 28, end: 43 }),
            Some(BoundaryInterval { start: 58, end: 72 }),
            Some(BoundaryInterval { start: 86, end: 101 }),
        ]
    );
    assert_eq!(&data[28..43], b"station1;-67.4\n");
    assert_eq!(&data[58..72], b"station2;43.3\n");
    assert_eq!(&data[86..101], b"station3;-82.2\n");
}

#[test]
fn workers_and_intervals_share_no_byte() {
    let data = INPUT.as_bytes();
    for workers in [1, 2, 3, 4, 5, 9, 10, 50, 131, 500] {
        let outcomes = outcomes(data, workers);
        let mut cursor = 0;
        for (index, outcome) in outcomes.iter().enumerate() {
            let start = outcome.skipped_to.unwrap_or(0);
            assert!(cursor <= start);
            let stop = outcome.stopped_at.unwrap_or(data.len());
            assert!(start <= stop || outcome.stopped_at.is_none());
            assert_eq!(outcome.skipped_to.is_some(), index > 0);
            cursor = stop.max(start);
        }
        for slot in pair_intervals(&outcomes).into_iter().flatten() {
            assert!(slot.start <= slot.end);
            assert!(slot.end <= data.len());
        }
    }
}

#[test]
fn one_worker_has_no_interval() {
    let outcomes = outcomes(INPUT.as_bytes(), 1);
    assert_eq!(pair_intervals(&outcomes), vec![]);
    assert_eq!(pair_intervals(&Vec::new()), vec![]);
}

#[test]
fn reconcile_takes_one_record_from_each_interval() {
    let data = b"a;1.0\nb;2.0\nc;3.0\n";
    let mut table = StationTable::new();
    table.record(b"a", 50);
    let slots = vec![
        Some(BoundaryInterval { start: 0, end: 6 }),
        None,
        Some(BoundaryInterval { start: 12, end: 12 }),
        Some(BoundaryInterval { start: 6, end: 18 }),
    ];
    reconcile(&mut table, data, &slots);
    let expected = vec![
        StationAggregate { name: b"a".to_vec(), min: 10, max: 50, total: 60, count: 2 },
        StationAggregate { name: b"b".to_vec(), min: 20, max: 20, total: 20, count: 1 },
    ];
    assert_eq!(table.finalize(), expected);
}

#[test]
fn end_to_end_with_one_two_and_four_workers() {
    let data = INPUT.as_bytes();
    let expected = vec![
        StationAggregate { name: b"station1".to_vec(), min: -674, max: 999, total: -233, count: 3 },
        StationAggregate { name: b"station2".to_vec(), min: 101, max: 818, total: 1352, count: 3 },
        StationAggregate { name: b"station3".to_vec(), min: -999, max: 230, total: -1591, count: 3 },
    ];
    let single = process(data, 1);
    assert_eq!(single, expected);
    assert_eq!(process(data, 2), single);
    assert_eq!(process(data, 4), single);
    let means: Vec<f64> =
        single.iter().map(|s| (s.total as f64 / 10.0 / s.count as f64).round()).collect();
    assert_eq!(means, vec![-8.0, 45.0, -53.0]);
}

#[test]
fn every_line_is_counted_once() {
    let data = INPUT.as_bytes();
    for workers in [1, 2, 4, 10, 13, 130, 131, 1000] {
        let outcomes = outcomes(data, workers);
        let by_workers: u64 = outcomes.iter().map(|outcome| counted(&outcome.table)).sum();
        let slots = pair_intervals(&outcomes);
        let reconciled =
            slots.iter().flatten().filter(|interval| interval.start < interval.end).count() as u64;
        assert_eq!(by_workers + reconciled, 9);
        assert_eq!(combine(data, outcomes), parse_lines(data));
    }
}

#[test]
fn three_workers_count_every_line_where_no_line_ends_at_a_boundary() {
    let data = b"aa;1.0\nb;-2.0\nccc;3.5\naa;4.0\n";
    assert_eq!(data.len(), 29);
    let expected = parse_lines(data);
    assert_eq!(total_count(&expected), 4);
    assert_eq!(process(data, 3), expected);
    assert_eq!(process(data, 1), expected);
    assert_eq!(process(data, 5), expected);
    assert_eq!(process(data, 6), expected);
}

#[test]
fn line_that_ends_at_a_boundary_hides_the_line_behind_it() {
    let data = b"a;1.0\nb;2.0\n";
    assert_eq!(total_count(&process(data, 2)), 1);
    assert_eq!(
        process(data, 2),
        vec![StationAggregate { name: b"a".to_vec(), min: 10, max: 10, total: 10, count: 1 }]
    );
    let stations = process(INPUT.as_bytes(), 3);
    assert_eq!(total_count(&stations), 7);
    assert_eq!(
        stations,
        vec![
            StationAggregate { name: b"station1".to_vec(), min: -674, max: 999, total: 325, count: 2 },
            StationAggregate { name: b"station2".to_vec(), min: 101, max: 818, total: 1352, count: 3 },
            StationAggregate { name: b"station3".to_vec(), min: -999, max: 230, total: -769, count: 2 },
        ]
    );
}

#[test]
fn single_line_file() {
    let data = b"only;-12.3\n";
    let expected =
        vec![StationAggregate { name: b"only".to_vec(), min: -123, max: -123, total: -123, count: 1 }];
    for workers in [1, 2, 3, 4, 11, 12, 64] {
        assert_eq!(process(data, workers), expected);
    }
    assert_eq!(parse_lines(data), expected);
}

#[test]
fn single_station_file() {
    let data = b"s;1.0\ns;-2.0\ns;30.5\ns;0.0\ns;7.7\n";
    let expected =
        vec![StationAggregate { name: b"s".to_vec(), min: -20, max: 305, total: 372, count: 5 }];
    assert_eq!(parse_lines(data), expected);
    for workers in [1, 2, 4, 7, 40] {
        assert_eq!(process(data, workers), expected);
    }
}

#[test]
fn empty_file() {
    for workers in [1, 2, 8] {
        assert_eq!(process(b"", workers), vec![]);
        let outcomes = outcomes(b"", workers);
        assert_eq!(pair_intervals(&outcomes), vec![None; workers - 1]);
    }
}

#[test]
fn lines_are_counted_by_their_terminators() {
    let data = INPUT.as_bytes();
    assert_eq!(count_lines_read_to_buf(data), 9);
    assert_eq!(count_lines_read_to_buf(b""), 0);
    assert_eq!(count_lines_read_to_buf(b"a\nb"), 1);
    let long = vec![b'\n'; 7000];
    assert_eq!(count_lines_read_to_buf(&long), 7000);
    for threads in [1, 2, 3, 4, 7, 129, 130, 131, 400] {
        assert_eq!(count_lines_concurrent(data, threads), 9);
    }
    assert_eq!(count_lines_concurrent(b"", 4), 0);
}

#[test]
fn last_line_without_terminator_counts_as_a_line() {
    assert_eq!(count_lines_read_line(b"a\nb"), 2);
    assert_eq!(count_lines_read_line(b"a\nb\n"), 2);
    assert_eq!(count_lines_read_line(b"a"), 1);
    assert_eq!(count_lines_read_line(b""), 0);
    assert_eq!(count_lines_read_line(b"\n"), 1);
}

fn next_random(state: &mut u64) -> u64 {
    *state = state.wrapping_mul(6364136223846793005).wrapping_add(1442695040888963407);
    *state >> 33
}

fn random_text(state: &mut u64, lines: usize) -> Vec<u8> {
    let mut text = Vec::new();
    for _ in 0..lines {
        let name_len = next_random(state) % 6;
        for _ in 0..name_len {
            text.push(b'a' + (next_random(state) % 4) as u8);
        }
        text.push(b';');
        if next_random(state) % 2 == 0 {
            text.push(b'-');
        }
        let tenths = next_random(state) % 1000;
        text.extend_from_slice(format!("{}.{}", tenths / 10, tenths % 10).as_bytes());
        text.push(b'\n');
    }
    text
}

#[test]
fn one_line_is_missed_for_each_boundary_at_which_a_line_ends() {
    let mut state = 7;
    let mut clear = 0;
    let mut lossy = 0;
    for round in 0..60 {
        let lines = round % 12;
        let data = random_text(&mut state, lines);
        let whole = parse_lines(&data);
        assert_eq!(total_count(&whole), lines as u64);
        assert_eq!(count_lines_read_to_buf(&data), lines);
        for workers in 1..=(data.len() + 2) {
            let section = data.len() / workers;
            let outcomes = outcomes(&data, workers);
            let lost = (0..workers - 1)
                .filter(|index| {
                    let end = (index + 1) * section;
                    let start = outcomes[*index].skipped_to.unwrap_or(0);
                    start < end && end < data.len() && data[end - 1] == b'\n'
                })
                .count();
            let chunked = process(&data, workers);
            assert_eq!(total_count(&chunked) + lost as u64, lines as u64);
            if lost == 0 {
                assert_eq!(chunked, whole);
                clear += 1;
            } else {
                lossy += 1;
            }
        }
    }
    assert!(clear > 0 && lossy > 0);
}
