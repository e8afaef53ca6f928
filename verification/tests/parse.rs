use onebrc::{custom_parse_float, parse_lines, StationAggregate};

const INPUT: &str = "station1;99.9
station3;23.0
station1;-67.4
station1;-55.8
station2;43.3
station2;81.8
station3;-82.2
station2;10.1
station3;-99.9
";

fn degrees(tenths: i64) -> f64 {
    tenths as f64 / 10.0
}

fn mean(aggregate: &StationAggregate) -> f64 {
    aggregate.total as f64 / 10.0 / aggregate.count as f64
}

#[test]
// Just a little test to add some confidence to the results' correctness
fn can_parse_lines() {
    let results = parse_lines(INPUT.as_bytes());

    // Round the means to side-step the floating point number imprecision issue
    let results: Vec<(String, f64, f64, f64)> = results
        .iter()
        .map(|result| {
            (
                String::from_utf8(result.name.clone()).unwrap(),
                degrees(result.min),
                degrees(result.max),
                mean(result).round(),
            )
        })
        .collect();

    let expected = [
        ("station1".to_owned(), -67.4, 99.9, -8.0),
        ("station2".to_owned(), 10.1, 81.8, 45.0),
        ("station3".to_owned(), -99.9, 23.0, -53.0),
    ];

    assert_eq!(results, expected);
}

#[test]
fn can_parse_float_limited() {
    let input = [(b"99.9".as_slice(), 99.9), (b"-99.9", -99.9), (b"0.0", 0.0)];
    input.into_iter().for_each(|(bytes, expected)| {
        let actual = degrees(custom_parse_float(bytes));
        assert_eq!(actual, expected);
    })
}

#[test]
fn parse_lines_gives_exact_tenths() {
    let results = parse_lines(INPUT.as_bytes());
    let expected = vec![
        StationAggregate { name: b"station1".to_vec(), min: -674, max: 999, total: -233, count: 3 },
        StationAggregate { name: b"station2".to_vec(), min: 101, max: 818, total: 1352, count: 3 },
        StationAggregate { name: b"station3".to_vec(), min: -999, max: 230, total: -1591, count: 3 },
    ];
    assert_eq!(results, expected);
}

#[test]
fn parse_lines_of_nothing_is_empty() {
    assert_eq!(parse_lines(b""), vec![]);
}

#[test]
fn parse_lines_orders_by_name_bytes() {
    let results = parse_lines(b"b;1.0\nab;2.0\na;3.0\nB;4.0\n;5.0\n");
    let names: Vec<Vec<u8>> = results.into_iter().map(|r| r.name).collect();
    assert_eq!(
        names,
        vec![b"".to_vec(), b"B".to_vec(), b"a".to_vec(), b"ab".to_vec(), b"b".to_vec()]
    );
}
