//! Tests of the StatsD line parser.

use metrics_agent::metric::CollectedMetric;
use metrics_agent::recv::statsd::{
    parse_collected, parse_metric_exec, parse_metrics, parse_number_exec, scan_name_exec, Number,
    StatsdMetric,
};

fn num(negative: bool, int_part: &str, frac_part: &str) -> Number {
    Number {
        negative,
        int_part: String::from(int_part),
        frac_part: String::from(frac_part),
    }
}

#[test]
fn it_works() {
    assert_eq!(2 + 2, 4);
}

#[test]
fn it_parses_metric_names() {
    let input = "foo";
    assert_eq!(scan_name_exec(input, 0, input.chars().count()), 3);
    let input = "foo.bar";
    assert_eq!(scan_name_exec(input, 0, input.chars().count()), 7);
    let input = "foo_bar";
    assert_eq!(scan_name_exec(input, 0, input.chars().count()), 7);
}

#[test]
fn it_parses_doubles() {
    // Integer
    assert_eq!(parse_number_exec("23", 0, 2), Some((num(false, "23", ""), 2)));
    // Fractional
    assert_eq!(parse_number_exec(".24", 0, 3), Some((num(false, "", "24"), 3)));
    // Integer and fractional
    assert_eq!(parse_number_exec("2.5", 0, 3), Some((num(false, "2", "5"), 3)));
    // Negative
    assert_eq!(parse_number_exec("-2", 0, 2), Some((num(true, "2", ""), 2)));
}

#[test]
fn it_parses_counter() {
    let input = "foo.bar_baz:23|c";
    assert_eq!(
        parse_metric_exec(input, 0, input.chars().count()),
        Some((
            StatsdMetric::Counter(String::from("foo.bar_baz"), num(false, "23", ""), None),
            16
        ))
    );
}

#[test]
fn it_parses_gauge() {
    let input = "foo.bar_baz:12|g";
    assert_eq!(
        parse_metric_exec(input, 0, input.chars().count()),
        Some((
            StatsdMetric::Gauge(String::from("foo.bar_baz"), num(false, "12", "")),
            16
        ))
    );
}

#[test]
fn it_parses_timer() {
    let input = "foo.bar_baz:12|ms";
    assert_eq!(
        parse_metric_exec(input, 0, input.chars().count()),
        Some((
            StatsdMetric::Timer(String::from("foo.bar_baz"), num(false, "12", ""), None),
            17
        ))
    );
}

#[test]
fn it_parses_metrics() {
    assert_eq!(
        parse_metrics("foo:1|g\nbar:2|c|@3\nbaz:4|ms"),
        Ok(vec![
            StatsdMetric::Gauge(String::from("foo"), num(false, "1", "")),
            StatsdMetric::Counter(String::from("bar"), num(false, "2", ""), None),
            StatsdMetric::Timer(String::from("baz"), num(false, "4", ""), None),
        ])
    );
}

#[test]
fn it_rejects_malformed_lines() {
    let err = parse_metrics("!!!").unwrap_err();
    assert_eq!(err.description, "invalid metric syntax");
    assert!(parse_metrics("").is_err());
    assert!(parse_metrics("foo:|c").is_err());
    assert!(parse_metrics("foo:1|q").is_err());
    assert!(parse_metrics("foo.1|c").is_err());
}

#[test]
fn it_keeps_parsing_until_a_line_fails() {
    // The first well-formed line parses; a malformed later line ends the
    // message without error.
    let parsed = parse_metrics("foo:1|g\n???").unwrap();
    assert_eq!(parsed.len(), 1);
    assert_eq!(
        parsed[0],
        StatsdMetric::Gauge(String::from("foo"), num(false, "1", ""))
    );
}

#[test]
fn it_converts_lines_to_events() {
    let events = parse_collected("reqs:3|c\ncpu:40|g\nlat:10|ms", 7).unwrap();
    assert_eq!(
        events,
        vec![
            CollectedMetric::Count(7, (String::from("reqs"), vec![]), 3),
            CollectedMetric::Gauge(7, (String::from("cpu"), vec![]), 40),
            CollectedMetric::Histogram(7, (String::from("lat"), vec![]), 10),
        ]
    );
}

#[test]
fn it_truncates_and_clamps_values() {
    // Fractions are truncated toward zero, on both signs.
    let events = parse_collected("a:2.9|c\nb:-2.9|c\nc:.24|g", 1).unwrap();
    assert_eq!(events[0], CollectedMetric::Count(1, (String::from("a"), vec![]), 2));
    assert_eq!(events[1], CollectedMetric::Count(1, (String::from("b"), vec![]), -2));
    assert_eq!(events[2], CollectedMetric::Gauge(1, (String::from("c"), vec![]), 0));
    // Values beyond the measurement range are clamped to its edges.
    let events = parse_collected("big:99999999999|c\nneg:-99999999999|c", 1).unwrap();
    assert_eq!(events[0], CollectedMetric::Count(1, (String::from("big"), vec![]), i32::MAX));
    assert_eq!(events[1], CollectedMetric::Count(1, (String::from("neg"), vec![]), i32::MIN));
}

#[test]
fn it_parses_odd_but_legal_numerals() {
    // A trailing dot leaves an empty fraction.
    assert_eq!(parse_number_exec("2.", 0, 2), Some((num(false, "2", ""), 2)));
    // A sign works with a bare fraction too.
    assert_eq!(parse_number_exec("-.5", 0, 3), Some((num(true, "", "5"), 3)));
    // A lone dot or sign is no numeral.
    assert_eq!(parse_number_exec(".", 0, 1), None);
    assert_eq!(parse_number_exec("-", 0, 1), None);
}

#[test]
fn it_allows_an_empty_name() {
    let parsed = parse_metrics(":1|c").unwrap();
    assert_eq!(
        parsed,
        vec![StatsdMetric::Counter(String::new(), num(false, "1", ""), None)]
    );
}

#[test]
fn a_sample_rate_is_consumed_and_discarded() {
    let parsed = parse_metrics("bar:2|c|@0.5").unwrap();
    assert_eq!(
        parsed,
        vec![StatsdMetric::Counter(String::from("bar"), num(false, "2", ""), None)]
    );
}
