//! Tests of the grouping and rollup engine.

use metrics_agent::db::aggregate::{aggregate, group};
use metrics_agent::metric::{AggregatedMetric, CollectedMetric, Id};

fn id(name: &str) -> Id {
    (String::from(name), vec![])
}

#[test]
fn counts_sum_within_one_cycle() {
    let t1: u64 = 100;
    let events = vec![
        CollectedMetric::Count(t1, id("reqs"), 1),
        CollectedMetric::Count(t1, id("reqs"), 3),
    ];
    let out = aggregate(group(&events));
    assert_eq!(out, vec![AggregatedMetric::Count(t1, id("reqs"), 4)]);
}

#[test]
fn gauges_keep_the_maximum_and_latest_time() {
    let t1: u64 = 100;
    let t2: u64 = 200;
    let events = vec![
        CollectedMetric::Gauge(t1, id("cpu"), 40),
        CollectedMetric::Gauge(t2, id("cpu"), 55),
    ];
    let out = aggregate(group(&events));
    // Max value, latest timestamp - even though the lower value arrived
    // earlier, the representative time is t2 regardless of which value won.
    assert_eq!(out, vec![AggregatedMetric::Gauge(t2, id("cpu"), 55)]);
}

#[test]
fn gauge_time_is_max_even_when_the_late_value_loses() {
    let events = vec![
        CollectedMetric::Gauge(300, id("cpu"), 90),
        CollectedMetric::Gauge(400, id("cpu"), 10),
    ];
    let out = aggregate(group(&events));
    assert_eq!(out, vec![AggregatedMetric::Gauge(400, id("cpu"), 90)]);
}

#[test]
fn histograms_fan_out_into_seven_metrics() {
    let t1: u64 = 100;
    let events = vec![
        CollectedMetric::Histogram(t1, id("lat"), 10),
        CollectedMetric::Histogram(t1, id("lat"), 20),
        CollectedMetric::Histogram(t1, id("lat"), 30),
    ];
    let out = aggregate(group(&events));
    assert_eq!(
        out,
        vec![
            AggregatedMetric::Gauge(t1, id("lat.min"), 10),
            AggregatedMetric::Gauge(t1, id("lat.max"), 30),
            AggregatedMetric::Gauge(t1, id("lat.median"), 20),
            AggregatedMetric::Gauge(t1, id("lat.avg"), 20),
            AggregatedMetric::Gauge(t1, id("lat.95percentile"), 30),
            AggregatedMetric::Gauge(t1, id("lat.99percentile"), 30),
            AggregatedMetric::Count(t1, id("lat.count"), 3),
        ]
    );
}

#[test]
fn a_single_sample_yields_itself_for_every_statistic() {
    let events = vec![CollectedMetric::Histogram(5, id("lat"), 42)];
    let out = aggregate(group(&events));
    assert_eq!(
        out,
        vec![
            AggregatedMetric::Gauge(5, id("lat.min"), 42),
            AggregatedMetric::Gauge(5, id("lat.max"), 42),
            AggregatedMetric::Gauge(5, id("lat.median"), 42),
            AggregatedMetric::Gauge(5, id("lat.avg"), 42),
            AggregatedMetric::Gauge(5, id("lat.95percentile"), 42),
            AggregatedMetric::Gauge(5, id("lat.99percentile"), 42),
            AggregatedMetric::Count(5, id("lat.count"), 1),
        ]
    );
}

#[test]
fn averages_truncate_toward_zero() {
    let events = vec![
        CollectedMetric::Histogram(1, id("d"), -1),
        CollectedMetric::Histogram(1, id("d"), -2),
    ];
    let out = aggregate(group(&events));
    // Mean -1.5 truncates to -1; sorted [-2, -1], median picks index 1.
    assert_eq!(out[2], AggregatedMetric::Gauge(1, id("d.median"), -1));
    assert_eq!(out[3], AggregatedMetric::Gauge(1, id("d.avg"), -1));
}

#[test]
fn percentiles_use_truncated_indexes() {
    let mut events = Vec::new();
    for v in 1..=20 {
        events.push(CollectedMetric::Histogram(1, id("lat"), v));
    }
    let out = aggregate(group(&events));
    // 20 samples: p95 index (20 * 95) / 100 = 19, p99 index (20 * 99) / 100
    // = 19; both land on the last (largest) sample.
    assert_eq!(out[4], AggregatedMetric::Gauge(1, id("lat.95percentile"), 20));
    assert_eq!(out[5], AggregatedMetric::Gauge(1, id("lat.99percentile"), 20));
    assert_eq!(out[6], AggregatedMetric::Count(1, id("lat.count"), 20));
}

#[test]
fn kinds_with_one_identifier_group_apart() {
    let events = vec![
        CollectedMetric::Count(1, id("x"), 5),
        CollectedMetric::Gauge(2, id("x"), 7),
    ];
    let out = aggregate(group(&events));
    assert_eq!(
        out,
        vec![
            AggregatedMetric::Count(1, id("x"), 5),
            AggregatedMetric::Gauge(2, id("x"), 7),
        ]
    );
}

#[test]
fn dimension_order_does_not_split_a_group() {
    let a: Id = (
        String::from("reqs"),
        vec![
            (String::from("host"), String::from("a")),
            (String::from("dc"), String::from("east")),
        ],
    );
    let b: Id = (
        String::from("reqs"),
        vec![
            (String::from("dc"), String::from("east")),
            (String::from("host"), String::from("a")),
        ],
    );
    let events = vec![
        CollectedMetric::Count(1, a.clone(), 2),
        CollectedMetric::Count(2, b, 3),
    ];
    let out = aggregate(group(&events));
    // One group: same name, same dimension set. The group keeps the first
    // identifier it saw.
    assert_eq!(out, vec![AggregatedMetric::Count(2, a, 5)]);
}

#[test]
fn an_empty_batch_aggregates_to_nothing() {
    let out = aggregate(group(&vec![]));
    assert_eq!(out, Vec::<AggregatedMetric>::new());
}
