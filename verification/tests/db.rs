//! Tests of the database: buffer, cycle, store and fan-out.

use metrics_agent::db::{
    AggregatedKey, Db, DbOptions, DEFAULT_AGGREGATION_INTERVAL_MS, SUBSCRIBER_QUEUE_CAPACITY,
};
use metrics_agent::metric::{AggregatedMetric, CollectedMetric, Id};

fn id(name: &str) -> Id {
    (String::from(name), vec![])
}

fn fresh_db() -> Db {
    Db::new(DbOptions::default())
}

#[test]
fn the_interval_defaults_and_can_be_tuned() {
    assert_eq!(fresh_db().aggregation_interval(), DEFAULT_AGGREGATION_INTERVAL_MS);
    let db = Db::new(DbOptions { aggregation_interval: Some(5000) });
    assert_eq!(db.aggregation_interval(), 5000);
}

#[test]
fn a_cycle_stores_and_publishes_the_rollup() {
    let mut db = fresh_db();
    let sub = db.aggregation_subscribe();
    db.collect(vec![
        CollectedMetric::Count(100, id("reqs"), 1),
        CollectedMetric::Count(100, id("reqs"), 3),
    ]);
    db.aggregate();
    let batch = db.subscription_recv(sub).unwrap();
    assert_eq!(batch, vec![AggregatedMetric::Count(100, id("reqs"), 4)]);
    let series = db.series(&AggregatedKey::Count(id("reqs"))).unwrap();
    assert_eq!(series, vec![(100, 4)]);
    assert_eq!(db.keys().len(), 1);
}

#[test]
fn series_append_in_cycle_order() {
    let mut db = fresh_db();
    db.collect(vec![CollectedMetric::Gauge(1, id("cpu"), 40)]);
    db.aggregate();
    db.collect(vec![CollectedMetric::Gauge(2, id("cpu"), 30)]);
    db.aggregate();
    let series = db.series(&AggregatedKey::Gauge(id("cpu"))).unwrap();
    assert_eq!(series, vec![(1, 40), (2, 30)]);
}

#[test]
fn a_missing_key_has_no_series() {
    let db = fresh_db();
    assert!(db.series(&AggregatedKey::Count(id("nothing"))).is_none());
}

#[test]
fn every_event_lands_in_exactly_one_cycle() {
    // Submissions between two drains are all visible in the first cycle
    // after them, and in no other.
    let mut db = fresh_db();
    let sub = db.aggregation_subscribe();
    db.collect(vec![CollectedMetric::Count(1, id("reqs"), 1)]);
    db.collect(vec![CollectedMetric::Count(1, id("reqs"), 2)]);
    db.aggregate();
    db.collect(vec![CollectedMetric::Count(2, id("reqs"), 5)]);
    db.aggregate();
    db.aggregate();
    let first = db.subscription_recv(sub).unwrap();
    assert_eq!(first, vec![AggregatedMetric::Count(1, id("reqs"), 3)]);
    let second = db.subscription_recv(sub).unwrap();
    assert_eq!(second, vec![AggregatedMetric::Count(2, id("reqs"), 5)]);
    // The third cycle had nothing left to see: its batch is empty.
    let third = db.subscription_recv(sub).unwrap();
    assert_eq!(third, Vec::<AggregatedMetric>::new());
    assert!(db.subscription_recv(sub).is_none());
    // The store saw each submission once: the two cycles' values, no more.
    let series = db.series(&AggregatedKey::Count(id("reqs"))).unwrap();
    assert_eq!(series, vec![(1, 3), (2, 5)]);
}

#[test]
fn a_full_subscriber_does_not_starve_the_others() {
    let mut db = fresh_db();
    let asleep = db.aggregation_subscribe();
    let awake = db.aggregation_subscribe();
    let rounds = SUBSCRIBER_QUEUE_CAPACITY + 8;
    for n in 0..rounds {
        db.collect(vec![CollectedMetric::Count(n as u64, id("reqs"), 1)]);
        db.aggregate();
        // The awake subscriber reads every cycle and misses none, however
        // full the sleeping one's queue is.
        let batch = db.subscription_recv(awake).unwrap();
        assert_eq!(batch, vec![AggregatedMetric::Count(n as u64, id("reqs"), 1)]);
    }
    // The sleeping subscriber kept only the oldest batches its queue had
    // room for; the overflow was dropped for it alone.
    let mut kept = 0;
    while db.subscription_recv(asleep).is_some() {
        kept += 1;
    }
    assert_eq!(kept, SUBSCRIBER_QUEUE_CAPACITY);
}

#[test]
fn an_unknown_handle_receives_nothing() {
    let mut db = fresh_db();
    assert!(db.subscription_recv(3).is_none());
}

#[test]
fn subscribers_each_receive_the_whole_batch() {
    let mut db = fresh_db();
    let a = db.aggregation_subscribe();
    let b = db.aggregation_subscribe();
    db.collect(vec![
        CollectedMetric::Histogram(9, id("lat"), 10),
        CollectedMetric::Histogram(9, id("lat"), 20),
        CollectedMetric::Histogram(9, id("lat"), 30),
    ]);
    db.aggregate();
    let expected = vec![
        AggregatedMetric::Gauge(9, id("lat.min"), 10),
        AggregatedMetric::Gauge(9, id("lat.max"), 30),
        AggregatedMetric::Gauge(9, id("lat.median"), 20),
        AggregatedMetric::Gauge(9, id("lat.avg"), 20),
        AggregatedMetric::Gauge(9, id("lat.95percentile"), 30),
        AggregatedMetric::Gauge(9, id("lat.99percentile"), 30),
        AggregatedMetric::Count(9, id("lat.count"), 3),
    ];
    assert_eq!(db.subscription_recv(a).unwrap(), expected);
    assert_eq!(db.subscription_recv(b).unwrap(), expected);
    // The histogram fan-out also opened seven distinct store slots.
    assert_eq!(db.keys().len(), 7);
}

#[test]
fn kinds_keep_separate_store_slots() {
    let mut db = fresh_db();
    db.collect(vec![
        CollectedMetric::Count(1, id("x"), 5),
        CollectedMetric::Gauge(1, id("x"), 7),
    ]);
    db.aggregate();
    assert_eq!(db.series(&AggregatedKey::Count(id("x"))).unwrap(), vec![(1, 5)]);
    assert_eq!(db.series(&AggregatedKey::Gauge(id("x"))).unwrap(), vec![(1, 7)]);
    assert_eq!(db.keys().len(), 2);
}

#[test]
fn overflow_is_detected_before_a_cycle() {
    let mut db = fresh_db();
    db.collect(vec![
        CollectedMetric::Count(1, id("big"), i32::MAX),
        CollectedMetric::Count(1, id("big"), 1),
    ]);
    assert!(!db.aggregate_fits());
    let mut db = fresh_db();
    db.collect(vec![
        CollectedMetric::Count(1, id("ok"), i32::MAX),
        CollectedMetric::Gauge(1, id("ok"), i32::MAX),
    ]);
    assert!(db.aggregate_fits());
}
