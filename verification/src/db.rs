//! In-memory metrics database used to store and aggregate metrics.
//!
//! A [`Db`] holds the ingestion buffer of collected metrics, the time-series
//! store of aggregated metrics, and the registered subscribers. One
//! aggregation cycle ([`Db::aggregate`]) drains the buffer, groups and rolls
//! the events up, appends every aggregated metric to the store, and delivers
//! the batch to every subscriber with room in its queue.

use vstd::prelude::*;

use crate::metric::{
    aggregated_view, clone_id, events_view, id_eq, id_key, id_view,
    AggregatedKind, AggregatedMetric, AggregatedMetricView, CollectedMetric, CollectedMetricView,
    Id, IdView,
};

pub mod aggregate;

use aggregate::{aggregate, aggregate_seq, batch_view, group, grouped_seq, rollup_fits, tv_view};

verus! {

/// The default aggregation interval, in milliseconds.
pub const DEFAULT_AGGREGATION_INTERVAL_MS: u64 = 10000;

/// How many undelivered batches a subscriber's queue holds before further
/// publishes to it are dropped.
pub const SUBSCRIBER_QUEUE_CAPACITY: usize = 64;

/// Options for the database. The aggregation interval (in milliseconds) is
/// the single tunable; leaving it unset picks the default.
pub struct DbOptions {
    pub aggregation_interval: Option<u64>,
}

impl Default for DbOptions {
    fn default() -> (r: DbOptions)
        ensures
            r.aggregation_interval.is_none(),
    {
        DbOptions { aggregation_interval: None }
    }
}

/// The time-series store of aggregated metrics is keyed by the metric's kind
/// and identifier (name and dimensions).
#[derive(Debug, Eq, Hash, PartialEq)]
pub enum AggregatedKey {
    Count(Id),
    Gauge(Id),
}

/// Mathematical view of a store key.
#[verifier::ext_equal]
pub struct AggregatedKeyView {
    pub kind: AggregatedKind,
    pub id: IdView,
}

pub open spec fn agg_key_view(k: AggregatedKey) -> AggregatedKeyView {
    match k {
        AggregatedKey::Count(id) => AggregatedKeyView { kind: AggregatedKind::Count, id: id_view(id) },
        AggregatedKey::Gauge(id) => AggregatedKeyView { kind: AggregatedKind::Gauge, id: id_view(id) },
    }
}

/// The addressing key of a store key: kind plus identifier key.
pub open spec fn agg_key(k: AggregatedKeyView) -> (
    AggregatedKind,
    (Seq<char>, Set<(Seq<char>, Seq<char>)>),
) {
    (k.kind, id_key(k.id))
}

/// The addressing key of an aggregated metric: the store slot it lands in.
pub open spec fn metric_key(m: AggregatedMetricView) -> (
    AggregatedKind,
    (Seq<char>, Set<(Seq<char>, Seq<char>)>),
) {
    (m.kind, id_key(m.id))
}

impl AggregatedMetric {
    /// Convert an aggregated metric into a key and value for storage in the
    /// database's key-value store.
    pub fn to_entry(&self) -> (r: (AggregatedKey, (u64, i32)))
        ensures
            ({
                let m = aggregated_view(*self);
                &&& agg_key_view(r.0) == AggregatedKeyView { kind: m.kind, id: m.id }
                &&& r.1.0 == m.time
                &&& r.1.1 as int == m.value
            }),
    {
        match self {
            AggregatedMetric::Count(time, id, value) => (
                AggregatedKey::Count(clone_id(id)),
                (*time, *value),
            ),
            AggregatedMetric::Gauge(time, id, value) => (
                AggregatedKey::Gauge(clone_id(id)),
                (*time, *value),
            ),
        }
    }
}

/// Mathematical view of the store: each key with its append-only series.
pub type StoreView = Seq<(AggregatedKeyView, Seq<(u64, int)>)>;

pub open spec fn store_view(s: Seq<(AggregatedKey, Vec<(u64, i32)>)>) -> StoreView {
    s.map_values(|p: (AggregatedKey, Vec<(u64, i32)>)| (agg_key_view(p.0), tv_view(p.1@)))
}

/// Whether the store holds a slot with the given addressing key.
pub open spec fn store_contains(
    store: StoreView,
    k: (AggregatedKind, (Seq<char>, Set<(Seq<char>, Seq<char>)>)),
) -> bool {
    exists|i: int| 0 <= i < store.len() && agg_key(store[i].0) == k
}

/// No two slots of the store share an addressing key.
pub open spec fn store_wf(store: StoreView) -> bool {
    forall|i: int, j: int|
        0 <= i < j < store.len() ==> agg_key(store[i].0) != agg_key(store[j].0)
}

/// One aggregated metric appended to the store: its (timestamp, value) pair
/// goes to the end of the series its key addresses, a new slot being opened
/// at the end of the store when the key is new.
pub open spec fn store_insert(store: StoreView, m: AggregatedMetricView) -> StoreView {
    if store_contains(store, metric_key(m)) {
        let i = choose|i: int| 0 <= i < store.len() && agg_key(store[i].0) == metric_key(m);
        store.update(i, (store[i].0, store[i].1.push((m.time, m.value))))
    } else {
        store.push(
            (AggregatedKeyView { kind: m.kind, id: m.id }, seq![(m.time, m.value)]),
        )
    }
}

/// A whole batch appended to the store, in batch order.
pub open spec fn store_after(store: StoreView, batch: Seq<AggregatedMetricView>) -> StoreView
    decreases batch.len(),
{
    if batch.len() == 0 {
        store
    } else {
        store_insert(store_after(store, batch.drop_last()), batch.last())
    }
}

/// Inserting keeps the store's keys unique.
pub proof fn lemma_store_insert_wf(store: StoreView, m: AggregatedMetricView)
    requires
        store_wf(store),
    ensures
        store_wf(store_insert(store, m)),
{
    if store_contains(store, metric_key(m)) {
        let i = choose|i: int| 0 <= i < store.len() && agg_key(store[i].0) == metric_key(m);
        let updated = store.update(i, (store[i].0, store[i].1.push((m.time, m.value))));
        assert forall|a: int, b: int|
            0 <= a < b < updated.len() implies agg_key(updated[a].0) != agg_key(updated[b].0) by {
            assert(updated[a].0 == store[a].0);
            assert(updated[b].0 == store[b].0);
        }
    } else {
        let pushed = store_insert(store, m);
        assert forall|a: int, b: int|
            0 <= a < b < pushed.len() implies agg_key(pushed[a].0) != agg_key(pushed[b].0) by {
            if b == store.len() {
                assert(pushed[a].0 == store[a].0);
                assert(agg_key(pushed[b].0) == metric_key(m));
                assert(!(agg_key(store[a].0) == metric_key(m)));
            } else {
                assert(pushed[a].0 == store[a].0);
                assert(pushed[b].0 == store[b].0);
            }
        }
    }
}

/// A subscriber's endpoint inside the database: a bounded queue of batches
/// not yet received, oldest first. A publish to a full queue is dropped for
/// this subscriber only.
#[derive(Debug)]
pub struct Subscription {
    queue: Vec<Vec<AggregatedMetric>>,
}

pub closed spec fn subscription_view(s: Subscription) -> Seq<Seq<AggregatedMetricView>> {
    s.queue@.map_values(|b: Vec<AggregatedMetric>| batch_view(b@))
}

/// One publish as seen by one subscriber: the batch joins its queue when
/// there is room, and is dropped for it otherwise.
pub open spec fn publish_to(
    q: Seq<Seq<AggregatedMetricView>>,
    batch: Seq<AggregatedMetricView>,
) -> Seq<Seq<AggregatedMetricView>> {
    if q.len() < SUBSCRIBER_QUEUE_CAPACITY {
        q.push(batch)
    } else {
        q
    }
}

/// One publish to every registered subscriber, each handled independently.
pub open spec fn publish_all(
    subs: Seq<Seq<Seq<AggregatedMetricView>>>,
    batch: Seq<AggregatedMetricView>,
) -> Seq<Seq<Seq<AggregatedMetricView>>> {
    subs.map_values(|q: Seq<Seq<AggregatedMetricView>>| publish_to(q, batch))
}

/// The batch one aggregation cycle produces from the events drained from the
/// buffer: the rollup of every group.
pub open spec fn cycle_batch(events: Seq<CollectedMetricView>) -> Seq<AggregatedMetricView> {
    aggregate_seq(grouped_seq(events))
}

/// Whether one cycle over these events fits the machine: every Count group's
/// sum and every Histogram group's size fit the value type.
pub open spec fn cycle_fits(events: Seq<CollectedMetricView>) -> bool {
    forall|i: int|
        0 <= i < grouped_seq(events).len() ==> rollup_fits(
            #[trigger] grouped_seq(events)[i].0,
            grouped_seq(events)[i].1,
        )
}

/// Mathematical view of the whole database.
#[verifier::ext_equal]
pub struct DbView {
    /// Collected metrics awaiting aggregation, in submission order.
    pub collected: Seq<CollectedMetricView>,
    /// The time-series store: aggregated values in cycle order per key.
    pub store: StoreView,
    /// Each subscriber's queue of undelivered batches, oldest first.
    pub subscribers: Seq<Seq<Seq<AggregatedMetricView>>>,
    /// The aggregation interval, in milliseconds.
    pub interval: u64,
}

/// The metrics database: ingestion buffer, time-series store, and subscriber
/// registry.
#[derive(Debug)]
pub struct Db {
    /// Collected metrics awaiting aggregation.
    collected: Vec<CollectedMetric>,
    /// Aggregated series keyed by (kind, identifier).
    aggregated: Vec<(AggregatedKey, Vec<(u64, i32)>)>,
    /// Registered subscribers.
    subscribers: Vec<Subscription>,
    /// Milliseconds between aggregation cycles; read by the host's scheduler.
    aggregation_interval: u64,
}

impl View for Db {
    type V = DbView;

    closed spec fn view(&self) -> DbView {
        DbView {
            collected: events_view(self.collected@),
            store: store_view(self.aggregated@),
            subscribers: self.subscribers@.map_values(|s: Subscription| subscription_view(s)),
            interval: self.aggregation_interval,
        }
    }
}

impl Db {
    /// The database's invariant: store keys are unique and every subscriber
    /// queue is within its capacity.
    pub open spec fn wf(&self) -> bool {
        &&& store_wf(self@.store)
        &&& forall|i: int|
            0 <= i < self@.subscribers.len() ==> #[trigger] self@.subscribers[i].len()
                <= SUBSCRIBER_QUEUE_CAPACITY
    }

    /// A fresh database: empty buffer, store and registry; the aggregation
    /// interval comes from the options or falls back to the default.
    pub fn new(options: DbOptions) -> (db: Db)
        ensures
            db@.collected == Seq::<CollectedMetricView>::empty(),
            db@.store == Seq::<(AggregatedKeyView, Seq<(u64, int)>)>::empty(),
            db@.subscribers == Seq::<Seq<Seq<AggregatedMetricView>>>::empty(),
            db@.interval == match options.aggregation_interval {
                Some(ms) => ms,
                None => DEFAULT_AGGREGATION_INTERVAL_MS,
            },
            db.wf(),
    {
        let aggregation_interval = match options.aggregation_interval {
            Some(ms) => ms,
            None => DEFAULT_AGGREGATION_INTERVAL_MS,
        };
        let db = Db {
            collected: Vec::new(),
            aggregated: Vec::new(),
            subscribers: Vec::new(),
            aggregation_interval,
        };
        proof {
            assert(db@.collected =~= Seq::<CollectedMetricView>::empty());
            assert(db@.store =~= Seq::<(AggregatedKeyView, Seq<(u64, int)>)>::empty());
            assert(db@.subscribers =~= Seq::<Seq<Seq<AggregatedMetricView>>>::empty());
        }
        db
    }

    /// The configured aggregation interval, in milliseconds.
    pub fn aggregation_interval(&self) -> (ms: u64)
        ensures
            ms == self@.interval,
    {
        self.aggregation_interval
    }

    /// Extend the ingestion buffer with a batch of collected metrics. Every
    /// event waits there, in submission order, for the next cycle.
    pub fn collect(&mut self, metrics: Vec<CollectedMetric>)
        requires
            old(self).wf(),
        ensures
            final(self).wf(),
            final(self)@.collected == old(self)@.collected + events_view(metrics@),
            final(self)@.store == old(self)@.store,
            final(self)@.subscribers == old(self)@.subscribers,
            final(self)@.interval == old(self)@.interval,
    {
        let ghost before = self.collected@;
        let mut incoming = metrics;
        self.collected.append(&mut incoming);
        proof {
            assert(events_view(self.collected@) =~= events_view(before) + events_view(metrics@));
            assert(final(self)@ =~= DbView {
                collected: events_view(before) + events_view(metrics@),
                ..old(self)@
            });
        }
    }

    /// Drain the buffer: swap it for an empty one and hand the previous
    /// contents back, so the swap is all a producer ever waits on. Events
    /// submitted from here on land in the next cycle.
    pub fn drain_collected(&mut self) -> (drained: Vec<CollectedMetric>)
        requires
            old(self).wf(),
        ensures
            final(self).wf(),
            events_view(drained@) == old(self)@.collected,
            final(self)@.collected == Seq::<CollectedMetricView>::empty(),
            final(self)@.store == old(self)@.store,
            final(self)@.subscribers == old(self)@.subscribers,
            final(self)@.interval == old(self)@.interval,
    {
        let mut drained: Vec<CollectedMetric> = Vec::new();
        core::mem::swap(&mut self.collected, &mut drained);
        proof {
            assert(events_view(self.collected@) =~= Seq::<CollectedMetricView>::empty());
            assert forall|i: int|
                0 <= i < self@.subscribers.len() implies #[trigger] self@.subscribers[i].len()
                <= SUBSCRIBER_QUEUE_CAPACITY by {
                assert(old(self)@.subscribers[i] == self@.subscribers[i]);
                assert(old(self)@.subscribers[i].len() <= SUBSCRIBER_QUEUE_CAPACITY);
            }
        }
        drained
    }
}


fn store_find(store: &Vec<(AggregatedKey, Vec<(u64, i32)>)>, m: &AggregatedMetric) -> (r: Option<
    usize,
>)
    ensures
        match r {
            Some(p) => 0 <= p < store@.len() && agg_key(store_view(store@)[p as int].0)
                == metric_key(aggregated_view(*m)),
            None => forall|i: int|
                0 <= i < store@.len() ==> agg_key(#[trigger] store_view(store@)[i].0)
                    != metric_key(aggregated_view(*m)),
        },
{
    let mut p: usize = 0;
    while p < store.len()
        invariant
            0 <= p <= store@.len(),
            forall|i: int|
                0 <= i < p ==> agg_key(#[trigger] store_view(store@)[i].0) != metric_key(
                    aggregated_view(*m),
                ),
        decreases store@.len() - p,
    {
        if key_matches(&store[p].0, m) {
            proof {
                assert(store_view(store@)[p as int].0 == agg_key_view(store@[p as int].0));
            }
            return Some(p);
        }
        proof {
            assert(store_view(store@)[p as int].0 == agg_key_view(store@[p as int].0));
        }
        p = p + 1;
    }
    None
}

fn agg_key_eq(a: &AggregatedKey, b: &AggregatedKey) -> (r: bool)
    ensures
        r == (agg_key(agg_key_view(*a)) == agg_key(agg_key_view(*b))),
{
    match (a, b) {
        (AggregatedKey::Count(x), AggregatedKey::Count(y)) => id_eq(x, y),
        (AggregatedKey::Gauge(x), AggregatedKey::Gauge(y)) => id_eq(x, y),
        _ => false,
    }
}

fn key_matches(k: &AggregatedKey, m: &AggregatedMetric) -> (r: bool)
    ensures
        r == (agg_key(agg_key_view(*k)) == metric_key(aggregated_view(*m))),
{
    match (k, m) {
        (AggregatedKey::Count(kid), AggregatedMetric::Count(_t, mid, _v)) => id_eq(kid, mid),
        (AggregatedKey::Gauge(kid), AggregatedMetric::Gauge(_t, mid, _v)) => id_eq(kid, mid),
        _ => false,
    }
}

/// Append one aggregated metric to the series its key addresses, opening the
/// slot when the key is new.
fn store_one(store: &mut Vec<(AggregatedKey, Vec<(u64, i32)>)>, m: &AggregatedMetric)
    requires
        store_wf(store_view(old(store)@)),
    ensures
        store_view(final(store)@) == store_insert(store_view(old(store)@), aggregated_view(*m)),
        store_wf(store_view(final(store)@)),
{
    let ghost sv = store_view(store@);
    let ghost mv = aggregated_view(*m);
    let found = store_find(store, m);
    let (key, tv) = m.to_entry();
    if let Some(p) = found {
        let ghost pi = p as int;
        let entry = &mut store[p];
        entry.1.push(tv);
        proof {
            assert(store_contains(sv, metric_key(mv))) by {
                assert(agg_key(sv[pi].0) == metric_key(mv));
            }
            let i = choose|i: int| 0 <= i < sv.len() && agg_key(sv[i].0) == metric_key(mv);
            assert(i == pi) by {
                if i != pi {
                    if i < pi {
                        assert(agg_key(sv[i].0) != agg_key(sv[pi].0));
                    } else {
                        assert(agg_key(sv[pi].0) != agg_key(sv[i].0));
                    }
                }
            }
            assert(store@[pi].1@ == old(store)@[pi].1@.push(tv));
            assert(tv_view(store@[pi].1@) =~= sv[pi].1.push((mv.time, mv.value)));
            assert forall|j: int|
                0 <= j < store@.len() && j != pi implies store_view(store@)[j] == sv[j] by {
                assert(store@[j] == old(store)@[j]);
            }
            assert(store_view(store@)[pi] == (sv[pi].0, sv[pi].1.push((mv.time, mv.value))));
            assert(store_view(store@) =~= store_insert(sv, mv));
            lemma_store_insert_wf(sv, mv);
        }
    } else {
        let mut series: Vec<(u64, i32)> = Vec::new();
        series.push(tv);
        let ghost seriesv = series@;
        store.push((key, series));
        proof {
            assert(!store_contains(sv, metric_key(mv)));
            let n = sv.len() as int;
            assert forall|j: int| 0 <= j < n implies store_view(store@)[j] == sv[j] by {
                assert(store@[j] == old(store)@[j]);
            }
            assert(agg_key_view(store@[n].0) == AggregatedKeyView { kind: mv.kind, id: mv.id });
            assert(tv_view(seriesv) =~= seq![(mv.time, mv.value)]);
            assert(store_view(store@)[n] == (
                AggregatedKeyView { kind: mv.kind, id: mv.id },
                seq![(mv.time, mv.value)],
            ));
            assert(store_view(store@) =~= store_insert(sv, mv));
            lemma_store_insert_wf(sv, mv);
        }
    }
}

/// Copy a batch of aggregated metrics; the copy has the same view.
fn clone_batch(batch: &Vec<AggregatedMetric>) -> (r: Vec<AggregatedMetric>)
    ensures
        batch_view(r@) == batch_view(batch@),
{
    let mut r: Vec<AggregatedMetric> = Vec::new();
    let mut j: usize = 0;
    while j < batch.len()
        invariant
            0 <= j <= batch@.len(),
            r@.len() == j,
            forall|i: int|
                0 <= i < j ==> aggregated_view(#[trigger] r@[i]) == aggregated_view(batch@[i]),
        decreases batch@.len() - j,
    {
        let copy = match &batch[j] {
            AggregatedMetric::Count(t, id, v) => AggregatedMetric::Count(*t, clone_id(id), *v),
            AggregatedMetric::Gauge(t, id, v) => AggregatedMetric::Gauge(*t, clone_id(id), *v),
        };
        r.push(copy);
        j = j + 1;
    }
    proof {
        assert(batch_view(r@) =~= batch_view(batch@));
    }
    r
}


impl Db {
    /// One aggregation cycle: drain the buffer, group and roll up the
    /// drained events, append every aggregated metric to the store, and
    /// deliver the batch to every subscriber with room in its queue.
    ///
    /// Every event collected before the call is accounted for in exactly
    /// this cycle's batch, and the buffer is left empty: nothing is carried
    /// into, or duplicated across, a later cycle.
    pub fn aggregate(&mut self)
        requires
            old(self).wf(),
            cycle_fits(old(self)@.collected),
        ensures
            final(self).wf(),
            final(self)@.collected == Seq::<CollectedMetricView>::empty(),
            final(self)@.store == store_after(old(self)@.store, cycle_batch(old(self)@.collected)),
            final(self)@.subscribers == publish_all(
                old(self)@.subscribers,
                cycle_batch(old(self)@.collected),
            ),
            final(self)@.interval == old(self)@.interval,
    {
        let ghost events = old(self)@.collected;
        let ghost store0 = old(self)@.store;
        let ghost subs0 = old(self)@.subscribers;

        // Get all the collected metrics; the buffer is swapped for an empty
        // one so that producers can go on submitting while this cycle runs.
        let collected_metrics = self.drain_collected();

        // Convert raw metrics into groups keyed by kind and identifier.
        let grouped = group(&collected_metrics);

        proof {
            aggregate::lemma_grouped_nonempty(events);
            assert forall|i: int|
                0 <= i < grouped@.len() implies rollup_fits(
                #[trigger] aggregate::grouped_view(grouped@)[i].0,
                aggregate::grouped_view(grouped@)[i].1,
            ) by {
                assert(aggregate::grouped_view(grouped@) == grouped_seq(events));
                assert(rollup_fits(grouped_seq(events)[i].0, grouped_seq(events)[i].1));
            }
        }

        // Roll up each group.
        let batch = aggregate(grouped);
        let ghost batchv = batch_view(batch@);
        proof {
            assert(batchv == cycle_batch(events));
        }

        // Append every aggregated metric to the store and deliver the
        // batch to the subscribers.
        self.store_and_publish(&batch);
    }

    /// Record one cycle's batch: append every aggregated metric to the
    /// time-series store, then deliver one copy of the batch to every
    /// subscriber with room in its queue. A full queue loses this batch
    /// without holding up the store or anyone else.
    pub fn store_and_publish(&mut self, batch: &Vec<AggregatedMetric>)
        requires
            old(self).wf(),
        ensures
            final(self).wf(),
            final(self)@.collected == old(self)@.collected,
            final(self)@.store == store_after(old(self)@.store, batch_view(batch@)),
            final(self)@.subscribers == publish_all(old(self)@.subscribers, batch_view(batch@)),
            final(self)@.interval == old(self)@.interval,
    {
        let ghost store0 = old(self)@.store;
        let ghost subs0 = old(self)@.subscribers;
        let ghost collected0 = old(self)@.collected;
        let ghost batchv = batch_view(batch@);

        // Append every aggregated metric to the time-series store.
        let ghost interval0 = self.aggregation_interval;
        let mut j: usize = 0;
        proof {
            assert(batchv.take(0) =~= Seq::<AggregatedMetricView>::empty());
        }
        while j < batch.len()
            invariant
                0 <= j <= batch@.len(),
                batchv == batch_view(batch@),
                store_wf(store_view(self.aggregated@)),
                store_view(self.aggregated@) == store_after(store0, batchv.take(j as int)),
                self@.subscribers == subs0,
                self@.collected == collected0,
                self.aggregation_interval == interval0,
            decreases batch@.len() - j,
        {
            proof {
                assert(batchv.take(j as int + 1).drop_last() =~= batchv.take(j as int));
                assert(batchv.take(j as int + 1).last() == batchv[j as int]);
                assert(aggregated_view(batch@[j as int]) == batchv[j as int]);
            }
            store_one(&mut self.aggregated, &batch[j]);
            j = j + 1;
        }
        proof {
            assert(batchv.take(batch@.len() as int) =~= batchv);
        }

        // Deliver one copy of the batch to every subscriber with room; a
        // full queue loses this batch without holding up anyone else.
        let ghost rawsubs0 = self.subscribers@;
        let ghost storen = store_view(self.aggregated@);
        proof {
            assert forall|i: int|
                0 <= i < rawsubs0.len() implies #[trigger] subscription_view(rawsubs0[i])
                == subs0[i] by {
                assert(self@.subscribers[i] == subscription_view(rawsubs0[i]));
            }
            assert(rawsubs0.len() == subs0.len());
            assert forall|i: int|
                0 <= i < subs0.len() implies #[trigger] subs0[i].len()
                <= SUBSCRIBER_QUEUE_CAPACITY by {
                assert(old(self).wf());
            }
        }
        let mut s: usize = 0;
        while s < self.subscribers.len()
            invariant
                0 <= s <= self.subscribers@.len(),
                self.subscribers@.len() == rawsubs0.len(),
                rawsubs0.len() == subs0.len(),
                batchv == batch_view(batch@),
                forall|i: int|
                    s <= i < rawsubs0.len() ==> self.subscribers@[i] == #[trigger] rawsubs0[i],
                forall|i: int|
                    0 <= i < s ==> subscription_view(#[trigger] self.subscribers@[i])
                        == publish_to(subscription_view(rawsubs0[i]), batchv),
                forall|i: int|
                    0 <= i < rawsubs0.len() ==> #[trigger] subscription_view(rawsubs0[i])
                        == subs0[i],
                forall|i: int|
                    0 <= i < subs0.len() ==> #[trigger] subs0[i].len()
                        <= SUBSCRIBER_QUEUE_CAPACITY,
                store_view(self.aggregated@) == storen,
                store_wf(storen),
                self@.collected == collected0,
                self.aggregation_interval == interval0,
            decreases self.subscribers@.len() - s,
        {
            let ghost qs0 = subscription_view(self.subscribers@[s as int]);
            let room = self.subscribers[s].queue.len() < SUBSCRIBER_QUEUE_CAPACITY;
            proof {
                assert(qs0.len() == self.subscribers@[s as int].queue@.len());
                assert(self.subscribers@[s as int] == rawsubs0[s as int]);
                assert(subscription_view(rawsubs0[s as int]) == subs0[s as int]);
                assert(qs0 == subs0[s as int]);
                assert(qs0.len() <= SUBSCRIBER_QUEUE_CAPACITY);
            }
            if room {
                let copy = clone_batch(batch);
                let sub = &mut self.subscribers[s];
                sub.queue.push(copy);
                proof {
                    assert(subscription_view(self.subscribers@[s as int]) =~= qs0.push(batchv));
                }
            }
            proof {
                assert(subscription_view(self.subscribers@[s as int]) == publish_to(qs0, batchv));
            }
            s = s + 1;
        }
        proof {
            assert forall|i: int|
                0 <= i < self.subscribers@.len() implies subscription_view(
                #[trigger] self.subscribers@[i],
            ) == publish_to(subs0[i], batchv) by {
                assert(subscription_view(rawsubs0[i]) == subs0[i]);
            }
            assert(self.subscribers@.map_values(|sub: Subscription| subscription_view(sub))
                =~= publish_all(subs0, batchv));
            assert(final(self)@.subscribers == publish_all(subs0, batchv));
            assert forall|i: int|
                0 <= i < final(self)@.subscribers.len() implies #[trigger] final(self)@.subscribers[i].len() <= SUBSCRIBER_QUEUE_CAPACITY by {
                assert(final(self)@.subscribers[i] == publish_to(
                    subscription_view(rawsubs0[i]),
                    batchv,
                ));
            }
        }
    }

    /// Register a new subscriber and hand back its handle. The subscriber
    /// starts with an empty queue and receives every batch published from
    /// now on, as long as its queue has room.
    pub fn aggregation_subscribe(&mut self) -> (handle: usize)
        requires
            old(self).wf(),
        ensures
            final(self).wf(),
            handle == old(self)@.subscribers.len(),
            final(self)@.subscribers == old(self)@.subscribers.push(
                Seq::<Seq<AggregatedMetricView>>::empty(),
            ),
            final(self)@.collected == old(self)@.collected,
            final(self)@.store == old(self)@.store,
            final(self)@.interval == old(self)@.interval,
    {
        let handle = self.subscribers.len();
        let fresh = Subscription { queue: Vec::new() };
        proof {
            assert(subscription_view(fresh) =~= Seq::<Seq<AggregatedMetricView>>::empty());
        }
        self.subscribers.push(fresh);
        proof {
            assert(final(self)@.subscribers =~= old(self)@.subscribers.push(
                Seq::<Seq<AggregatedMetricView>>::empty(),
            ));
        }
        handle
    }

    /// Take the oldest undelivered batch from a subscriber's queue, if any.
    /// An unknown handle receives nothing rather than failing.
    pub fn subscription_recv(&mut self, handle: usize) -> (r: Option<Vec<AggregatedMetric>>)
        requires
            old(self).wf(),
        ensures
            final(self).wf(),
            final(self)@.collected == old(self)@.collected,
            final(self)@.store == old(self)@.store,
            final(self)@.interval == old(self)@.interval,
            match r {
                Some(batch) => {
                    &&& handle < old(self)@.subscribers.len()
                    &&& old(self)@.subscribers[handle as int].len() >= 1
                    &&& batch_view(batch@) == old(self)@.subscribers[handle as int][0]
                    &&& final(self)@.subscribers == old(self)@.subscribers.update(
                        handle as int,
                        old(self)@.subscribers[handle as int].drop_first(),
                    )
                },
                None => {
                    &&& (handle >= old(self)@.subscribers.len() || old(
                        self,
                    )@.subscribers[handle as int].len() == 0)
                    &&& final(self)@.subscribers == old(self)@.subscribers
                },
            },
    {
        if handle >= self.subscribers.len() {
            return None;
        }
        let has_any = self.subscribers[handle].queue.len() > 0;
        proof {
            assert(subscription_view(self.subscribers@[handle as int]).len()
                == self.subscribers@[handle as int].queue@.len());
        }
        if !has_any {
            return None;
        }
        let ghost q0 = subscription_view(self.subscribers@[handle as int]);
        let sub = &mut self.subscribers[handle];
        let batch = sub.queue.remove(0);
        proof {
            assert(batch_view(batch@) == q0[0]);
            assert(subscription_view(self.subscribers@[handle as int]) =~= q0.drop_first());
            assert(final(self)@.subscribers =~= old(self)@.subscribers.update(
                handle as int,
                q0.drop_first(),
            ));
            assert forall|i: int|
                0 <= i < final(self)@.subscribers.len() implies #[trigger] final(self)@.subscribers[i].len() <= SUBSCRIBER_QUEUE_CAPACITY by {
                assert(old(self).wf());
                assert(old(self)@.subscribers[i].len() <= SUBSCRIBER_QUEUE_CAPACITY);
            }
        }
        Some(batch)
    }

    /// The full series stored for a key, or nothing when the key has no
    /// slot.
    pub fn series(&self, key: &AggregatedKey) -> (r: Option<Vec<(u64, i32)>>)
        ensures
            match r {
                Some(values) => exists|i: int|
                    0 <= i < self@.store.len() && agg_key(#[trigger] self@.store[i].0) == agg_key(
                        agg_key_view(*key),
                    ) && tv_view(values@) == self@.store[i].1,
                None => !store_contains(self@.store, agg_key(agg_key_view(*key))),
            },
    {
        let mut p: usize = 0;
        while p < self.aggregated.len()
            invariant
                0 <= p <= self.aggregated@.len(),
                forall|i: int|
                    0 <= i < p ==> agg_key(#[trigger] store_view(self.aggregated@)[i].0)
                        != agg_key(agg_key_view(*key)),
            decreases self.aggregated@.len() - p,
        {
            let entry = &self.aggregated[p];
            let same = agg_key_eq(key, &entry.0);
            proof {
                assert(store_view(self.aggregated@)[p as int].0 == agg_key_view(
                    self.aggregated@[p as int].0,
                ));
            }
            if same {
                let mut values: Vec<(u64, i32)> = Vec::new();
                let mut j: usize = 0;
                while j < entry.1.len()
                    invariant
                        0 <= j <= entry.1@.len(),
                        values@.len() == j,
                        forall|i: int| 0 <= i < j ==> values@[i] == entry.1@[i],
                    decreases entry.1@.len() - j,
                {
                    values.push(entry.1[j]);
                    j = j + 1;
                }
                proof {
                    assert(values@ =~= entry.1@);
                    assert(tv_view(values@) == store_view(self.aggregated@)[p as int].1);
                    assert(agg_key(self@.store[p as int].0) == agg_key(agg_key_view(*key))
                        && tv_view(values@) == self@.store[p as int].1);
                }
                return Some(values);
            }
            p = p + 1;
        }
        None
    }

    /// All keys that have a slot in the store, in slot order.
    pub fn keys(&self) -> (r: Vec<AggregatedKey>)
        ensures
            r@.len() == self@.store.len(),
            forall|i: int|
                0 <= i < r@.len() ==> agg_key_view(#[trigger] r@[i]) == self@.store[i].0,
    {
        let mut r: Vec<AggregatedKey> = Vec::new();
        let mut p: usize = 0;
        while p < self.aggregated.len()
            invariant
                0 <= p <= self.aggregated@.len(),
                r@.len() == p,
                forall|i: int|
                    0 <= i < p ==> agg_key_view(#[trigger] r@[i]) == store_view(
                        self.aggregated@,
                    )[i].0,
            decreases self.aggregated@.len() - p,
        {
            let copy = match &self.aggregated[p].0 {
                AggregatedKey::Count(id) => AggregatedKey::Count(clone_id(id)),
                AggregatedKey::Gauge(id) => AggregatedKey::Gauge(clone_id(id)),
            };
            r.push(copy);
            p = p + 1;
        }
        r
    }
}


/// Fan-out isolation: a publish delivers the batch to every subscriber
/// whose queue has room, whatever the state of the other subscribers. A
/// subscriber that never reads its channel fills its own queue and from
/// then on loses only its own deliveries.
pub proof fn lemma_fanout_isolation(
    subs: Seq<Seq<Seq<AggregatedMetricView>>>,
    batch: Seq<AggregatedMetricView>,
    full: int,
    open_sub: int,
)
    requires
        0 <= full < subs.len(),
        0 <= open_sub < subs.len(),
        subs[full].len() >= SUBSCRIBER_QUEUE_CAPACITY,
        subs[open_sub].len() < SUBSCRIBER_QUEUE_CAPACITY,
    ensures
        publish_all(subs, batch).len() == subs.len(),
        publish_all(subs, batch)[open_sub] == subs[open_sub].push(batch),
        publish_all(subs, batch)[full] == subs[full],
{
    assert(publish_all(subs, batch)[open_sub] == publish_to(subs[open_sub], batch));
    assert(publish_all(subs, batch)[full] == publish_to(subs[full], batch));
}


/// Whether one cycle over these events fits the machine: every Count
/// group's sum and every Histogram group's size fit the value type. The
/// host checks this before it rolls a drained batch up; a batch that fails
/// it indicates runaway producer values.
pub fn batch_fits(events_vec: &Vec<CollectedMetric>) -> (r: bool)
    ensures
        r == cycle_fits(events_view(events_vec@)),
{
    let ghost events = events_view(events_vec@);
    let grouped = aggregate::group(events_vec);
    proof {
        aggregate::lemma_grouped_nonempty(events);
    }
    let mut j: usize = 0;
    while j < grouped.len()
        invariant
            0 <= j <= grouped@.len(),
            events == events_view(events_vec@),
            aggregate::grouped_view(grouped@) == grouped_seq(events),
            forall|i: int|
                0 <= i < grouped_seq(events).len() ==> #[trigger] grouped_seq(
                    events,
                )[i].1.len() >= 1,
            forall|i: int|
                0 <= i < j ==> rollup_fits(
                    #[trigger] grouped_seq(events)[i].0,
                    grouped_seq(events)[i].1,
                ),
        decreases grouped@.len() - j,
    {
        let entry = &grouped[j];
        proof {
            assert(grouped_seq(events)[j as int] == aggregate::grouped_view(grouped@)[j as int]);
            assert(aggregate::grouped_view(grouped@)[j as int] == (
                aggregate::group_view(entry.0),
                tv_view(entry.1@),
            ));
        }
        match &entry.0 {
            aggregate::Group::Count(_id) => {
                let values = aggregate::values_exec(&entry.1);
                let total = aggregate::sum_exec(&values);
                if total < i32::MIN as i128 || total > i32::MAX as i128 {
                    proof {
                        assert(!rollup_fits(
                            grouped_seq(events)[j as int].0,
                            grouped_seq(events)[j as int].1,
                        ));
                    }
                    return false;
                }
            },
            aggregate::Group::Gauge(_id) => {},
            aggregate::Group::Histogram(_id) => {
                if entry.1.len() > i32::MAX as usize {
                    proof {
                        assert(!rollup_fits(
                            grouped_seq(events)[j as int].0,
                            grouped_seq(events)[j as int].1,
                        ));
                    }
                    return false;
                }
            },
        }
        proof {
            assert(rollup_fits(
                grouped_seq(events)[j as int].0,
                grouped_seq(events)[j as int].1,
            ));
        }
        j = j + 1;
    }
    true
}

impl Db {
    /// Whether the next cycle over the buffer fits the machine; see
    /// [`batch_fits`].
    pub fn aggregate_fits(&self) -> (r: bool)
        ensures
            r == cycle_fits(self@.collected),
    {
        batch_fits(&self.collected)
    }
}

} // verus!
