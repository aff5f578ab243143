//! Grouping and rollup engine: partitions a batch of measurement events by
//! (kind, identifier) and reduces each group into summary values.

use vstd::prelude::*;

use crate::metric::{
    aggregated_view, clone_id, collected_view, events_view, id_eq, id_key, id_view,
    AggregatedKind, AggregatedMetric, AggregatedMetricView, CollectedMetric, CollectedMetricView,
    Id, IdView, MetricKind,
};


verus! {

/// A grouping key: the kind of event together with the identifier the group
/// collects. Values of one group all share kind and identifier key.
#[derive(Debug, Eq, Hash, PartialEq)]
pub enum Group {
    Count(Id),
    Gauge(Id),
    Histogram(Id),
}

/// Mathematical view of a grouping key.
#[verifier::ext_equal]
pub struct GroupView {
    pub kind: MetricKind,
    pub id: IdView,
}

/// The addressing key of a group: kind plus identifier key.
pub open spec fn group_key(g: GroupView) -> (
    MetricKind,
    (Seq<char>, Set<(Seq<char>, Seq<char>)>),
) {
    (g.kind, id_key(g.id))
}

pub open spec fn group_view(g: Group) -> GroupView {
    match g {
        Group::Count(id) => GroupView { kind: MetricKind::Count, id: id_view(id) },
        Group::Gauge(id) => GroupView { kind: MetricKind::Gauge, id: id_view(id) },
        Group::Histogram(id) => GroupView { kind: MetricKind::Histogram, id: id_view(id) },
    }
}

/// The group an event belongs to.
pub open spec fn event_group(e: CollectedMetricView) -> GroupView {
    GroupView { kind: e.kind, id: e.id }
}

/// The addressing key of the group an event belongs to.
pub open spec fn event_key(e: CollectedMetricView) -> (
    MetricKind,
    (Seq<char>, Set<(Seq<char>, Seq<char>)>),
) {
    (e.kind, id_key(e.id))
}

/// Whether some group in the sequence has the given addressing key.
pub open spec fn contains_group_key(
    gs: Seq<GroupView>,
    k: (MetricKind, (Seq<char>, Set<(Seq<char>, Seq<char>)>)),
) -> bool {
    exists|i: int| 0 <= i < gs.len() && group_key(gs[i]) == k
}

/// The groups of a batch of events, one per distinct addressing key, in order
/// of first occurrence. A group carries the identifier of the first event
/// that opened it.
pub open spec fn groups_of(events: Seq<CollectedMetricView>) -> Seq<GroupView>
    decreases events.len(),
{
    if events.len() == 0 {
        Seq::empty()
    } else {
        let prefix = groups_of(events.drop_last());
        let e = events.last();
        if contains_group_key(prefix, event_key(e)) {
            prefix
        } else {
            prefix.push(event_group(e))
        }
    }
}

/// Whether an event belongs to the group with the given key.
pub open spec fn key_pred(
    k: (MetricKind, (Seq<char>, Set<(Seq<char>, Seq<char>)>)),
) -> spec_fn(CollectedMetricView) -> bool {
    |e: CollectedMetricView| event_key(e) == k
}

/// The ordered (timestamp, value) pairs of the events of one group, in
/// arrival order.
pub open spec fn group_values(
    events: Seq<CollectedMetricView>,
    k: (MetricKind, (Seq<char>, Set<(Seq<char>, Seq<char>)>)),
) -> Seq<(u64, int)> {
    events.filter(key_pred(k)).map_values(|e: CollectedMetricView| (e.time, e.value))
}

/// The fully grouped batch: each group paired with its values, groups in
/// order of first occurrence, values in arrival order.
pub open spec fn grouped_seq(events: Seq<CollectedMetricView>) -> Seq<
    (GroupView, Seq<(u64, int)>),
> {
    groups_of(events).map_values(|g: GroupView| (g, group_values(events, group_key(g))))
}

pub open spec fn tv_view(tvs: Seq<(u64, i32)>) -> Seq<(u64, int)> {
    tvs.map_values(|tv: (u64, i32)| (tv.0, tv.1 as int))
}

pub open spec fn grouped_view(g: Seq<(Group, Vec<(u64, i32)>)>) -> Seq<
    (GroupView, Seq<(u64, int)>),
> {
    g.map_values(|p: (Group, Vec<(u64, i32)>)| (group_view(p.0), tv_view(p.1@)))
}

/// No two groups in the sequence share an addressing key.
pub proof fn lemma_groups_of_unique(events: Seq<CollectedMetricView>)
    ensures
        forall|i: int, j: int|
            0 <= i < j < groups_of(events).len() ==> group_key(groups_of(events)[i])
                != group_key(groups_of(events)[j]),
    decreases events.len(),
{
    if events.len() > 0 {
        lemma_groups_of_unique(events.drop_last());
        let prefix = groups_of(events.drop_last());
        let e = events.last();
        if !contains_group_key(prefix, event_key(e)) {
            assert forall|i: int, j: int|
                0 <= i < j < groups_of(events).len() implies group_key(groups_of(events)[i])
                != group_key(groups_of(events)[j]) by {
                if j == groups_of(events).len() - 1 {
                    assert(!(group_key(prefix[i]) == event_key(e)));
                }
            }
        }
    }
}

/// A key has a group exactly when some event carries it.
pub proof fn lemma_groups_of_complete(events: Seq<CollectedMetricView>)
    ensures
        forall|k: (MetricKind, (Seq<char>, Set<(Seq<char>, Seq<char>)>))|
            contains_group_key(groups_of(events), k) <==> (exists|i: int|
                0 <= i < events.len() && event_key(#[trigger] events[i]) == k),
    decreases events.len(),
{
    if events.len() > 0 {
        lemma_groups_of_complete(events.drop_last());
        let prefix = groups_of(events.drop_last());
        let e = events.last();
        assert forall|k: (MetricKind, (Seq<char>, Set<(Seq<char>, Seq<char>)>))|
            contains_group_key(groups_of(events), k) implies (exists|i: int|
            0 <= i < events.len() && event_key(#[trigger] events[i]) == k) by {
            if contains_group_key(prefix, k) {
                let i = choose|i: int|
                    0 <= i < events.drop_last().len() && event_key(
                        #[trigger] events.drop_last()[i],
                    ) == k;
                assert(events[i] == events.drop_last()[i]);
            } else {
                assert(group_key(event_group(e)) == event_key(e));
                assert(event_key(events[events.len() - 1]) == k);
            }
        }
        assert forall|k: (MetricKind, (Seq<char>, Set<(Seq<char>, Seq<char>)>))|
            (exists|i: int|
                0 <= i < events.len() && event_key(#[trigger] events[i]) == k)
            implies contains_group_key(groups_of(events), k) by {
            let i = choose|i: int| 0 <= i < events.len() && event_key(events[i]) == k;
            if i < events.len() - 1 {
                assert(events.drop_last()[i] == events[i]);
                assert(contains_group_key(prefix, k));
                if contains_group_key(prefix, event_key(e)) {
                    assert(groups_of(events) == prefix);
                } else {
                    let p = choose|p: int| 0 <= p < prefix.len() && group_key(prefix[p]) == k;
                    assert(group_key(groups_of(events)[p]) == k);
                }
            } else {
                if contains_group_key(prefix, event_key(e)) {
                } else {
                    let n = groups_of(events).len() - 1;
                    assert(group_key(groups_of(events)[n]) == event_key(e));
                }
            }
        }
    }
}

fn group_matches(g: &Group, m: &CollectedMetric) -> (r: bool)
    ensures
        r == (group_key(group_view(*g)) == event_key(collected_view(*m))),
{
    match (g, m) {
        (Group::Count(gid), CollectedMetric::Count(_t, mid, _v)) => id_eq(gid, mid),
        (Group::Gauge(gid), CollectedMetric::Gauge(_t, mid, _v)) => id_eq(gid, mid),
        (Group::Histogram(gid), CollectedMetric::Histogram(_t, mid, _v)) => id_eq(gid, mid),
        _ => false,
    }
}

fn find_group(grouped: &Vec<(Group, Vec<(u64, i32)>)>, m: &CollectedMetric) -> (r: Option<usize>)
    ensures
        match r {
            Some(p) => 0 <= p < grouped@.len() && group_key(group_view(grouped@[p as int].0))
                == event_key(collected_view(*m)),
            None => forall|i: int|
                0 <= i < grouped@.len() ==> group_key(group_view(#[trigger] grouped@[i].0))
                    != event_key(collected_view(*m)),
        },
{
    let mut j: usize = 0;
    while j < grouped.len()
        invariant
            0 <= j <= grouped@.len(),
            forall|i: int|
                0 <= i < j ==> group_key(group_view(#[trigger] grouped@[i].0)) != event_key(
                    collected_view(*m),
                ),
        decreases grouped@.len() - j,
    {
        if group_matches(&grouped[j].0, m) {
            return Some(j);
        }
        j = j + 1;
    }
    None
}

fn event_group_exec(m: &CollectedMetric) -> (g: Group)
    ensures
        group_view(g) == event_group(collected_view(*m)),
{
    match m {
        CollectedMetric::Count(_t, id, _v) => Group::Count(clone_id(id)),
        CollectedMetric::Gauge(_t, id, _v) => Group::Gauge(clone_id(id)),
        CollectedMetric::Histogram(_t, id, _v) => Group::Histogram(clone_id(id)),
    }
}

fn event_tv(m: &CollectedMetric) -> (tv: (u64, i32))
    ensures
        tv.0 == collected_view(*m).time,
        tv.1 as int == collected_view(*m).value,
{
    match m {
        CollectedMetric::Count(t, _id, v) => (*t, *v),
        CollectedMetric::Gauge(t, _id, v) => (*t, *v),
        CollectedMetric::Histogram(t, _id, v) => (*t, *v),
    }
}

/// Group metrics by their kind and identifier. Groups appear in order of
/// first occurrence; a group's values keep arrival order.
pub fn group(metrics: &Vec<CollectedMetric>) -> (r: Vec<(Group, Vec<(u64, i32)>)>)
    ensures
        grouped_view(r@) == grouped_seq(events_view(metrics@)),
{
    let ghost all = events_view(metrics@);
    let mut grouped: Vec<(Group, Vec<(u64, i32)>)> = Vec::new();
    let mut idx: usize = 0;
    proof {
        assert(all.take(0) =~= Seq::empty());
        assert(grouped_view(grouped@) =~~= grouped_seq(all.take(0)));
    }
    while idx < metrics.len()
        invariant
            0 <= idx <= metrics@.len(),
            all == events_view(metrics@),
            grouped_view(grouped@) == grouped_seq(all.take(idx as int)),
        decreases metrics@.len() - idx,
    {
        let m = &metrics[idx];
        let tv = event_tv(m);
        let found = find_group(&grouped, m);
        let ghost g0 = grouped@;
        let ghost pre = all.take(idx as int);
        let ghost e = all[idx as int];
        proof {
            lemma_take_push(all, idx as int);
            lemma_groups_of_unique(pre);
            assert(collected_view(metrics@[idx as int]) == e);
            assert(grouped_view(g0).len() == g0.len());
            assert(grouped_seq(pre).len() == groups_of(pre).len());
            assert forall|j: int|
                0 <= j < g0.len() implies #[trigger] grouped_seq(pre)[j] == (
                groups_of(pre)[j],
                group_values(pre, group_key(groups_of(pre)[j])),
            ) && grouped_view(g0)[j] == grouped_seq(pre)[j] && grouped_view(g0)[j] == (
                group_view(g0[j].0),
                tv_view(g0[j].1@),
            ) by {
                assert(grouped_view(g0)[j] == (group_view(g0[j].0), tv_view(g0[j].1@)));
                assert(grouped_seq(pre)[j] == (
                    groups_of(pre)[j],
                    group_values(pre, group_key(groups_of(pre)[j])),
                ));
            }
        }
        match found {
            Some(p) => {
                let entry = &mut grouped[p];
                entry.1.push(tv);
                proof {
                    let pi = p as int;
                    assert(grouped@ == g0.update(pi, (g0[pi].0, grouped@[pi].1)));
                    assert(grouped@[pi].1@ == g0[pi].1@.push(tv));
                    assert(tv_view(grouped@[pi].1@) =~= tv_view(g0[pi].1@).push(
                        (e.time, e.value),
                    ));
                    assert forall|j: int|
                        0 <= j < g0.len() && j != pi implies grouped_view(grouped@)[j]
                        == grouped_view(g0)[j] by {
                        assert(grouped@[j] == g0[j]);
                    }
                    assert(grouped_view(grouped@)[pi].0 == grouped_view(g0)[pi].0);
                    assert(grouped_view(grouped@)[pi].1 == grouped_view(g0)[pi].1.push(
                        (e.time, e.value),
                    ));
                    lemma_group_step_existing(all, idx as int, grouped@, pi);
                }
            },
            None => {
                let g = event_group_exec(m);
                let mut vs: Vec<(u64, i32)> = Vec::new();
                vs.push(tv);
                grouped.push((g, vs));
                proof {
                    let n = g0.len() as int;
                    assert(grouped@ == g0.push((g, vs)));
                    assert forall|j: int|
                        0 <= j < n implies grouped_view(grouped@)[j] == grouped_view(g0)[j] by {
                        assert(grouped@[j] == g0[j]);
                    }
                    assert(grouped_view(grouped@)[n].0 == event_group(e));
                    assert(tv_view(vs@) =~= seq![(e.time, e.value)]);
                    assert(grouped_view(grouped@)[n].1 == tv_view(vs@));
                    assert forall|i: int|
                        0 <= i < groups_of(pre).len() implies group_key(groups_of(pre)[i])
                        != event_key(e) by {
                        assert(grouped_seq(pre)[i].0 == groups_of(pre)[i]);
                        assert(grouped_view(g0)[i].0 == group_view(g0[i].0));
                        assert(group_key(group_view(g0[i].0)) != event_key(e));
                    }
                    assert(!contains_group_key(groups_of(pre), event_key(e)));
                    lemma_group_step_new(all, idx as int, grouped@);
                }
            },
        }
        idx = idx + 1;
    }
    proof {
        assert(all.take(metrics@.len() as int) =~= all);
    }
    grouped
}

/// Taking one more element appends it.
proof fn lemma_take_push(s: Seq<CollectedMetricView>, i: int)
    requires
        0 <= i < s.len(),
    ensures
        s.take(i + 1) == s.take(i).push(s[i]),
        s.take(i + 1).drop_last() == s.take(i),
        s.take(i + 1).last() == s[i],
{
    assert(s.take(i + 1) =~= s.take(i).push(s[i]));
    assert(s.take(i + 1).drop_last() =~= s.take(i));
}

/// After appending the new event's pair to the matching group, the grouped
/// sequence is the grouped view of one more event.
proof fn lemma_group_step_existing(
    all: Seq<CollectedMetricView>,
    i: int,
    updated: Seq<(Group, Vec<(u64, i32)>)>,
    p: int,
)
    requires
        0 <= i < all.len(),
        0 <= p < updated.len(),
        forall|a: int, b: int|
            0 <= a < b < groups_of(all.take(i)).len() ==> group_key(groups_of(all.take(i))[a])
                != group_key(groups_of(all.take(i))[b]),
        ({
            let prev = grouped_seq(all.take(i));
            let e = all[i];
            &&& grouped_view(updated).len() == prev.len()
            &&& group_key(grouped_view(updated)[p].0) == event_key(e)
            &&& forall|j: int|
                0 <= j < prev.len() && j != p ==> grouped_view(updated)[j] == prev[j]
            &&& grouped_view(updated)[p].0 == prev[p].0
            &&& grouped_view(updated)[p].1 == prev[p].1.push((e.time, e.value))
        }),
    ensures
        grouped_view(updated) == grouped_seq(all.take(i + 1)),
{
    let prev = grouped_seq(all.take(i));
    let e = all[i];
    let pre = all.take(i);
    let post = all.take(i + 1);
    lemma_take_push(all, i);
    assert(post.drop_last() == pre);
    assert(contains_group_key(groups_of(pre), event_key(e))) by {
        assert(group_key(groups_of(pre)[p]) == event_key(e));
    }
    assert(groups_of(post) == groups_of(pre));
    assert forall|j: int| 0 <= j < prev.len() implies grouped_view(updated)[j] == grouped_seq(
        post,
    )[j] by {
        let g = groups_of(pre)[j];
        assert(prev[j] == (g, group_values(pre, group_key(g))));
        assert(grouped_seq(post)[j] == (g, group_values(post, group_key(g))));
        lemma_group_values_step(pre, e, group_key(g));
        assert(pre.push(e) == post);
        if j == p {
            assert(group_key(g) == event_key(e)) by {
                assert(grouped_view(updated)[p].0 == prev[p].0);
            }
            assert(group_values(post, group_key(g)) == group_values(pre, group_key(g)).push(
                (e.time, e.value),
            ));
        } else {
            assert(group_key(g) != event_key(e)) by {
                if group_key(g) == event_key(e) {
                    assert(group_key(grouped_view(updated)[j].0) == group_key(
                        grouped_view(updated)[p].0,
                    ));
                    assert(group_key(groups_of(pre)[j]) == group_key(groups_of(pre)[p]));
                }
            }
            assert(group_values(post, group_key(g)) == group_values(pre, group_key(g)));
        }
    }
    assert(grouped_view(updated) =~= grouped_seq(post));
}

/// After opening a new group for the event, the grouped sequence is the
/// grouped view of one more event.
proof fn lemma_group_step_new(
    all: Seq<CollectedMetricView>,
    i: int,
    updated: Seq<(Group, Vec<(u64, i32)>)>,
)
    requires
        0 <= i < all.len(),
        !contains_group_key(groups_of(all.take(i)), event_key(all[i])),
        ({
            let prev = grouped_seq(all.take(i));
            let e = all[i];
            &&& grouped_view(updated).len() == prev.len() + 1
            &&& forall|j: int| 0 <= j < prev.len() ==> grouped_view(updated)[j] == prev[j]
            &&& grouped_view(updated)[prev.len() as int].0 == event_group(e)
            &&& grouped_view(updated)[prev.len() as int].1 =~= seq![(e.time, e.value)]
        }),
    ensures
        grouped_view(updated) == grouped_seq(all.take(i + 1)),
{
    let prev = grouped_seq(all.take(i));
    let e = all[i];
    let pre = all.take(i);
    let post = all.take(i + 1);
    lemma_take_push(all, i);
    assert(post.drop_last() == pre);
    assert(groups_of(post) == groups_of(pre).push(event_group(e)));
    assert forall|j: int| 0 <= j < prev.len() implies grouped_view(updated)[j] == grouped_seq(
        post,
    )[j] by {
        let g = groups_of(pre)[j];
        assert(prev[j] == (g, group_values(pre, group_key(g))));
        assert(groups_of(post)[j] == g);
        assert(grouped_seq(post)[j] == (g, group_values(post, group_key(g))));
        lemma_group_values_step(pre, e, group_key(g));
        assert(pre.push(e) == post);
        assert(group_key(g) != event_key(e)) by {
            assert(!(group_key(groups_of(pre)[j]) == event_key(e)));
        }
        assert(group_values(post, group_key(g)) == group_values(pre, group_key(g)));
    }
    let n = prev.len() as int;
    assert(grouped_view(updated)[n] == grouped_seq(post)[n]) by {
        let k = group_key(event_group(e));
        assert(k == event_key(e));
        assert(groups_of(post)[n] == event_group(e));
        assert(grouped_seq(post)[n] == (event_group(e), group_values(post, k)));
        lemma_group_values_step(pre, e, k);
        assert(pre.push(e) == post);
        assert(group_values(pre, k) =~= Seq::<(u64, int)>::empty()) by {
            lemma_groups_of_complete(pre);
            assert(!(exists|i: int|
                0 <= i < pre.len() && event_key(#[trigger] pre[i]) == k));
            lemma_group_values_empty(pre, k);
        }
        assert(group_values(post, k) =~= seq![(e.time, e.value)]);
    }
    assert(grouped_view(updated) =~= grouped_seq(post));
}

/// A key no event of the batch carries has no values.
proof fn lemma_group_values_empty(
    events: Seq<CollectedMetricView>,
    k: (MetricKind, (Seq<char>, Set<(Seq<char>, Seq<char>)>)),
)
    requires
        !(exists|i: int| 0 <= i < events.len() && event_key(#[trigger] events[i]) == k),
    ensures
        group_values(events, k) == Seq::<(u64, int)>::empty(),
    decreases events.len(),
{
    reveal(Seq::filter);
    if events.len() > 0 {
        assert forall|i: int|
            0 <= i < events.drop_last().len() implies event_key(
            #[trigger] events.drop_last()[i],
        ) != k by {
            assert(events.drop_last()[i] == events[i]);
        }
        lemma_group_values_empty(events.drop_last(), k);
        assert(event_key(events.last()) != k);
        assert(group_values(events, k) =~= Seq::<(u64, int)>::empty());
    } else {
        assert(events.filter(key_pred(k)) =~= Seq::<CollectedMetricView>::empty());
        assert(group_values(events, k) =~= Seq::<(u64, int)>::empty());
    }
}

/// Appending an event extends exactly the values of its own key.
proof fn lemma_group_values_step(
    events: Seq<CollectedMetricView>,
    e: CollectedMetricView,
    k: (MetricKind, (Seq<char>, Set<(Seq<char>, Seq<char>)>)),
)
    ensures
        event_key(e) == k ==> group_values(events.push(e), k) == group_values(events, k).push(
            (e.time, e.value),
        ),
        event_key(e) != k ==> group_values(events.push(e), k) == group_values(events, k),
{
    reveal(Seq::filter);
    let pred = key_pred(k);
    assert(events.push(e).drop_last() =~= events);
    assert(events.push(e).last() == e);
    if event_key(e) == k {
        assert(events.push(e).filter(pred) == events.filter(pred).push(e));
        assert(group_values(events.push(e), k) =~= group_values(events, k).push(
            (e.time, e.value),
        ));
    } else {
        assert(events.push(e).filter(pred) == events.filter(pred));
    }
}

} // verus!

// ---------------------------------------------------------------------------
// Rollup: reduce each group into one or more summary values.
// ---------------------------------------------------------------------------

use vstd::relations::{sorted_by, total_ordering};
use vstd::seq_lib::lemma_sorted_unique;

verus! {

/// The integer views of a sequence of values.
pub open spec fn ints_of(s: Seq<i32>) -> Seq<int> {
    s.map_values(|x: i32| x as int)
}

/// The values of a group, its timestamps set aside.
pub open spec fn values_of(tvs: Seq<(u64, int)>) -> Seq<int> {
    tvs.map_values(|tv: (u64, int)| tv.1)
}

/// The ordering by which histogram samples are sorted.
pub open spec fn le_int() -> spec_fn(int, int) -> bool {
    |a: int, b: int| a <= b
}

/// The values sorted ascending.
pub open spec fn sorted_of(vs: Seq<int>) -> Seq<int> {
    vs.sort_by(le_int())
}

/// The sum of a sequence of values.
pub open spec fn sum_of(vs: Seq<int>) -> int
    decreases vs.len(),
{
    if vs.len() == 0 {
        0
    } else {
        sum_of(vs.drop_last()) + vs.last()
    }
}

/// The maximum of a non-empty sequence of values.
pub open spec fn max_of(vs: Seq<int>) -> int
    recommends
        vs.len() >= 1,
    decreases vs.len(),
{
    if vs.len() <= 1 {
        vs[0]
    } else {
        let m = max_of(vs.drop_last());
        if vs.last() > m {
            vs.last()
        } else {
            m
        }
    }
}

/// The maximum (most recent) timestamp of a non-empty group: the
/// representative timestamp of its rollup.
pub open spec fn max_time_of(tvs: Seq<(u64, int)>) -> u64
    recommends
        tvs.len() >= 1,
    decreases tvs.len(),
{
    if tvs.len() <= 1 {
        tvs[0].0
    } else {
        let m = max_time_of(tvs.drop_last());
        if tvs.last().0 > m {
            tvs.last().0
        } else {
            m
        }
    }
}

/// The arithmetic mean truncated toward zero.
pub open spec fn mean_trunc(vs: Seq<int>) -> int
    recommends
        vs.len() >= 1,
{
    let s = sum_of(vs);
    if s >= 0 {
        s / (vs.len() as int)
    } else {
        -((-s) / (vs.len() as int))
    }
}

/// Nearest-rank percentile position: the truncated index `n * pct / 100`,
/// clamped to the last position when out of range.
pub open spec fn percentile_index(n: int, pct: int) -> int
    recommends
        n >= 1,
{
    let i = (n * pct) / 100;
    if i < n {
        i
    } else {
        n - 1
    }
}

/// An identifier with a suffix added to the end of its name; dimensions
/// unchanged.
pub open spec fn suffixed(id: IdView, sfx: Seq<char>) -> IdView {
    IdView { name: id.name + sfx, dims: id.dims }
}

pub open spec fn gauge_view(t: u64, id: IdView, v: int) -> AggregatedMetricView {
    AggregatedMetricView { kind: AggregatedKind::Gauge, time: t, id, value: v }
}

pub open spec fn count_view(t: u64, id: IdView, v: int) -> AggregatedMetricView {
    AggregatedMetricView { kind: AggregatedKind::Count, time: t, id, value: v }
}

/// The rollup of one group, per the aggregation policy: a Count group sums,
/// a Gauge group keeps the maximum, a Histogram group fans out into six
/// derived gauges and one count, all timestamped with the group's most
/// recent timestamp.
pub open spec fn rollup_view(g: GroupView, tvs: Seq<(u64, int)>) -> Seq<AggregatedMetricView>
    recommends
        tvs.len() >= 1,
{
    let t = max_time_of(tvs);
    let vs = values_of(tvs);
    match g.kind {
        MetricKind::Count => seq![count_view(t, g.id, sum_of(vs))],
        MetricKind::Gauge => seq![gauge_view(t, g.id, max_of(vs))],
        MetricKind::Histogram => {
            let sv = sorted_of(vs);
            let n = vs.len() as int;
            seq![
                gauge_view(t, suffixed(g.id, ".min"@), sv[0]),
                gauge_view(t, suffixed(g.id, ".max"@), sv[n - 1]),
                gauge_view(t, suffixed(g.id, ".median"@), sv[n / 2]),
                gauge_view(t, suffixed(g.id, ".avg"@), mean_trunc(vs)),
                gauge_view(t, suffixed(g.id, ".95percentile"@), sv[percentile_index(n, 95)]),
                gauge_view(t, suffixed(g.id, ".99percentile"@), sv[percentile_index(n, 99)]),
                count_view(t, suffixed(g.id, ".count"@), n),
            ]
        },
    }
}

/// Whether one group's rollup fits the machine: the group is non-empty, a
/// Count group's sum fits the output value type, and a Histogram group's
/// size fits it too.
pub open spec fn rollup_fits(g: GroupView, tvs: Seq<(u64, int)>) -> bool {
    &&& tvs.len() >= 1
    &&& (g.kind == MetricKind::Count ==> i32::MIN <= sum_of(values_of(tvs)) <= i32::MAX)
    &&& (g.kind == MetricKind::Histogram ==> tvs.len() <= i32::MAX)
}

pub open spec fn rollup_pair() -> spec_fn((GroupView, Seq<(u64, int)>)) -> Seq<
    AggregatedMetricView,
> {
    |p: (GroupView, Seq<(u64, int)>)| rollup_view(p.0, p.1)
}

/// The whole aggregated batch: each group's rollup, in group order.
pub open spec fn aggregate_seq(gs: Seq<(GroupView, Seq<(u64, int)>)>) -> Seq<
    AggregatedMetricView,
> {
    gs.flat_map(rollup_pair())
}

/// The views of a batch of aggregated metrics.
pub open spec fn batch_view(ms: Seq<AggregatedMetric>) -> Seq<AggregatedMetricView> {
    ms.map_values(|m: AggregatedMetric| aggregated_view(m))
}

/// Add a suffix to the end of the name of a metric.
pub fn suffix_id(id: &Id, suffix: &str) -> (r: Id)
    ensures
        id_view(r) == suffixed(id_view(*id), suffix@),
{
    let mut name = id.0.clone();
    name.append(suffix);
    let copy = clone_id(id);
    let r = (name, copy.1);
    proof {
        assert(id_view(r) =~= suffixed(id_view(*id), suffix@));
    }
    r
}

pub(crate) fn values_exec(tvs: &Vec<(u64, i32)>) -> (r: Vec<i32>)
    ensures
        ints_of(r@) == values_of(tv_view(tvs@)),
        r@.len() == tvs@.len(),
{
    let mut r: Vec<i32> = Vec::new();
    let mut j: usize = 0;
    while j < tvs.len()
        invariant
            0 <= j <= tvs@.len(),
            r@.len() == j,
            forall|i: int| 0 <= i < j ==> r@[i] == tvs@[i].1,
        decreases tvs@.len() - j,
    {
        r.push(tvs[j].1);
        j = j + 1;
    }
    proof {
        assert forall|i: int| 0 <= i < r@.len() implies ints_of(r@)[i] == values_of(
            tv_view(tvs@),
        )[i] by {
            assert(ints_of(r@)[i] == r@[i] as int);
            assert(tv_view(tvs@)[i] == (tvs@[i].0, tvs@[i].1 as int));
            assert(values_of(tv_view(tvs@))[i] == tv_view(tvs@)[i].1);
        }
        assert(ints_of(r@) =~= values_of(tv_view(tvs@)));
    }
    r
}

fn max_time_exec(tvs: &Vec<(u64, i32)>) -> (r: u64)
    requires
        tvs@.len() >= 1,
    ensures
        r == max_time_of(tv_view(tvs@)),
{
    let ghost tvv = tv_view(tvs@);
    let mut r = tvs[0].0;
    let mut j: usize = 1;
    proof {
        assert(tvv.take(1).len() == 1);
        assert(tvv.take(1)[0] == tvv[0]);
        assert(r == max_time_of(tvv.take(1)));
    }
    while j < tvs.len()
        invariant
            1 <= j <= tvs@.len(),
            tvv == tv_view(tvs@),
            r == max_time_of(tvv.take(j as int)),
        decreases tvs@.len() - j,
    {
        proof {
            let k = j as int;
            assert(tvv.take(k + 1).drop_last() =~= tvv.take(k));
            assert(tvv.take(k + 1).last() == tvv[k]);
            assert(tvv.take(k + 1).len() == k + 1);
        }
        if tvs[j].0 > r {
            r = tvs[j].0;
        }
        j = j + 1;
    }
    proof {
        assert(tvv.take(tvs@.len() as int) =~= tvv);
    }
    r
}

fn max_value_exec(values: &Vec<i32>) -> (r: i32)
    requires
        values@.len() >= 1,
    ensures
        r as int == max_of(ints_of(values@)),
{
    let ghost vs = ints_of(values@);
    let mut r = values[0];
    let mut j: usize = 1;
    proof {
        assert(vs.take(1).len() == 1);
        assert(vs.take(1)[0] == vs[0]);
        assert(r as int == max_of(vs.take(1)));
    }
    while j < values.len()
        invariant
            1 <= j <= values@.len(),
            vs == ints_of(values@),
            r as int == max_of(vs.take(j as int)),
        decreases values@.len() - j,
    {
        proof {
            let k = j as int;
            assert(vs.take(k + 1).drop_last() =~= vs.take(k));
            assert(vs.take(k + 1).last() == vs[k]);
            assert(vs.take(k + 1).len() == k + 1);
        }
        if values[j] > r {
            r = values[j];
        }
        j = j + 1;
    }
    proof {
        assert(vs.take(values@.len() as int) =~= vs);
    }
    r
}

pub(crate) fn sum_exec(values: &Vec<i32>) -> (r: i128)
    ensures
        r as int == sum_of(ints_of(values@)),
{
    let ghost vs = ints_of(values@);
    let mut total: i128 = 0;
    let mut j: usize = 0;
    proof {
        assert(vs.take(0) =~= Seq::<int>::empty());
    }
    while j < values.len()
        invariant
            0 <= j <= values@.len(),
            vs == ints_of(values@),
            total as int == sum_of(vs.take(j as int)),
            -(j as int) * 0x8000_0000 <= total as int <= (j as int) * 0x7fff_ffff,
        decreases values@.len() - j,
    {
        proof {
            let k = j as int;
            assert(vs.take(k + 1).drop_last() =~= vs.take(k));
            assert(vs.take(k + 1).last() == vs[k]);
            assert(vs.take(k + 1).len() == k + 1);
            assert(vs[k] == values@[k] as int);
        }
        total = total + values[j] as i128;
        j = j + 1;
    }
    proof {
        assert(vs.take(values@.len() as int) =~= vs);
    }
    total
}

/// The sum of values each within the value type's range is within the range
/// scaled by the length.
proof fn lemma_sum_in_range(vs: Seq<int>)
    requires
        forall|i: int| 0 <= i < vs.len() ==> i32::MIN <= #[trigger] vs[i] <= i32::MAX,
    ensures
        vs.len() * (i32::MIN as int) <= sum_of(vs) <= vs.len() * (i32::MAX as int),
    decreases vs.len(),
{
    if vs.len() > 0 {
        assert forall|i: int|
            0 <= i < vs.drop_last().len() implies i32::MIN <= #[trigger] vs.drop_last()[i]
            <= i32::MAX by {
            assert(vs.drop_last()[i] == vs[i]);
        }
        lemma_sum_in_range(vs.drop_last());
    }
}


/// The truncated mean of values in the value type's range is itself in range.
proof fn lemma_mean_in_range(vs: Seq<int>)
    requires
        vs.len() >= 1,
        forall|i: int| 0 <= i < vs.len() ==> i32::MIN <= #[trigger] vs[i] <= i32::MAX,
    ensures
        i32::MIN <= mean_trunc(vs) <= i32::MAX,
{
    lemma_sum_in_range(vs);
    let s = sum_of(vs);
    let n = vs.len() as int;
    if s >= 0 {
        vstd::arithmetic::div_mod::lemma_div_pos_is_pos(s, n);
        vstd::arithmetic::div_mod::lemma_div_is_ordered(s, n * (i32::MAX as int), n);
        vstd::arithmetic::div_mod::lemma_div_multiples_vanish(i32::MAX as int, n);
        assert((n * (i32::MAX as int)) / n == i32::MAX as int);
    } else {
        vstd::arithmetic::div_mod::lemma_div_pos_is_pos(-s, n);
        vstd::arithmetic::div_mod::lemma_div_is_ordered(-s, n * (-(i32::MIN as int)), n);
        vstd::arithmetic::div_mod::lemma_div_multiples_vanish(-(i32::MIN as int), n);
        assert((n * (-(i32::MIN as int))) / n == -(i32::MIN as int));
        assert((-s) / n <= -(i32::MIN as int));
    }
}

/// Every value of a sequence of machine integers is in the type's range.
proof fn lemma_ints_in_range(values: Seq<i32>)
    ensures
        forall|i: int|
            0 <= i < ints_of(values).len() ==> i32::MIN <= #[trigger] ints_of(values)[i]
                <= i32::MAX,
{
    assert forall|i: int|
        0 <= i < ints_of(values).len() implies i32::MIN <= #[trigger] ints_of(values)[i]
        <= i32::MAX by {
        assert(ints_of(values)[i] == values[i] as int);
    }
}

fn mean_exec(values: &Vec<i32>) -> (r: i32)
    requires
        values@.len() >= 1,
    ensures
        r as int == mean_trunc(ints_of(values@)),
{
    let ghost vs = ints_of(values@);
    proof {
        lemma_ints_in_range(values@);
        lemma_sum_in_range(vs);
        lemma_mean_in_range(vs);
    }
    let n = values.len();
    let total = sum_exec(values);
    if total >= 0 {
        let q = (total as u128) / (n as u128);
        proof {
            vstd::arithmetic::div_mod::lemma_div_is_ordered(
                sum_of(vs),
                (n as int) * (i32::MAX as int),
                n as int,
            );
            vstd::arithmetic::div_mod::lemma_div_multiples_vanish(i32::MAX as int, n as int);
        }
        q as i32
    } else {
        let neg = -total;
        let q = (neg as u128) / (n as u128);
        proof {
            vstd::arithmetic::div_mod::lemma_div_is_ordered(
                -sum_of(vs),
                (n as int) * (-(i32::MIN as int)),
                n as int,
            );
            vstd::arithmetic::div_mod::lemma_div_multiples_vanish(-(i32::MIN as int), n as int);
        }
        let qi = -(q as i128);
        qi as i32
    }
}


/// A copy of the values, sorted ascending.
fn sorted_copy(values: &Vec<i32>) -> (r: Vec<i32>)
    ensures
        ints_of(r@) == sorted_of(ints_of(values@)),
        r@.len() == values@.len(),
{
    broadcast use vstd::seq_lib::group_to_multiset_ensures;
    broadcast use vstd::seq_lib::to_multiset_insert;

    let ghost target = ints_of(values@);
    let mut r: Vec<i32> = Vec::new();
    let mut j: usize = 0;
    proof {
        assert(target.take(0) =~= Seq::<int>::empty());
        assert(ints_of(r@) =~= Seq::<int>::empty());
        assert(ints_of(r@).to_multiset() =~= target.take(0).to_multiset());
    }
    while j < values.len()
        invariant
            0 <= j <= values@.len(),
            target == ints_of(values@),
            r@.len() == j,
            sorted_by(ints_of(r@), le_int()),
            ints_of(r@).to_multiset() == target.take(j as int).to_multiset(),
        decreases values@.len() - j,
    {
        let x = values[j];
        let ghost xi = x as int;
        let ghost rv = ints_of(r@);
        let mut p: usize = 0;
        while p < r.len() && r[p] <= x
            invariant
                0 <= p <= r@.len(),
                rv == ints_of(r@),
                xi == x as int,
                forall|i: int| 0 <= i < p ==> rv[i] <= xi,
            decreases r@.len() - p,
        {
            proof {
                assert(rv[p as int] == r@[p as int] as int);
            }
            p = p + 1;
        }
        proof {
            if p < r@.len() {
                assert(r@[p as int] as int > xi);
                assert(rv[p as int] > xi);
            }
        }
        r.insert(p, x);
        proof {
            broadcast use vstd::seq_lib::group_to_multiset_ensures;
            broadcast use vstd::seq_lib::to_multiset_insert;

            let k = j as int;
            let pi = p as int;
            let rv2 = ints_of(r@);
            // the new integer view is the old one with the value inserted
            assert(rv2 =~= rv.insert(pi, xi)) by {
                rv.insert_ensures(pi, xi);
                assert forall|i: int| 0 <= i < rv2.len() implies rv2[i] == rv.insert(pi, xi)[i] by {
                    assert(rv2[i] == r@[i] as int);
                    if i < pi {
                    } else if i == pi {
                    } else {
                        assert(rv.insert(pi, xi)[i] == rv[i - 1]);
                    }
                }
            }
            // sortedness is kept
            assert(sorted_by(rv2, le_int())) by {
                rv.insert_ensures(pi, xi);
                assert forall|a: int, b: int| 0 <= a < b < rv2.len() implies le_int()(
                    rv2[a],
                    rv2[b],
                ) by {
                    if b < pi {
                        assert(rv2[a] == rv[a] && rv2[b] == rv[b]);
                    } else if a < pi && b == pi {
                        assert(rv2[a] == rv[a] && rv2[b] == xi);
                    } else if a < pi && b > pi {
                        assert(rv2[a] == rv[a] && rv2[b] == rv[b - 1]);
                        if b - 1 >= pi {
                            assert(rv[pi] > xi);
                            assert(le_int()(rv[pi], rv[b - 1]));
                        }
                    } else if a == pi && b > pi {
                        assert(rv2[a] == xi && rv2[b] == rv[b - 1]);
                        assert(rv[pi] > xi);
                        assert(le_int()(rv[pi], rv[b - 1]));
                    } else {
                        assert(rv2[a] == rv[a - 1] && rv2[b] == rv[b - 1]);
                    }
                }
            }
            // one more element of the input is accounted for
            assert(target.take(k + 1).drop_last() =~= target.take(k));
            assert(target.take(k + 1).last() == target[k]);
            assert(target.take(k + 1) =~= target.take(k).push(xi));
            assert(xi == target[k]);
            assert(rv.insert(pi, xi).to_multiset() == rv.to_multiset().insert(xi));
            assert(rv2.to_multiset() == rv.to_multiset().insert(xi));
            assert(target.take(k).push(xi).to_multiset() == target.take(k).to_multiset().insert(
                xi,
            ));
            assert(rv2.to_multiset() =~= target.take(k + 1).to_multiset());
        }
        j = j + 1;
    }
    proof {
        assert(target.take(values@.len() as int) =~= target);
        assert(total_ordering(le_int())) by {
            assert forall|a: int, b: int, c: int|
                #[trigger] le_int()(a, b) && #[trigger] le_int()(b, c) implies le_int()(a, c) by {}
        }
        target.lemma_sort_by_ensures(le_int());
        lemma_sorted_unique(ints_of(r@), sorted_of(target), le_int());
        assert(sorted_of(target).to_multiset().len() == target.to_multiset().len());
    }
    r
}


/// The summary statistics of one histogram group, computed over the sorted
/// samples by nearest-rank positions.
pub(crate) struct Histogram {
    pub(crate) min: i32,
    pub(crate) max: i32,
    pub(crate) median: i32,
    pub(crate) average: i32,
    pub(crate) percentile95: i32,
    pub(crate) percentile99: i32,
}

/// The truncated-index percentile position, clamped to the last position.
fn percentile_pos(n: usize, pct: u32) -> (p: usize)
    requires
        n >= 1,
        pct <= 100,
    ensures
        p as int == percentile_index(n as int, pct as int),
        p < n,
{
    proof {
        vstd::arithmetic::mul::lemma_mul_inequality(pct as int, 100, n as int);
        assert((n as int) * (pct as int) == (pct as int) * (n as int)) by {
            vstd::arithmetic::mul::lemma_mul_is_commutative(n as int, pct as int);
        }
        vstd::arithmetic::div_mod::lemma_div_is_ordered(
            (n as int) * (pct as int),
            (n as int) * 100,
            100,
        );
        vstd::arithmetic::div_mod::lemma_div_multiples_vanish(n as int, 100);
        assert((100 * (n as int)) / 100 == n as int);
        assert((n as int) * 100 == 100 * (n as int)) by {
            vstd::arithmetic::mul::lemma_mul_is_commutative(n as int, 100);
        }
        vstd::arithmetic::div_mod::lemma_div_pos_is_pos((n as int) * (pct as int), 100);
    }
    let q = ((n as u128) * (pct as u128)) / 100;
    let qi = q as usize;
    if qi < n {
        qi
    } else {
        n - 1
    }
}

impl Histogram {
    /// The statistics of a non-empty list of samples: minimum, maximum,
    /// naive middle-index median, truncated mean, and nearest-rank 95th and
    /// 99th percentiles.
    pub(crate) fn from_values(values: &Vec<i32>) -> (h: Histogram)
        requires
            values@.len() >= 1,
        ensures
            ({
                let vs = ints_of(values@);
                let sv = sorted_of(vs);
                let n = vs.len() as int;
                &&& h.min as int == sv[0]
                &&& h.max as int == sv[n - 1]
                &&& h.median as int == sv[n / 2]
                &&& h.average as int == mean_trunc(vs)
                &&& h.percentile95 as int == sv[percentile_index(n, 95)]
                &&& h.percentile99 as int == sv[percentile_index(n, 99)]
            }),
    {
        let ghost vs = ints_of(values@);
        let sorted = sorted_copy(values);
        let n = sorted.len();
        let average = mean_exec(values);
        let p95 = percentile_pos(n, 95);
        let p99 = percentile_pos(n, 99);
        proof {
            assert forall|i: int| 0 <= i < n implies ints_of(sorted@)[i] == sorted@[i] as int by {}
        }
        Histogram {
            min: sorted[0],
            max: sorted[n - 1],
            median: sorted[n / 2],
            average,
            percentile95: sorted[p95],
            percentile99: sorted[p99],
        }
    }
}

/// The rollup of one group into its aggregated metrics.
fn rollup_one(g: &Group, tvs: &Vec<(u64, i32)>) -> (out: Vec<AggregatedMetric>)
    requires
        rollup_fits(group_view(*g), tv_view(tvs@)),
    ensures
        batch_view(out@) == rollup_view(group_view(*g), tv_view(tvs@)),
{
    let ghost gv = group_view(*g);
    let ghost tvv = tv_view(tvs@);
    let time = max_time_exec(tvs);
    let values = values_exec(tvs);
    let ghost vs = values_of(tvv);
    let mut out: Vec<AggregatedMetric> = Vec::new();
    match g {
        Group::Count(id) => {
            let total = sum_exec(&values);
            let v = total as i32;
            out.push(AggregatedMetric::Count(time, clone_id(id), v));
            proof {
                assert(batch_view(out@) =~= rollup_view(gv, tvv));
            }
        },
        Group::Gauge(id) => {
            let m = max_value_exec(&values);
            out.push(AggregatedMetric::Gauge(time, clone_id(id), m));
            proof {
                assert(batch_view(out@) =~= rollup_view(gv, tvv));
            }
        },
        Group::Histogram(id) => {
            let h = Histogram::from_values(&values);
            out.push(AggregatedMetric::Gauge(time, suffix_id(id, ".min"), h.min));
            out.push(AggregatedMetric::Gauge(time, suffix_id(id, ".max"), h.max));
            out.push(AggregatedMetric::Gauge(time, suffix_id(id, ".median"), h.median));
            out.push(AggregatedMetric::Gauge(time, suffix_id(id, ".avg"), h.average));
            out.push(AggregatedMetric::Gauge(time, suffix_id(id, ".95percentile"), h.percentile95));
            out.push(AggregatedMetric::Gauge(time, suffix_id(id, ".99percentile"), h.percentile99));
            let count = values.len() as i32;
            out.push(AggregatedMetric::Count(time, suffix_id(id, ".count"), count));
            proof {
                assert(batch_view(out@) =~= rollup_view(gv, tvv));
            }
        },
    }
    out
}

/// Roll up every group of a grouped batch, in group order. The result holds
/// each group's aggregated metrics, concatenated.
pub fn aggregate(grouped: Vec<(Group, Vec<(u64, i32)>)>) -> (r: Vec<AggregatedMetric>)
    requires
        forall|i: int|
            0 <= i < grouped@.len() ==> rollup_fits(
                #[trigger] grouped_view(grouped@)[i].0,
                grouped_view(grouped@)[i].1,
            ),
    ensures
        batch_view(r@) == aggregate_seq(grouped_view(grouped@)),
{
    let ghost gvs = grouped_view(grouped@);
    let mut out: Vec<AggregatedMetric> = Vec::new();
    let mut j: usize = 0;
    proof {
        assert(gvs.take(0) =~= Seq::<(GroupView, Seq<(u64, int)>)>::empty());
        assert(gvs.take(0).map_values(rollup_pair()) =~= Seq::<Seq<AggregatedMetricView>>::empty());
        assert(aggregate_seq(gvs.take(0)) =~= Seq::<AggregatedMetricView>::empty());
        assert(batch_view(out@) =~= Seq::<AggregatedMetricView>::empty());
    }
    while j < grouped.len()
        invariant
            0 <= j <= grouped@.len(),
            gvs == grouped_view(grouped@),
            forall|i: int|
                0 <= i < grouped@.len() ==> rollup_fits(
                    #[trigger] grouped_view(grouped@)[i].0,
                    grouped_view(grouped@)[i].1,
                ),
            batch_view(out@) == aggregate_seq(gvs.take(j as int)),
        decreases grouped@.len() - j,
    {
        let ghost out0 = out@;
        let entry = &grouped[j];
        proof {
            assert(grouped_view(grouped@)[j as int] == (group_view(grouped@[j as int].0), tv_view(
                grouped@[j as int].1@,
            )));
            assert(rollup_fits(
                grouped_view(grouped@)[j as int].0,
                grouped_view(grouped@)[j as int].1,
            ));
            assert(rollup_fits(group_view(entry.0), tv_view(entry.1@)));
        }
        let mut part = rollup_one(&entry.0, &entry.1);
        let ghost partv = part@;
        out.append(&mut part);
        proof {
            gvs.lemma_flat_map_take_append(rollup_pair(), j as int);
            assert(rollup_pair()(gvs[j as int]) == rollup_view(
                group_view(grouped@[j as int].0),
                tv_view(grouped@[j as int].1@),
            ));
            assert(batch_view(out@) =~= batch_view(out0) + batch_view(partv));
            assert(batch_view(out@) =~= aggregate_seq(gvs.take(j as int + 1)));
        }
        j = j + 1;
    }
    proof {
        assert(gvs.take(grouped@.len() as int) =~= gvs);
    }
    out
}


/// Every group of a grouped batch holds at least one value: a group exists
/// only because some event opened it.
pub proof fn lemma_grouped_nonempty(events: Seq<CollectedMetricView>)
    ensures
        forall|i: int|
            0 <= i < grouped_seq(events).len() ==> #[trigger] grouped_seq(events)[i].1.len() >= 1,
{
    lemma_groups_of_complete(events);
    assert forall|i: int|
        0 <= i < grouped_seq(events).len() implies #[trigger] grouped_seq(events)[i].1.len()
        >= 1 by {
        let g = groups_of(events)[i];
        let k = group_key(g);
        assert(grouped_seq(events)[i] == (g, group_values(events, k)));
        assert(contains_group_key(groups_of(events), k)) by {
            assert(group_key(groups_of(events)[i]) == k);
        }
        let j = choose|j: int| 0 <= j < events.len() && event_key(#[trigger] events[j]) == k;
        assert(key_pred(k)(events[j]));
        events.lemma_filter_contains(key_pred(k), j);
        assert(events.filter(key_pred(k)).contains(events[j]));
        assert(events.filter(key_pred(k)).len() >= 1);
    }
}


/// The maximum of a non-empty sequence of values is one of them and bounds
/// them all.
pub proof fn lemma_max_of_is_max(vs: Seq<int>)
    requires
        vs.len() >= 1,
    ensures
        vs.contains(max_of(vs)),
        forall|i: int| 0 <= i < vs.len() ==> vs[i] <= max_of(vs),
    decreases vs.len(),
{
    if vs.len() > 1 {
        lemma_max_of_is_max(vs.drop_last());
        if vs.last() > max_of(vs.drop_last()) {
            assert(vs[vs.len() - 1] == max_of(vs));
        } else {
            let j = choose|j: int|
                0 <= j < vs.drop_last().len() && vs.drop_last()[j] == max_of(vs.drop_last());
            assert(vs[j] == max_of(vs));
        }
        assert forall|i: int| 0 <= i < vs.len() implies vs[i] <= max_of(vs) by {
            if i < vs.len() - 1 {
                assert(vs.drop_last()[i] == vs[i]);
            }
        }
    } else {
        assert(vs[0] == max_of(vs));
    }
}

/// The representative timestamp of a non-empty group is the timestamp of
/// one of its events and is the most recent among them.
pub proof fn lemma_max_time_is_max(tvs: Seq<(u64, int)>)
    requires
        tvs.len() >= 1,
    ensures
        exists|i: int| 0 <= i < tvs.len() && #[trigger] tvs[i].0 == max_time_of(tvs),
        forall|i: int| 0 <= i < tvs.len() ==> #[trigger] tvs[i].0 <= max_time_of(tvs),
    decreases tvs.len(),
{
    if tvs.len() > 1 {
        lemma_max_time_is_max(tvs.drop_last());
        if tvs.last().0 > max_time_of(tvs.drop_last()) {
            assert(tvs[tvs.len() - 1].0 == max_time_of(tvs));
        } else {
            let j = choose|j: int|
                0 <= j < tvs.drop_last().len() && #[trigger] tvs.drop_last()[j].0 == max_time_of(
                    tvs.drop_last(),
                );
            assert(tvs[j].0 == max_time_of(tvs));
        }
        assert forall|i: int| 0 <= i < tvs.len() implies #[trigger] tvs[i].0 <= max_time_of(
            tvs,
        ) by {
            if i < tvs.len() - 1 {
                assert(tvs.drop_last()[i] == tvs[i]);
            }
        }
    } else {
        assert(tvs[0].0 == max_time_of(tvs));
    }
}

/// Every element of one group's rollup is in the whole aggregated batch.
pub proof fn lemma_aggregate_contains_rollup(gs: Seq<(GroupView, Seq<(u64, int)>)>, i: int)
    requires
        0 <= i < gs.len(),
    ensures
        forall|j: int|
            0 <= j < rollup_view(gs[i].0, gs[i].1).len() ==> aggregate_seq(gs).contains(
                #[trigger] rollup_view(gs[i].0, gs[i].1)[j],
            ),
    decreases gs.len(),
{
    assert(gs.drop_last().push(gs.last()) =~= gs);
    gs.drop_last().lemma_flat_map_push(rollup_pair(), gs.last());
    assert(aggregate_seq(gs) == aggregate_seq(gs.drop_last()) + rollup_pair()(gs.last()));
    if i == gs.len() - 1 {
        assert(rollup_pair()(gs.last()) == rollup_view(gs[i].0, gs[i].1));
        assert forall|j: int|
            0 <= j < rollup_view(gs[i].0, gs[i].1).len() implies aggregate_seq(gs).contains(
            #[trigger] rollup_view(gs[i].0, gs[i].1)[j],
        ) by {
            let n = aggregate_seq(gs.drop_last()).len();
            assert(aggregate_seq(gs)[n + j] == rollup_view(gs[i].0, gs[i].1)[j]);
        }
    } else {
        lemma_aggregate_contains_rollup(gs.drop_last(), i);
        assert(gs.drop_last()[i] == gs[i]);
        assert forall|j: int|
            0 <= j < rollup_view(gs[i].0, gs[i].1).len() implies aggregate_seq(gs).contains(
            #[trigger] rollup_view(gs[i].0, gs[i].1)[j],
        ) by {
            assert(aggregate_seq(gs.drop_last()).contains(rollup_view(gs[i].0, gs[i].1)[j]));
            let p = choose|p: int|
                0 <= p < aggregate_seq(gs.drop_last()).len() && aggregate_seq(gs.drop_last())[p]
                    == rollup_view(gs[i].0, gs[i].1)[j];
            assert(aggregate_seq(gs)[p] == rollup_view(gs[i].0, gs[i].1)[j]);
        }
    }
}

/// Sum invariant: for all Count events sharing one identifier within one
/// cycle, the cycle's batch holds an aggregated Count for that identifier
/// whose value is the arithmetic sum of their input values, timestamped
/// with the most recent of their timestamps.
pub proof fn lemma_sum_invariant(
    events: Seq<CollectedMetricView>,
    name: Seq<char>,
    dims: Set<(Seq<char>, Seq<char>)>,
)
    requires
        exists|i: int|
            0 <= i < events.len() && event_key(#[trigger] events[i]) == (
                MetricKind::Count,
                (name, dims),
            ),
    ensures
        ({
            let k = (MetricKind::Count, (name, dims));
            let tvs = group_values(events, k);
            exists|j: int|
                0 <= j < aggregate_seq(grouped_seq(events)).len() && (#[trigger] aggregate_seq(
                    grouped_seq(events),
                )[j]) == count_view(
                    max_time_of(tvs),
                    aggregate_seq(grouped_seq(events))[j].id,
                    sum_of(values_of(tvs)),
                ) && id_key(aggregate_seq(grouped_seq(events))[j].id) == (name, dims)
        }),
{
    let k = (MetricKind::Count, (name, dims));
    let tvs = group_values(events, k);
    lemma_groups_of_complete(events);
    assert(contains_group_key(groups_of(events), k));
    let i = choose|i: int|
        0 <= i < groups_of(events).len() && group_key(#[trigger] groups_of(events)[i]) == k;
    let g = groups_of(events)[i];
    assert(grouped_seq(events)[i] == (g, group_values(events, group_key(g))));
    assert(g.kind == MetricKind::Count);
    assert(rollup_view(g, tvs) == seq![
        count_view(max_time_of(tvs), g.id, sum_of(values_of(tvs))),
    ]);
    lemma_aggregate_contains_rollup(grouped_seq(events), i);
    let out = count_view(max_time_of(tvs), g.id, sum_of(values_of(tvs)));
    assert(rollup_view(g, tvs)[0] == out);
    assert(grouped_seq(events)[i].0 == g && grouped_seq(events)[i].1 == tvs);
    assert(rollup_view(grouped_seq(events)[i].0, grouped_seq(events)[i].1)[0] == out);
    assert(rollup_view(grouped_seq(events)[i].0, grouped_seq(events)[i].1).len() == 1);
    assert(aggregate_seq(grouped_seq(events)).contains(out));
    let j = choose|j: int|
        0 <= j < aggregate_seq(grouped_seq(events)).len() && aggregate_seq(grouped_seq(events))[j]
            == out;
    assert(id_key(aggregate_seq(grouped_seq(events))[j].id) == (name, dims));
}

/// Max invariant: for all Gauge events sharing one identifier within one
/// cycle, the cycle's batch holds an aggregated Gauge for that identifier
/// whose value is the maximum of their input values, timestamped with the
/// most recent of their timestamps.
pub proof fn lemma_max_invariant(
    events: Seq<CollectedMetricView>,
    name: Seq<char>,
    dims: Set<(Seq<char>, Seq<char>)>,
)
    requires
        exists|i: int|
            0 <= i < events.len() && event_key(#[trigger] events[i]) == (
                MetricKind::Gauge,
                (name, dims),
            ),
    ensures
        ({
            let k = (MetricKind::Gauge, (name, dims));
            let tvs = group_values(events, k);
            exists|j: int|
                0 <= j < aggregate_seq(grouped_seq(events)).len() && (#[trigger] aggregate_seq(
                    grouped_seq(events),
                )[j]) == gauge_view(
                    max_time_of(tvs),
                    aggregate_seq(grouped_seq(events))[j].id,
                    max_of(values_of(tvs)),
                ) && id_key(aggregate_seq(grouped_seq(events))[j].id) == (name, dims)
        }),
{
    let k = (MetricKind::Gauge, (name, dims));
    let tvs = group_values(events, k);
    lemma_groups_of_complete(events);
    assert(contains_group_key(groups_of(events), k));
    let i = choose|i: int|
        0 <= i < groups_of(events).len() && group_key(#[trigger] groups_of(events)[i]) == k;
    let g = groups_of(events)[i];
    assert(grouped_seq(events)[i] == (g, group_values(events, group_key(g))));
    assert(g.kind == MetricKind::Gauge);
    assert(rollup_view(g, tvs) == seq![
        gauge_view(max_time_of(tvs), g.id, max_of(values_of(tvs))),
    ]);
    lemma_aggregate_contains_rollup(grouped_seq(events), i);
    let out = gauge_view(max_time_of(tvs), g.id, max_of(values_of(tvs)));
    assert(rollup_view(g, tvs)[0] == out);
    assert(grouped_seq(events)[i].0 == g && grouped_seq(events)[i].1 == tvs);
    assert(rollup_view(grouped_seq(events)[i].0, grouped_seq(events)[i].1)[0] == out);
    assert(rollup_view(grouped_seq(events)[i].0, grouped_seq(events)[i].1).len() == 1);
    assert(aggregate_seq(grouped_seq(events)).contains(out));
    let j = choose|j: int|
        0 <= j < aggregate_seq(grouped_seq(events)).len() && aggregate_seq(grouped_seq(events))[j]
            == out;
    assert(id_key(aggregate_seq(grouped_seq(events))[j].id) == (name, dims));
}

/// Histogram fan-out completeness: a Histogram group of size n >= 1
/// produces exactly seven aggregated metrics, six Gauges and one Count, and
/// the count's value is n; each of the seven is in the cycle's batch, and
/// each carries the group's most recent timestamp.
pub proof fn lemma_histogram_fanout(events: Seq<CollectedMetricView>, i: int)
    requires
        0 <= i < grouped_seq(events).len(),
        grouped_seq(events)[i].0.kind == MetricKind::Histogram,
    ensures
        ({
            let g = grouped_seq(events)[i].0;
            let tvs = grouped_seq(events)[i].1;
            let out = rollup_view(g, tvs);
            &&& out.len() == 7
            &&& forall|j: int| 0 <= j < 6 ==> #[trigger] out[j].kind == AggregatedKind::Gauge
            &&& out[6].kind == AggregatedKind::Count
            &&& out[6].value == tvs.len()
            &&& forall|j: int| 0 <= j < 7 ==> #[trigger] out[j].time == max_time_of(tvs)
            &&& forall|j: int|
                0 <= j < 7 ==> aggregate_seq(grouped_seq(events)).contains(#[trigger] out[j])
        }),
{
    let g = grouped_seq(events)[i].0;
    let tvs = grouped_seq(events)[i].1;
    assert(grouped_seq(events)[i] == (
        groups_of(events)[i],
        group_values(events, group_key(groups_of(events)[i])),
    ));
    assert(values_of(tvs).len() == tvs.len());
    lemma_aggregate_contains_rollup(grouped_seq(events), i);
}


/// The total number of values held across all groups.
pub open spec fn total_values(gs: Seq<(GroupView, Seq<(u64, int)>)>) -> int
    decreases gs.len(),
{
    if gs.len() == 0 {
        0
    } else {
        total_values(gs.drop_last()) + gs.last().1.len()
    }
}

proof fn lemma_total_values_same(a: Seq<(GroupView, Seq<(u64, int)>)>, b: Seq<(GroupView, Seq<(u64, int)>)>)
    requires
        a.len() == b.len(),
        forall|j: int| 0 <= j < a.len() ==> #[trigger] b[j].1.len() == a[j].1.len(),
    ensures
        total_values(a) == total_values(b),
    decreases a.len(),
{
    if a.len() > 0 {
        assert forall|j: int|
            0 <= j < a.drop_last().len() implies #[trigger] b.drop_last()[j].1.len()
            == a.drop_last()[j].1.len() by {
            assert(a.drop_last()[j] == a[j] && b.drop_last()[j] == b[j]);
        }
        lemma_total_values_same(a.drop_last(), b.drop_last());
        assert(b[a.len() - 1].1.len() == a[a.len() - 1].1.len());
    }
}

proof fn lemma_total_values_delta(
    a: Seq<(GroupView, Seq<(u64, int)>)>,
    b: Seq<(GroupView, Seq<(u64, int)>)>,
    p: int,
)
    requires
        a.len() == b.len(),
        0 <= p < a.len(),
        forall|j: int| 0 <= j < a.len() && j != p ==> #[trigger] b[j].1.len() == a[j].1.len(),
        b[p].1.len() == a[p].1.len() + 1,
    ensures
        total_values(b) == total_values(a) + 1,
    decreases a.len(),
{
    let n = a.len() - 1;
    if p == n {
        assert forall|j: int|
            0 <= j < a.drop_last().len() implies #[trigger] b.drop_last()[j].1.len()
            == a.drop_last()[j].1.len() by {
            assert(a.drop_last()[j] == a[j] && b.drop_last()[j] == b[j]);
        }
        lemma_total_values_same(a.drop_last(), b.drop_last());
    } else {
        assert forall|j: int|
            0 <= j < a.drop_last().len() && j != p implies #[trigger] b.drop_last()[j].1.len()
            == a.drop_last()[j].1.len() by {
            assert(a.drop_last()[j] == a[j] && b.drop_last()[j] == b[j]);
        }
        assert(b.drop_last()[p].1.len() == a.drop_last()[p].1.len() + 1) by {
            assert(a.drop_last()[p] == a[p] && b.drop_last()[p] == b[p]);
        }
        lemma_total_values_delta(a.drop_last(), b.drop_last(), p);
        assert(b[n].1.len() == a[n].1.len());
    }
}

/// Drain exclusivity, grouping side: the group sizes of one cycle sum to
/// the number of events drained for it, so every drained event is counted
/// in exactly one group of exactly that cycle.
pub proof fn lemma_grouping_conserves(events: Seq<CollectedMetricView>)
    ensures
        total_values(grouped_seq(events)) == events.len(),
    decreases events.len(),
{
    if events.len() == 0 {
        assert(grouped_seq(events) =~= Seq::<(GroupView, Seq<(u64, int)>)>::empty());
    } else {
        let pre = events.drop_last();
        let e = events.last();
        let k = event_key(e);
        lemma_grouping_conserves(pre);
        lemma_groups_of_unique(pre);
        assert(pre.push(e) =~= events);
        let ga = grouped_seq(pre);
        let gb = grouped_seq(events);
        if contains_group_key(groups_of(pre), k) {
            assert(groups_of(events) == groups_of(pre));
            let p = choose|p: int|
                0 <= p < groups_of(pre).len() && group_key(#[trigger] groups_of(pre)[p]) == k;
            assert forall|j: int|
                0 <= j < ga.len() && j != p implies #[trigger] gb[j].1.len() == ga[j].1.len() by {
                let g = groups_of(pre)[j];
                assert(ga[j] == (g, group_values(pre, group_key(g))));
                assert(gb[j] == (g, group_values(events, group_key(g))));
                assert(group_key(g) != k);
                lemma_group_values_step(pre, e, group_key(g));
            }
            assert(gb[p].1.len() == ga[p].1.len() + 1) by {
                let g = groups_of(pre)[p];
                assert(ga[p] == (g, group_values(pre, group_key(g))));
                assert(gb[p] == (g, group_values(events, group_key(g))));
                lemma_group_values_step(pre, e, group_key(g));
            }
            lemma_total_values_delta(ga, gb, p);
        } else {
            assert(groups_of(events) == groups_of(pre).push(event_group(e)));
            let n = ga.len();
            assert(gb.len() == n + 1);
            assert forall|j: int|
                0 <= j < n implies #[trigger] gb.drop_last()[j].1.len() == ga[j].1.len() by {
                let g = groups_of(pre)[j];
                assert(groups_of(events)[j] == g);
                assert(ga[j] == (g, group_values(pre, group_key(g))));
                assert(gb[j] == (g, group_values(events, group_key(g))));
                assert(gb.drop_last()[j] == gb[j]);
                assert(group_key(g) != k) by {
                    assert(!(group_key(groups_of(pre)[j]) == k));
                }
                lemma_group_values_step(pre, e, group_key(g));
            }
            lemma_total_values_same(ga, gb.drop_last());
            assert(gb.last().1.len() == 1) by {
                let g = event_group(e);
                assert(groups_of(events)[n as int] == g);
                assert(gb[n as int] == (g, group_values(events, group_key(g))));
                assert(group_key(g) == k);
                lemma_groups_of_complete(pre);
                lemma_group_values_empty(pre, k);
                lemma_group_values_step(pre, e, k);
            }
        }
    }
}


/// Timestamp representativeness: every aggregated metric a group produces
/// carries the maximum (most recent) timestamp among that group's input
/// events, whatever the group's kind.
pub proof fn lemma_timestamp_representative(g: GroupView, tvs: Seq<(u64, int)>)
    requires
        tvs.len() >= 1,
    ensures
        forall|j: int|
            0 <= j < rollup_view(g, tvs).len() ==> #[trigger] rollup_view(g, tvs)[j].time
                == max_time_of(tvs),
{
}

} // verus!
