//! The measurement model: immutable value types flowing through the system.

use vstd::prelude::*;

verus! {

/// One key/value dimension pair attached to a metric identifier.
pub type Dimension = (String, String);

/// A metric identifier: a name plus its dimension pairs.
///
/// Two identifiers address the same metric stream exactly when their names
/// are equal and their dimension pairs, taken as sets, are equal; the order
/// in which dimensions were supplied does not matter.
pub type Id = (String, Vec<Dimension>);

/// Mathematical view of an identifier: the name's characters and the
/// dimension pairs in the order they were supplied.
#[verifier::ext_equal]
pub struct IdView {
    pub name: Seq<char>,
    pub dims: Seq<(Seq<char>, Seq<char>)>,
}

/// The kind of a measurement event.
pub enum MetricKind {
    Count,
    Gauge,
    Histogram,
}

/// The kind of an aggregated metric. Histogram inputs never survive
/// aggregation as histograms: they fan out into gauges and a count.
pub enum AggregatedKind {
    Count,
    Gauge,
}

/// One measurement event: an event timestamp, an identifier and an integer
/// value. `Count` is a delta to be summed over the aggregation window,
/// `Gauge` an instantaneous reading, `Histogram` a sample contributing to a
/// distribution.
#[derive(Debug, PartialEq)]
pub enum CollectedMetric {
    Count(u64, Id, i32),
    Gauge(u64, Id, i32),
    Histogram(u64, Id, i32),
}

/// Output of one rollup: a representative timestamp, an identifier (possibly
/// suffixed for histogram-derived metrics) and a summary value.
#[derive(Debug, PartialEq)]
pub enum AggregatedMetric {
    Count(u64, Id, i32),
    Gauge(u64, Id, i32),
}

/// Mathematical view of a measurement event.
#[verifier::ext_equal]
pub struct CollectedMetricView {
    pub kind: MetricKind,
    pub time: u64,
    pub id: IdView,
    pub value: int,
}

/// Mathematical view of an aggregated metric.
#[verifier::ext_equal]
pub struct AggregatedMetricView {
    pub kind: AggregatedKind,
    pub time: u64,
    pub id: IdView,
    pub value: int,
}

pub open spec fn dim_view(d: Dimension) -> (Seq<char>, Seq<char>) {
    (d.0@, d.1@)
}

pub open spec fn id_view(id: Id) -> IdView {
    IdView { name: id.0@, dims: id.1@.map_values(|d: Dimension| dim_view(d)) }
}

/// The addressing key of an identifier: its name together with its dimension
/// pairs taken as a set. Identifiers with equal keys address the same metric.
pub open spec fn id_key(id: IdView) -> (Seq<char>, Set<(Seq<char>, Seq<char>)>) {
    (id.name, id.dims.to_set())
}

pub open spec fn events_view(ms: Seq<CollectedMetric>) -> Seq<CollectedMetricView> {
    ms.map_values(|m: CollectedMetric| collected_view(m))
}

pub open spec fn collected_view(m: CollectedMetric) -> CollectedMetricView {
    match m {
        CollectedMetric::Count(t, id, v) => CollectedMetricView {
            kind: MetricKind::Count,
            time: t,
            id: id_view(id),
            value: v as int,
        },
        CollectedMetric::Gauge(t, id, v) => CollectedMetricView {
            kind: MetricKind::Gauge,
            time: t,
            id: id_view(id),
            value: v as int,
        },
        CollectedMetric::Histogram(t, id, v) => CollectedMetricView {
            kind: MetricKind::Histogram,
            time: t,
            id: id_view(id),
            value: v as int,
        },
    }
}

pub open spec fn aggregated_view(m: AggregatedMetric) -> AggregatedMetricView {
    match m {
        AggregatedMetric::Count(t, id, v) => AggregatedMetricView {
            kind: AggregatedKind::Count,
            time: t,
            id: id_view(id),
            value: v as int,
        },
        AggregatedMetric::Gauge(t, id, v) => AggregatedMetricView {
            kind: AggregatedKind::Gauge,
            time: t,
            id: id_view(id),
            value: v as int,
        },
    }
}

impl CollectedMetric {
    /// The identifier and value of an event, its kind and timestamp set aside.
    pub fn into_parts(self) -> (r: (Id, i32))
        ensures
            id_view(r.0) == collected_view(self).id,
            r.1 as int == collected_view(self).value,
    {
        match self {
            CollectedMetric::Count(_time, id, value) => (id, value),
            CollectedMetric::Gauge(_time, id, value) => (id, value),
            CollectedMetric::Histogram(_time, id, value) => (id, value),
        }
    }
}

/// Copy an identifier; the copy has the same view.
pub fn clone_id(id: &Id) -> (r: Id)
    ensures
        id_view(r) == id_view(*id),
{
    let name = id.0.clone();
    let mut dims: Vec<Dimension> = Vec::new();
    let mut j: usize = 0;
    while j < id.1.len()
        invariant
            0 <= j <= id.1@.len(),
            dims@.len() == j,
            forall|i: int| 0 <= i < j ==> dim_view(dims@[i]) == dim_view(id.1@[i]),
        decreases id.1@.len() - j,
    {
        let d = &id.1[j];
        dims.push((d.0.clone(), d.1.clone()));
        j = j + 1;
    }
    let r = (name, dims);
    proof {
        assert(r.1@.map_values(|d: Dimension| dim_view(d)) =~= id.1@.map_values(
            |d: Dimension| dim_view(d),
        ));
        assert(id_view(r) =~= id_view(*id));
    }
    r
}

fn dim_eq(a: &Dimension, b: &Dimension) -> (r: bool)
    ensures
        r == (dim_view(*a) == dim_view(*b)),
{
    a.0 == b.0 && a.1 == b.1
}

fn dims_contains(v: &Vec<Dimension>, d: &Dimension) -> (r: bool)
    ensures
        r == dims_of(v@).contains(dim_view(*d)),
{
    let mut j: usize = 0;
    while j < v.len()
        invariant
            0 <= j <= v@.len(),
            forall|i: int| 0 <= i < j ==> dim_view(v@[i]) != dim_view(*d),
        decreases v@.len() - j,
    {
        if dim_eq(&v[j], d) {
            proof {
                let mapped = v@.map_values(|x: Dimension| dim_view(x));
                assert(mapped[j as int] == dim_view(*d));
                assert(mapped.contains(dim_view(*d)));
            }
            return true;
        }
        j = j + 1;
    }
    proof {
        let mapped = v@.map_values(|x: Dimension| dim_view(x));
        assert forall|i: int| 0 <= i < mapped.len() implies mapped[i] != dim_view(*d) by {
            assert(mapped[i] == dim_view(v@[i]));
        }
        assert(!mapped.contains(dim_view(*d)));
    }
    false
}

fn dims_included(a: &Vec<Dimension>, b: &Vec<Dimension>) -> (r: bool)
    ensures
        r == (forall|i: int|
            0 <= i < a@.len() ==> #[trigger] dims_of(b@).contains(dim_view(a@[i]))),
{
    let mut j: usize = 0;
    while j < a.len()
        invariant
            0 <= j <= a@.len(),
            forall|i: int| 0 <= i < j ==> #[trigger] dims_of(b@).contains(dim_view(a@[i])),
        decreases a@.len() - j,
    {
        let found = dims_contains(b, &a[j]);
        if !found {
            return false;
        }
        j = j + 1;
    }
    true
}

/// The dimension pairs of a sequence of dimensions, as a set of views.
pub open spec fn dims_of(dims: Seq<Dimension>) -> Set<(Seq<char>, Seq<char>)> {
    dims.map_values(|d: Dimension| dim_view(d)).to_set()
}

/// Whether two identifiers address the same metric stream: equal names and
/// equal dimension sets.
pub fn id_eq(a: &Id, b: &Id) -> (r: bool)
    ensures
        r == (id_key(id_view(*a)) == id_key(id_view(*b))),
{
    if !(a.0 == b.0) {
        assert(id_key(id_view(*a)).0 != id_key(id_view(*b)).0);
        return false;
    }
    let fwd = dims_included(&a.1, &b.1);
    let bwd = dims_included(&b.1, &a.1);
    proof {
        lemma_dims_included_eq(a.1@, b.1@, fwd, bwd);
    }
    fwd && bwd
}

proof fn lemma_dims_included_eq(a: Seq<Dimension>, b: Seq<Dimension>, fwd: bool, bwd: bool)
    requires
        fwd == (forall|i: int| 0 <= i < a.len() ==> #[trigger] dims_of(b).contains(dim_view(a[i]))),
        bwd == (forall|i: int| 0 <= i < b.len() ==> #[trigger] dims_of(a).contains(dim_view(b[i]))),
    ensures
        (fwd && bwd) == (dims_of(a) == dims_of(b)),
{
    let av = a.map_values(|d: Dimension| dim_view(d));
    let bv = b.map_values(|d: Dimension| dim_view(d));
    if fwd && bwd {
        assert forall|x: (Seq<char>, Seq<char>)| dims_of(a).contains(x) implies dims_of(
            b,
        ).contains(x) by {
            let i = choose|i: int| 0 <= i < av.len() && av[i] == x;
            assert(dims_of(b).contains(dim_view(a[i])));
        }
        assert forall|x: (Seq<char>, Seq<char>)| dims_of(b).contains(x) implies dims_of(
            a,
        ).contains(x) by {
            let i = choose|i: int| 0 <= i < bv.len() && bv[i] == x;
            assert(dims_of(a).contains(dim_view(b[i])));
        }
        assert(dims_of(a) =~= dims_of(b));
    } else if !fwd {
        let i = choose|i: int|
            0 <= i < a.len() && !dims_of(b).contains(dim_view(a[i]));
        assert(av[i] == dim_view(a[i]));
        assert(dims_of(a).contains(dim_view(a[i])));
    } else {
        let i = choose|i: int|
            0 <= i < b.len() && !dims_of(a).contains(dim_view(b[i]));
        assert(bv[i] == dim_view(b[i]));
        assert(dims_of(b).contains(dim_view(b[i])));
    }
}

} // verus!
