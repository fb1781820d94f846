use vstd::prelude::*;
use crate::cluster::{cluster_indices, is_clustering, is_square};
use crate::row::{Row, all_plain_values, domain_values, has_field, lookup, window_of, window_rows};
use crate::series::{Series, build_series, keys_unique, sample_at, sample_value, series_samples};

verus! {

pub open spec fn names_of<V>(series: Seq<Series<V>>) -> Seq<String> {
    series.map_values(|s: Series<V>| s.name)
}

pub open spec fn samples_of<V>(series: Seq<Series<V>>) -> Seq<Seq<(i64, V)>> {
    series.map_values(|s: Series<V>| s.samples@)
}

/// The samples of each dimension of `dimensions` over `rows`.
pub open spec fn projected<V>(rows: Seq<Row<V>>, dimensions: Seq<String>) -> Seq<Seq<(i64, V)>> {
    Seq::new(dimensions.len(), |d: int| series_samples(rows, dimensions[d]@, rows.len() as int))
}

/// The fields of the output row at timestamp `t` for a cluster with the
/// given members: each member with a sample at `t`, under its name, in
/// member order.
pub open spec fn cluster_fields<V>(
    names: Seq<String>,
    samples: Seq<Seq<(i64, V)>>,
    members: Seq<usize>,
    t: i64,
) -> Seq<(String, V)>
    decreases members.len(),
{
    if members.len() == 0 {
        Seq::empty()
    } else {
        let before = cluster_fields(names, samples, members.drop_last(), t);
        let m = members.last() as int;
        match sample_at(samples[m], t) {
            Some(v) => before.push((names[m], v)),
            None => before,
        }
    }
}

/// `rows` is the row group of a cluster: one row per timestamp of its first
/// member, in that member's order.
pub open spec fn is_group<V>(
    names: Seq<String>,
    samples: Seq<Seq<(i64, V)>>,
    members: Seq<usize>,
    rows: Seq<Row<V>>,
) -> bool {
    let first = samples[members[0] as int];
    &&& rows.len() == first.len()
    &&& forall|k: int| 0 <= k < rows.len() ==> (#[trigger] rows[k]).stamp == Some(first[k].0)
        && rows[k].fields@ == cluster_fields(names, samples, members, first[k].0)
}

/// `out` holds the row group of each cluster of `cl`, in cluster order.
pub open spec fn is_aggregation<V>(
    names: Seq<String>,
    samples: Seq<Seq<(i64, V)>>,
    cl: Seq<Seq<usize>>,
    out: Seq<Vec<Row<V>>>,
) -> bool {
    &&& out.len() == cl.len()
    &&& forall|c: int| 0 <= c < out.len() ==> is_group(names, samples, cl[c], #[trigger] out[c]@)
}

/// The members and series that aggregation may be asked to combine.
pub open spec fn valid_members<V>(series: Seq<Series<V>>, cl: Seq<Seq<usize>>) -> bool {
    &&& forall|d: int| 0 <= d < series.len() ==> keys_unique(#[trigger] series[d].samples@)
    &&& forall|c: int| 0 <= c < cl.len() ==> (#[trigger] cl[c]).len() > 0
    &&& forall|c: int, k: int| 0 <= c < cl.len() && 0 <= k < cl[c].len() ==> #[trigger] cl[c][k] < series.len()
}

/// The output row at timestamp `t` for a cluster with the given members.
fn cluster_row<V: Copy>(series: &Vec<Series<V>>, members: &Vec<usize>, t: i64) -> (r: Row<V>)
    requires
        forall|d: int| 0 <= d < series@.len() ==> keys_unique(#[trigger] series@[d].samples@),
        forall|k: int| 0 <= k < members@.len() ==> #[trigger] members@[k] < series@.len(),
    ensures
        r.stamp == Some(t),
        r.fields@ == cluster_fields(names_of(series@), samples_of(series@), members@, t),
{
    let ghost names = names_of(series@);
    let ghost samples = samples_of(series@);
    let mut fields: Vec<(String, V)> = Vec::new();
    let mut k: usize = 0;
    while k < members.len()
        invariant
            k <= members@.len(),
            forall|d: int| 0 <= d < series@.len() ==> keys_unique(#[trigger] series@[d].samples@),
            forall|x: int| 0 <= x < members@.len() ==> #[trigger] members@[x] < series@.len(),
            names == names_of(series@),
            samples == samples_of(series@),
            fields@ == cluster_fields(names, samples, members@.subrange(0, k as int), t),
        decreases members@.len() - k,
    {
        let m = members[k];
        let s = &series[m];
        proof {
            assert(members@.subrange(0, k + 1).drop_last() =~= members@.subrange(0, k as int));
            assert(members@.subrange(0, k + 1).last() == m);
            assert(samples[m as int] == s.samples@);
            assert(names[m as int] == s.name);
        }
        match sample_value(&s.samples, t) {
            Some(v) => fields.push((s.name.clone(), v)),
            None => {},
        }
        k += 1;
    }
    assert(members@.subrange(0, k as int) =~= members@);
    Row { stamp: Some(t), fields }
}

/// Reshapes each cluster of series back into rows: one row per timestamp of
/// the cluster's first member, holding the timestamp and every member's
/// value at it. Timestamps that only later members have are left out.
pub fn aggregate<V: Copy>(series: &Vec<Series<V>>, clusters: &Vec<Vec<usize>>) -> (r: Vec<Vec<Row<V>>>)
    requires
        valid_members(series@, crate::cluster::views(clusters@)),
    ensures
        is_aggregation(names_of(series@), samples_of(series@), crate::cluster::views(clusters@), r@),
{
    let ghost names = names_of(series@);
    let ghost samples = samples_of(series@);
    let ghost cl = crate::cluster::views(clusters@);
    let mut out: Vec<Vec<Row<V>>> = Vec::new();
    let mut c: usize = 0;
    while c < clusters.len()
        invariant
            c <= clusters@.len(),
            cl == crate::cluster::views(clusters@),
            names == names_of(series@),
            samples == samples_of(series@),
            valid_members(series@, cl),
            out@.len() == c,
            forall|e: int| 0 <= e < c ==> is_group(names, samples, cl[e], #[trigger] out@[e]@),
        decreases clusters@.len() - c,
    {
        let members = &clusters[c];
        assert(cl[c as int] == members@);
        assert(members@.len() > 0);
        assert(members@[0] < series@.len());
        let first = &series[members[0]].samples;
        assert(samples[members@[0] as int] == first@);
        let mut group: Vec<Row<V>> = Vec::new();
        let mut k: usize = 0;
        while k < first.len()
            invariant
                k <= first@.len(),
                names == names_of(series@),
                samples == samples_of(series@),
                valid_members(series@, cl),
                c < cl.len(),
                cl[c as int] == members@,
                members@.len() > 0,
                samples[members@[0] as int] == first@,
                group@.len() == k,
                forall|x: int| 0 <= x < k ==> (#[trigger] group@[x]).stamp == Some(first@[x].0)
                    && group@[x].fields@ == cluster_fields(names, samples, members@, first@[x].0),
            decreases first@.len() - k,
        {
            proof {
                assert forall|x: int| 0 <= x < members@.len() implies #[trigger] members@[x] < series@.len() by {
                    assert(cl[c as int][x] == members@[x]);
                }
            }
            group.push(cluster_row(series, members, first[k].0));
            k += 1;
        }
        out.push(group);
        c += 1;
    }
    out
}

/// Splits the rows into clusters of similar dimensions.
///
/// Without a neighbor matrix clustering is off and the rows come back
/// unchanged as the single cluster. With one (`neighbors[i][j]`: dimension
/// `j` lies within eps of dimension `i`), the dimensions are projected into
/// series, grouped by eps-reachability, and each group is reshaped into rows.
pub fn clustering_data<V: Copy>(
    data_to_be_clustered: Vec<Row<V>>,
    dimensions: &Vec<String>,
    neighbors: Option<&Vec<Vec<bool>>>,
) -> (r: Vec<Vec<Row<V>>>)
    requires
        match neighbors {
            Some(adj) => adj@.len() == dimensions@.len() && is_square(adj@),
            None => true,
        },
    ensures
        match neighbors {
            None => r@.len() == 1 && r@[0]@ == data_to_be_clustered@,
            Some(adj) => exists|cl: Seq<Seq<usize>>| #[trigger] is_clustering(adj@, cl)
                && is_aggregation(dimensions@, projected(data_to_be_clustered@, dimensions@), cl, r@),
        },
{
    match neighbors {
        None => {
            let mut out: Vec<Vec<Row<V>>> = Vec::new();
            out.push(data_to_be_clustered);
            out
        },
        Some(adj) => {
            let series = build_series(&data_to_be_clustered, dimensions);
            let clusters = cluster_indices(adj);
            let ghost cl = crate::cluster::views(clusters@);
            proof {
                assert(names_of(series@) =~= dimensions@);
                assert(samples_of(series@) =~= projected(data_to_be_clustered@, dimensions@));
                assert forall|c: int| 0 <= c < cl.len() implies (#[trigger] cl[c]).len() > 0 by {}
            }
            let out = aggregate(&series, &clusters);
            assert(is_clustering(adj@, cl));
            out
        },
    }
}

/// Dimension `name` is found in the first row of group `c`.
pub open spec fn first_row_holds<V>(groups: Seq<Vec<Row<V>>>, c: int, name: Seq<char>) -> bool {
    groups[c]@.len() > 0 && lookup(groups[c]@[0].fields@, name).is_some()
}

/// The cluster index reported for `name`: the first group whose first row
/// holds it, or `usize::MAX` when none does.
pub open spec fn is_reported_index<V>(groups: Seq<Vec<Row<V>>>, name: Seq<char>, idx: usize) -> bool {
    ||| idx == usize::MAX && forall|c: int| 0 <= c < groups.len() ==> !#[trigger] first_row_holds(groups, c, name)
    ||| idx < groups.len() && first_row_holds(groups, idx as int, name)
        && forall|c: int| 0 <= c < idx ==> !#[trigger] first_row_holds(groups, c, name)
}

/// `r` pairs each dimension, in order, with its reported cluster index.
pub open spec fn is_assignment<V>(groups: Seq<Vec<Row<V>>>, dimensions: Seq<String>, r: Seq<(String, usize)>) -> bool {
    &&& r.len() == dimensions.len()
    &&& forall|d: int| 0 <= d < r.len() ==> (#[trigger] r[d]).0 == dimensions[d]
        && is_reported_index(groups, dimensions[d]@, r[d].1)
}

/// Maps each dimension to the index of the first cluster whose first row
/// holds it, or to `usize::MAX` when no first row does.
pub fn cluster_assignment<V: Copy>(dimensions: &Vec<String>, groups: &Vec<Vec<Row<V>>>) -> (r: Vec<(String, usize)>)
    ensures
        is_assignment(groups@, dimensions@, r@),
{
    let mut out: Vec<(String, usize)> = Vec::new();
    let mut d: usize = 0;
    while d < dimensions.len()
        invariant
            d <= dimensions@.len(),
            out@.len() == d,
            forall|e: int| 0 <= e < d ==> (#[trigger] out@[e]).0 == dimensions@[e]
                && is_reported_index(groups@, dimensions@[e]@, out@[e].1),
        decreases dimensions@.len() - d,
    {
        let name = &dimensions[d];
        let mut idx: usize = usize::MAX;
        let mut c: usize = 0;
        while c < groups.len() && idx == usize::MAX
            invariant
                c <= groups@.len(),
                d < dimensions@.len(),
                name@ == dimensions@[d as int]@,
                forall|x: int| 0 <= x < c ==> !#[trigger] first_row_holds(groups@, x, name@),
                idx != usize::MAX ==> idx == c && c < groups@.len() && first_row_holds(groups@, c as int, name@),
            decreases groups@.len() - c + if idx == usize::MAX { 1int } else { 0int },
        {
            let group = &groups[c];
            if group.len() > 0 && has_field(&group[0], name) {
                idx = c;
            } else {
                c += 1;
            }
        }
        out.push((name.clone(), idx));
        d += 1;
    }
    out
}

/// The result of one aggregation: the row group of each cluster, the values
/// over which the shared value domain is taken, and each dimension's cluster.
pub struct Aggregation<V> {
    pub aggregated: Vec<Vec<Row<V>>>,
    pub domain_values: Vec<V>,
    pub cluster_assignment: Vec<(String, usize)>,
}

/// Runs the whole pipeline: keeps the last `data_ticks` rows, clusters the
/// dimensions over them (with `neighbors` taken over the kept rows' series,
/// or no clustering when it is absent), and reports each dimension's cluster
/// and the values of the kept rows.
pub fn aggregator_internal<V: Copy>(
    raw_data: Vec<Row<V>>,
    dimensions: &Vec<String>,
    data_ticks: Option<usize>,
    neighbors: Option<&Vec<Vec<bool>>>,
) -> (r: Aggregation<V>)
    requires
        match neighbors {
            Some(adj) => adj@.len() == dimensions@.len() && is_square(adj@),
            None => true,
        },
    ensures
        r.domain_values@ == all_plain_values(window_of(raw_data@, data_ticks)),
        is_assignment(r.aggregated@, dimensions@, r.cluster_assignment@),
        match neighbors {
            None => r.aggregated@.len() == 1 && r.aggregated@[0]@ == window_of(raw_data@, data_ticks),
            Some(adj) => exists|cl: Seq<Seq<usize>>| #[trigger] is_clustering(adj@, cl)
                && is_aggregation(dimensions@, projected(window_of(raw_data@, data_ticks), dimensions@), cl, r.aggregated@),
        },
{
    let windowed = window_rows(raw_data, data_ticks);
    let values = domain_values(&windowed);
    let aggregated = clustering_data(windowed, dimensions, neighbors);
    let assignment = cluster_assignment(dimensions, &aggregated);
    Aggregation { aggregated, domain_values: values, cluster_assignment: assignment }
}

/// Without clustering every dimension that the first row holds is reported
/// in cluster 0.
pub proof fn lemma_single_group_assignment<V>(
    groups: Seq<Vec<Row<V>>>,
    dimensions: Seq<String>,
    r: Seq<(String, usize)>,
)
    requires
        groups.len() == 1,
        is_assignment(groups, dimensions, r),
        forall|d: int| 0 <= d < dimensions.len() ==> first_row_holds(groups, 0, #[trigger] dimensions[d]@),
    ensures
        forall|d: int| 0 <= d < r.len() ==> (#[trigger] r[d]).1 == 0,
{
    assert forall|d: int| 0 <= d < r.len() implies (#[trigger] r[d]).1 == 0 by {
        assert(first_row_holds(groups, 0, dimensions[d]@));
        assert(is_reported_index(groups, dimensions[d]@, r[d].1));
    }
}

} // verus!
