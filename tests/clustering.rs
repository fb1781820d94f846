use chart_clustering::aggregate::{aggregate, aggregator_internal, cluster_assignment, clustering_data};
use chart_clustering::cluster::cluster_indices;
use chart_clustering::row::{domain_values, field_value, has_field, window_rows, Row};
use chart_clustering::series::{build_one, build_series, sample_value, Series};

fn row(t: Option<i64>, fields: &[(&str, f64)]) -> Row<f64> {
    Row { stamp: t, fields: fields.iter().map(|(k, v)| (k.to_string(), *v)).collect() }
}

fn sample_rows() -> Vec<Row<f64>> {
    vec![
        row(Some(0), &[("timestamp", 0.0), ("A", 1.0), ("B", 1.0), ("C", 10.0)]),
        row(Some(1), &[("timestamp", 1.0), ("A", 2.0), ("B", 2.0), ("C", 20.0)]),
        row(Some(2), &[("timestamp", 2.0), ("A", 3.0), ("B", 3.0), ("C", 30.0)]),
    ]
}

fn dims(names: &[&str]) -> Vec<String> {
    names.iter().map(|s| s.to_string()).collect()
}

fn distance(a: &Series<f64>, b: &Series<f64>) -> f64 {
    a.samples
        .iter()
        .map(|(t, va)| {
            let vb = b.samples.iter().find(|(u, _)| u == t).map(|(_, v)| *v).unwrap_or(0.0);
            (va - vb).powi(2)
        })
        .sum::<f64>()
        .sqrt()
}

fn neighbor_matrix(series: &[Series<f64>], eps: f64) -> Vec<Vec<bool>> {
    (0..series.len())
        .map(|i| (0..series.len()).map(|j| i != j && distance(&series[i], &series[j]) <= eps).collect())
        .collect()
}

fn bounds(values: &[f64]) -> (f64, f64) {
    let lo = values.iter().cloned().fold(f64::INFINITY, f64::min);
    let hi = values.iter().cloned().fold(f64::NEG_INFINITY, f64::max);
    (lo, hi)
}

fn names_in(group: &[Row<f64>]) -> Vec<String> {
    group[0].fields.iter().map(|(k, _)| k.clone()).collect()
}

fn run(rows: Vec<Row<f64>>, d: &Vec<String>, ticks: Option<usize>, eps: Option<f64>) -> chart_clustering::aggregate::Aggregation<f64> {
    let windowed = window_rows(rows.iter().map(|r| Row { stamp: r.stamp, fields: r.fields.clone() }).collect(), ticks);
    let adj = eps.map(|e| neighbor_matrix(&build_series(&windowed, d), e));
    aggregator_internal(rows, d, ticks, adj.as_ref())
}

#[test]
fn eps_one_gives_two_clusters() {
    let d = dims(&["A", "B", "C"]);
    let r = run(sample_rows(), &d, None, Some(1.0));
    assert_eq!(r.aggregated.len(), 2);
    assert_eq!(names_in(&r.aggregated[0]), dims(&["A", "B"]));
    assert_eq!(names_in(&r.aggregated[1]), dims(&["C"]));
    assert_eq!(r.cluster_assignment, vec![("A".to_string(), 0), ("B".to_string(), 0), ("C".to_string(), 1)]);
    assert_eq!(bounds(&r.domain_values), (1.0, 30.0));
    assert_eq!(r.aggregated[0].len(), 3);
    assert_eq!(r.aggregated[0][2].stamp, Some(2));
    assert_eq!(r.aggregated[0][2].fields, vec![("A".to_string(), 3.0), ("B".to_string(), 3.0)]);
}

#[test]
fn no_eps_gives_one_cluster() {
    let d = dims(&["A", "B", "C"]);
    let r = run(sample_rows(), &d, None, None);
    assert_eq!(r.aggregated.len(), 1);
    assert_eq!(r.aggregated[0].len(), 3);
    assert_eq!(r.aggregated[0][1].fields, sample_rows()[1].fields);
    assert_eq!(r.cluster_assignment, vec![("A".to_string(), 0), ("B".to_string(), 0), ("C".to_string(), 0)]);
}

#[test]
fn window_of_two_keeps_last_rows() {
    let d = dims(&["A", "B", "C"]);
    let r = run(sample_rows(), &d, Some(2), Some(1.0));
    assert_eq!(bounds(&r.domain_values), (2.0, 30.0));
    assert_eq!(r.aggregated.len(), 2);
    let stamps: Vec<Option<i64>> = r.aggregated[0].iter().map(|x| x.stamp).collect();
    assert_eq!(stamps, vec![Some(1), Some(2)]);
    let r2 = run(sample_rows(), &d, Some(2), None);
    assert_eq!(r2.aggregated[0].len(), 2);
    assert_eq!(r2.aggregated[0][0].stamp, Some(1));
}

#[test]
fn window_sizes() {
    for (k, expect) in [(0usize, 0usize), (1, 1), (3, 3), (7, 3)] {
        let w = window_rows(sample_rows(), Some(k));
        assert_eq!(w.len(), expect);
        if expect > 0 {
            assert_eq!(w[expect - 1].stamp, Some(2));
            assert_eq!(w[0].stamp, Some(3 - expect as i64));
        }
    }
    assert_eq!(window_rows(sample_rows(), None).len(), 3);
}

#[test]
fn empty_domain_is_sentinel() {
    let rows = vec![row(Some(0), &[("timestamp", 0.0)]), row(None, &[])];
    let v = domain_values(&rows);
    assert!(v.is_empty());
    assert_eq!(bounds(&v), (f64::INFINITY, f64::NEG_INFINITY));
    let v2 = domain_values(&sample_rows());
    assert_eq!(v2, vec![1.0, 1.0, 10.0, 2.0, 2.0, 20.0, 3.0, 3.0, 30.0]);
}

#[test]
fn missing_timestamp_uses_position() {
    let rows = vec![row(None, &[("A", 5.0)]), row(None, &[("B", 6.0)]), row(Some(40), &[("A", 7.0)])];
    let s = build_one(&rows, &"A".to_string());
    assert_eq!(s.name, "A");
    assert_eq!(s.samples, vec![(0, 5.0), (40, 7.0)]);
    let e = build_one(&rows, &"Z".to_string());
    assert!(e.samples.is_empty());
}

#[test]
fn repeated_timestamp_keeps_place_and_takes_last_value() {
    let rows = vec![row(Some(5), &[("A", 1.0)]), row(Some(6), &[("A", 2.0)]), row(Some(5), &[("A", 3.0)])];
    let s = build_one(&rows, &"A".to_string());
    assert_eq!(s.samples, vec![(5, 3.0), (6, 2.0)]);
    assert_eq!(sample_value(&s.samples, 5), Some(3.0));
    assert_eq!(sample_value(&s.samples, 7), None);
}

#[test]
fn field_lookup_takes_first_entry() {
    let r = row(None, &[("A", 1.0), ("A", 2.0), ("B", 3.0)]);
    assert_eq!(field_value(&r, &"A".to_string()), Some(1.0));
    assert_eq!(field_value(&r, &"B".to_string()), Some(3.0));
    assert_eq!(field_value(&r, &"C".to_string()), None);
    assert!(has_field(&r, &"B".to_string()));
    assert!(!has_field(&r, &"C".to_string()));
}

#[test]
fn clusters_partition_dimensions() {
    let adj = vec![
        vec![false, false, true, false],
        vec![false, false, false, false],
        vec![false, false, false, true],
        vec![false, false, false, false],
    ];
    let cl = cluster_indices(&adj);
    assert_eq!(cl, vec![vec![0, 2, 3], vec![1]]);
    let mut all: Vec<usize> = cl.concat();
    all.sort();
    assert_eq!(all, vec![0, 1, 2, 3]);
}

#[test]
fn chained_neighbors_share_a_cluster() {
    // 0 ~ 1 ~ 2 by a chain, 3 alone
    let adj = vec![
        vec![false, true, false, false],
        vec![true, false, true, false],
        vec![false, true, false, false],
        vec![false, false, false, false],
    ];
    let cl = cluster_indices(&adj);
    assert_eq!(cl, vec![vec![0, 1, 2], vec![3]]);
}

#[test]
fn unrelated_dimensions_stay_apart() {
    let adj = vec![vec![false; 3]; 3];
    assert_eq!(cluster_indices(&adj), vec![vec![0], vec![1], vec![2]]);
    assert!(cluster_indices(&Vec::new()).is_empty());
}

#[test]
fn identical_series_share_a_cluster_at_zero_eps() {
    let rows = vec![
        row(Some(0), &[("A", 4.0), ("B", 4.0), ("C", 4.5)]),
        row(Some(1), &[("A", 5.0), ("B", 5.0), ("C", 5.0)]),
    ];
    let d = dims(&["A", "C", "B"]);
    let r = run(rows, &d, None, Some(0.0));
    assert_eq!(r.aggregated.len(), 2);
    assert_eq!(names_in(&r.aggregated[0]), dims(&["A", "B"]));
    assert_eq!(r.cluster_assignment, vec![("A".to_string(), 0), ("C".to_string(), 1), ("B".to_string(), 0)]);
}

#[test]
fn direct_and_chained_distances() {
    // A-B and B-C are within eps, A-C is not: one cluster by the chain.
    let rows = vec![row(Some(0), &[("A", 0.0), ("B", 1.0), ("C", 2.0), ("D", 10.0)])];
    let d = dims(&["A", "B", "C", "D"]);
    let r = run(rows, &d, None, Some(1.0));
    assert_eq!(r.aggregated.len(), 2);
    assert_eq!(names_in(&r.aggregated[0]), dims(&["A", "B", "C"]));
    assert_eq!(names_in(&r.aggregated[1]), dims(&["D"]));
}

#[test]
fn distance_is_directional() {
    let rows = vec![row(Some(0), &[("A", 1.0)]), row(Some(1), &[("A", 1.0), ("B", 1.0)])];
    let s = build_series(&rows, &dims(&["A", "B"]));
    assert_eq!(distance(&s[1], &s[0]), 0.0);
    assert_eq!(distance(&s[0], &s[1]), 1.0);
    let adj = neighbor_matrix(&s, 0.5);
    // B reaches A, A does not reach B; A is seeded first.
    assert_eq!(cluster_indices(&adj), vec![vec![0], vec![1]]);
}

#[test]
fn first_member_decides_timestamps() {
    let rows = vec![
        row(Some(0), &[("B", 2.0)]),
        row(Some(1), &[("A", 1.0), ("B", 3.0)]),
    ];
    let d = dims(&["A", "B"]);
    let series = build_series(&rows, &d);
    let groups = aggregate(&series, &vec![vec![0, 1]]);
    assert_eq!(groups.len(), 1);
    assert_eq!(groups[0].len(), 1);
    assert_eq!(groups[0][0].stamp, Some(1));
    assert_eq!(groups[0][0].fields, vec![("A".to_string(), 1.0), ("B".to_string(), 3.0)]);
}

#[test]
fn assignment_reads_first_row_only() {
    let groups = vec![
        vec![row(Some(0), &[("A", 1.0)]), row(Some(1), &[("A", 1.0), ("B", 2.0)])],
        vec![],
        vec![row(Some(0), &[("C", 1.0)])],
    ];
    let a = cluster_assignment(&dims(&["A", "B", "C"]), &groups);
    assert_eq!(a, vec![("A".to_string(), 0), ("B".to_string(), usize::MAX), ("C".to_string(), 2)]);
}

#[test]
fn no_eps_returns_rows_unchanged() {
    let rows = sample_rows();
    let out = clustering_data(sample_rows(), &dims(&["A"]), None);
    assert_eq!(out.len(), 1);
    assert_eq!(out[0].len(), rows.len());
    for (a, b) in out[0].iter().zip(rows.iter()) {
        assert_eq!(a.stamp, b.stamp);
        assert_eq!(a.fields, b.fields);
    }
}

#[test]
fn empty_window_without_eps() {
    let d = dims(&["A"]);
    let r = run(sample_rows(), &d, Some(0), None);
    assert_eq!(r.aggregated.len(), 1);
    assert!(r.aggregated[0].is_empty());
    assert_eq!(r.cluster_assignment, vec![("A".to_string(), usize::MAX)]);
    assert!(r.domain_values.is_empty());
}
