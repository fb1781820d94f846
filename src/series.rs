use vstd::prelude::*;
use crate::row::{Row, lookup, field_value};

verus! {

/// One dimension projected out of the rows: its name and its samples, as
/// (timestamp, value) pairs in order of first appearance, each timestamp once.
pub struct Series<V> {
    pub name: String,
    pub samples: Vec<(i64, V)>,
}

/// The timestamp of row `i`: its own, or its position when it has none.
pub open spec fn stamp_at<V>(rows: Seq<Row<V>>, i: int) -> i64 {
    match rows[i].stamp {
        Some(t) => t,
        None => i as i64,
    }
}

/// No timestamp occurs twice among the samples.
pub open spec fn keys_unique<V>(s: Seq<(i64, V)>) -> bool {
    forall|a: int, b: int| 0 <= a < s.len() && 0 <= b < s.len() && a != b ==> #[trigger] s[a].0 != #[trigger] s[b].0
}

pub open spec fn has_key<V>(s: Seq<(i64, V)>, t: i64) -> bool {
    exists|k: int| 0 <= k < s.len() && #[trigger] s[k].0 == t
}

/// The position of timestamp `t` among the samples.
pub open spec fn key_index<V>(s: Seq<(i64, V)>, t: i64) -> int {
    choose|k: int| 0 <= k < s.len() && #[trigger] s[k].0 == t
}

/// The value sampled at timestamp `t`, if any.
pub open spec fn sample_at<V>(s: Seq<(i64, V)>, t: i64) -> Option<V> {
    if has_key(s, t) {
        Some(s[key_index(s, t)].1)
    } else {
        None
    }
}

/// Records value `v` at timestamp `t`: a timestamp already present keeps its
/// place and takes the new value; a new one is appended.
pub open spec fn upsert<V>(s: Seq<(i64, V)>, t: i64, v: V) -> Seq<(i64, V)> {
    if has_key(s, t) {
        s.update(key_index(s, t), (t, v))
    } else {
        s.push((t, v))
    }
}

/// The samples of dimension `name` over the first `upto` rows.
pub open spec fn series_samples<V>(rows: Seq<Row<V>>, name: Seq<char>, upto: int) -> Seq<(i64, V)>
    decreases upto,
{
    if upto <= 0 {
        Seq::empty()
    } else {
        let before = series_samples(rows, name, upto - 1);
        match lookup(rows[upto - 1].fields@, name) {
            Some(v) => upsert(before, stamp_at(rows, upto - 1), v),
            None => before,
        }
    }
}

/// Stores `v` at timestamp `t` in `samples`.
fn upsert_sample<V: Copy>(samples: &mut Vec<(i64, V)>, t: i64, v: V)
    requires
        keys_unique(old(samples)@),
    ensures
        final(samples)@ == upsert(old(samples)@, t, v),
        keys_unique(final(samples)@),
{
    let mut k: usize = 0;
    while k < samples.len()
        invariant
            k <= samples@.len(),
            samples@ == old(samples)@,
            keys_unique(samples@),
            forall|x: int| 0 <= x < k ==> samples@[x].0 != t,
        decreases samples@.len() - k,
    {
        if samples[k].0 == t {
            proof {
                assert(has_key(samples@, t));
                assert(key_index(samples@, t) == k);
            }
            samples.set(k, (t, v));
            return;
        }
        k += 1;
    }
    samples.push((t, v));
}

/// Reads the value sampled at timestamp `t`.
pub fn sample_value<V: Copy>(samples: &Vec<(i64, V)>, t: i64) -> (r: Option<V>)
    requires
        keys_unique(samples@),
    ensures
        r == sample_at(samples@, t),
{
    let mut k: usize = 0;
    while k < samples.len()
        invariant
            k <= samples@.len(),
            keys_unique(samples@),
            forall|x: int| 0 <= x < k ==> samples@[x].0 != t,
        decreases samples@.len() - k,
    {
        if samples[k].0 == t {
            proof {
                assert(has_key(samples@, t));
                assert(key_index(samples@, t) == k);
            }
            return Some(samples[k].1);
        }
        k += 1;
    }
    None
}

/// The series of dimension `name` over `rows`.
pub fn build_one<V: Copy>(rows: &Vec<Row<V>>, name: &String) -> (r: Series<V>)
    ensures
        r.name == *name,
        r.samples@ == series_samples(rows@, name@, rows@.len() as int),
        keys_unique(r.samples@),
{
    let mut samples: Vec<(i64, V)> = Vec::new();
    let mut i: usize = 0;
    while i < rows.len()
        invariant
            i <= rows@.len(),
            samples@ == series_samples(rows@, name@, i as int),
            keys_unique(samples@),
        decreases rows@.len() - i,
    {
        let row = &rows[i];
        let t: i64 = match row.stamp {
            Some(s) => s,
            None => i as i64,
        };
        match field_value(row, name) {
            Some(v) => upsert_sample(&mut samples, t, v),
            None => {},
        }
        i += 1;
    }
    Series { name: name.clone(), samples }
}

/// One series per dimension, in the order of `dimensions`.
pub fn build_series<V: Copy>(rows: &Vec<Row<V>>, dimensions: &Vec<String>) -> (r: Vec<Series<V>>)
    ensures
        r@.len() == dimensions@.len(),
        forall|d: int| 0 <= d < r@.len() ==> (#[trigger] r@[d]).name == dimensions@[d]
            && r@[d].samples@ == series_samples(rows@, dimensions@[d]@, rows@.len() as int)
            && keys_unique(r@[d].samples@),
{
    let mut out: Vec<Series<V>> = Vec::new();
    let mut d: usize = 0;
    while d < dimensions.len()
        invariant
            d <= dimensions@.len(),
            out@.len() == d,
            forall|e: int| 0 <= e < d ==> (#[trigger] out@[e]).name == dimensions@[e]
                && out@[e].samples@ == series_samples(rows@, dimensions@[e]@, rows@.len() as int)
                && keys_unique(out@[e].samples@),
        decreases dimensions@.len() - d,
    {
        out.push(build_one(rows, &dimensions[d]));
        d += 1;
    }
    out
}

} // verus!
