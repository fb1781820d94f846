use vstd::prelude::*;

verus! {

/// One input sample row: an optional integer timestamp and named values.
///
/// `stamp` is the row's timestamp as an integer, when the row has one.
/// `fields` holds the named values of the row, in order; a name that occurs
/// twice is read at its first occurrence. An input row keeps its timestamp
/// field among `fields` too; a row built by aggregation carries its
/// timestamp in `stamp` alone.
pub struct Row<V> {
    pub stamp: Option<i64>,
    pub fields: Vec<(String, V)>,
}

/// The trailing `size` rows of `rows`, or all of them when `size` is absent
/// or not smaller than the number of rows.
pub open spec fn window_of<T>(rows: Seq<T>, size: Option<usize>) -> Seq<T> {
    match size {
        Some(k) if (k as int) < rows.len() => rows.subrange(rows.len() - k, rows.len() as int),
        _ => rows,
    }
}

/// Keeps only the most recent `size` rows, in their original order.
pub fn window_rows<V>(rows: Vec<Row<V>>, size: Option<usize>) -> (r: Vec<Row<V>>)
    ensures
        r@ == window_of(rows@, size),
{
    let mut rows = rows;
    match size {
        Some(k) => {
            if k < rows.len() {
                let at: usize = rows.len() - k;
                rows.split_off(at)
            } else {
                rows
            }
        },
        None => rows,
    }
}

/// A window of size `k` over `L` rows keeps `min(k, L)` rows: the trailing
/// ones, in their original order.
pub proof fn lemma_window_shape<T>(rows: Seq<T>, k: usize)
    ensures
        window_of(rows, Some(k)).len() == if (k as int) < rows.len() { k as int } else { rows.len() as int },
        forall|i: int| 0 <= i < window_of(rows, Some(k)).len() ==>
            #[trigger] window_of(rows, Some(k))[i] == rows[rows.len() - window_of(rows, Some(k)).len() + i],
{
}

/// The value stored under `name` in `fields`: the first entry with that name.
pub open spec fn lookup<V>(fields: Seq<(String, V)>, name: Seq<char>) -> Option<V>
    decreases fields.len(),
{
    if fields.len() == 0 {
        None
    } else if fields[0].0@ == name {
        Some(fields[0].1)
    } else {
        lookup(fields.drop_first(), name)
    }
}

/// The name of the reserved timestamp field.
pub open spec fn timestamp_name() -> Seq<char> {
    "timestamp"@
}

/// The values of `fields` other than the timestamp field, in order.
pub open spec fn plain_values<V>(fields: Seq<(String, V)>) -> Seq<V>
    decreases fields.len(),
{
    if fields.len() == 0 {
        Seq::empty()
    } else {
        let before = plain_values(fields.drop_last());
        if fields.last().0@ == timestamp_name() {
            before
        } else {
            before.push(fields.last().1)
        }
    }
}

/// Every non-timestamp value of `rows`, row by row.
pub open spec fn all_plain_values<V>(rows: Seq<Row<V>>) -> Seq<V>
    decreases rows.len(),
{
    if rows.len() == 0 {
        Seq::empty()
    } else {
        all_plain_values(rows.drop_last()) + plain_values(rows.last().fields@)
    }
}

proof fn lemma_plain_values_empty<V>(fields: Seq<(String, V)>)
    ensures
        plain_values(fields).len() == 0 <==> forall|k: int| 0 <= k < fields.len() ==> (#[trigger] fields[k]).0@ == timestamp_name(),
    decreases fields.len(),
{
    if fields.len() > 0 {
        let init = fields.drop_last();
        lemma_plain_values_empty(init);
        assert forall|k: int| 0 <= k < init.len() implies #[trigger] init[k] == fields[k] by {}
        if plain_values(fields).len() == 0 {
            assert forall|k: int| 0 <= k < fields.len() implies (#[trigger] fields[k]).0@ == timestamp_name() by {
                if k < init.len() {
                    assert(init[k] == fields[k]);
                }
            }
        }
    }
}

/// The shared value domain has values to range over exactly when some row
/// holds a field other than the timestamp; otherwise it stays empty.
pub proof fn lemma_domain_empty_iff<V>(rows: Seq<Row<V>>)
    ensures
        all_plain_values(rows).len() == 0 <==> forall|r: int, k: int| 0 <= r < rows.len() && 0 <= k < rows[r].fields@.len()
            ==> (#[trigger] rows[r].fields@[k]).0@ == timestamp_name(),
    decreases rows.len(),
{
    if rows.len() > 0 {
        let init = rows.drop_last();
        let last = rows.len() - 1;
        lemma_domain_empty_iff(init);
        lemma_plain_values_empty(rows[last].fields@);
        assert forall|r: int| 0 <= r < init.len() implies #[trigger] init[r] == rows[r] by {}
        if all_plain_values(rows).len() == 0 {
            assert forall|r: int, k: int| 0 <= r < rows.len() && 0 <= k < rows[r].fields@.len()
                implies (#[trigger] rows[r].fields@[k]).0@ == timestamp_name() by {
                if r < last {
                    assert(init[r] == rows[r]);
                    assert(init[r].fields@[k] == rows[r].fields@[k]);
                }
            }
        } else {
            if plain_values(rows[last].fields@).len() == 0 {
                let w = choose|r: int, k: int| 0 <= r < init.len() && 0 <= k < init[r].fields@.len()
                    && !((#[trigger] init[r].fields@[k]).0@ == timestamp_name());
                assert(init[w.0] == rows[w.0]);
                assert(rows[w.0].fields@[w.1] == init[w.0].fields@[w.1]);
            } else {
                let k = choose|k: int| 0 <= k < rows[last].fields@.len() && !((#[trigger] rows[last].fields@[k]).0@ == timestamp_name());
                assert(rows[last].fields@[k] == rows[last].fields@[k]);
            }
        }
    }
}

/// Reads the value of field `name` in `row`.
pub fn field_value<V: Copy>(row: &Row<V>, name: &String) -> (r: Option<V>)
    ensures
        r == lookup(row.fields@, name@),
{
    let fields = &row.fields;
    let mut k: usize = 0;
    assert(fields@.subrange(0, fields@.len() as int) =~= fields@);
    while k < fields.len()
        invariant
            k <= fields@.len(),
            fields@ == row.fields@,
            lookup(fields@, name@) == lookup(fields@.subrange(k as int, fields@.len() as int), name@),
        decreases fields@.len() - k,
    {
        let ghost rest = fields@.subrange(k as int, fields@.len() as int);
        assert(rest.drop_first() =~= fields@.subrange(k + 1, fields@.len() as int));
        assert(rest[0] == fields@[k as int]);
        if fields[k].0 == *name {
            assert(lookup(rest, name@) == Some(rest[0].1));
            return Some(fields[k].1);
        }
        k += 1;
    }
    None
}

/// Whether `row` has a field called `name`.
pub fn has_field<V: Copy>(row: &Row<V>, name: &String) -> (r: bool)
    ensures
        r == lookup(row.fields@, name@).is_some(),
{
    field_value(row, name).is_some()
}

/// Every value of `rows` outside the timestamp field: the values over which
/// the shared value domain is taken.
pub fn domain_values<V: Copy>(rows: &Vec<Row<V>>) -> (r: Vec<V>)
    ensures
        r@ == all_plain_values(rows@),
{
    let stamp_key = "timestamp".to_owned();
    let mut out: Vec<V> = Vec::new();
    let mut i: usize = 0;
    while i < rows.len()
        invariant
            i <= rows@.len(),
            stamp_key@ == timestamp_name(),
            out@ == all_plain_values(rows@.subrange(0, i as int)),
        decreases rows@.len() - i,
    {
        let fields = &rows[i].fields;
        let ghost start = out@;
        let mut k: usize = 0;
        while k < fields.len()
            invariant
                k <= fields@.len(),
                fields@ == rows@[i as int].fields@,
                stamp_key@ == timestamp_name(),
                out@ == start + plain_values(fields@.subrange(0, k as int)),
            decreases fields@.len() - k,
        {
            assert(fields@.subrange(0, k + 1).drop_last() =~= fields@.subrange(0, k as int));
            if fields[k].0 != stamp_key {
                out.push(fields[k].1);
            }
            k += 1;
        }
        assert(fields@.subrange(0, k as int) =~= fields@);
        assert(rows@.subrange(0, i + 1).drop_last() =~= rows@.subrange(0, i as int));
        i += 1;
    }
    assert(rows@.subrange(0, i as int) =~= rows@);
    out
}

} // verus!
