//! Historical statistics: per-label sum, average and median over the
//! durations collected from previously persisted snapshots, each result list
//! ordered by descending value for presentation.
//!
//! Values are millisecond durations. To keep every statistic exact in
//! integers, a median is returned doubled (the mean of the two central values
//! of an even-sized list is a half-integer), and an average is returned as a
//! numerator with its divisor: the displayed value is `value / 2` and
//! `numerator / divisor` respectively.

use vstd::prelude::*;
use vstd::relations::{sorted_by, total_ordering};
use vstd::seq_lib::{group_to_multiset_ensures, lemma_multiset_commutative, lemma_sorted_unique};
use vstd::multiset::Multiset;

verus! {

/// The sum of a list of values, as an unbounded integer.
pub open spec fn sum_vals(s: Seq<u64>) -> int
    decreases s.len(),
{
    if s.len() == 0 {
        0
    } else {
        s[0] + sum_vals(s.drop_first())
    }
}

/// Clamps a non-negative integer to the largest representable value.
pub open spec fn sat64(x: int) -> u64 {
    if x > u64::MAX {
        u64::MAX
    } else if x < 0 {
        0
    } else {
        x as u64
    }
}

/// Ascending order on values.
pub open spec fn asc() -> spec_fn(u64, u64) -> bool {
    |a: u64, b: u64| a <= b
}

/// Descending order on rows, by the value component.
pub open spec fn val_desc() -> spec_fn((String, u64), (String, u64)) -> bool {
    |p: (String, u64), q: (String, u64)| p.1 >= q.1
}

/// The values in ascending order.
pub open spec fn sorted_vals(s: Seq<u64>) -> Seq<u64> {
    s.sort_by(asc())
}

/// Twice the median of an already sorted list: the sum of the two central
/// values when the length is even, twice the central value when odd, zero
/// when the list is empty.
pub open spec fn central2(t: Seq<u64>) -> int {
    if t.len() == 0 {
        0
    } else if t.len() % 2 == 0 {
        t[t.len() as int / 2 - 1] + t[t.len() as int / 2]
    } else {
        2 * t[t.len() as int / 2]
    }
}

/// Twice the median of a list of values.
pub open spec fn median2_of(s: Seq<u64>) -> int {
    central2(sorted_vals(s))
}

/// Ascending value order is a total order.
proof fn lemma_asc_total()
    ensures
        total_ordering(asc()),
{
    assert forall|a: u64, b: u64| #[trigger] asc()(a, b) || #[trigger] asc()(b, a) by {}
}

/// Sums a list of values, saturating at the largest representable value.
pub fn sum_sat(vals: &Vec<u64>) -> (r: u64)
    ensures
        r == sat64(sum_vals(vals@)),
{
    let mut acc: u64 = 0;
    let mut i: usize = 0;
    proof {
        assert(vals@.take(0) =~= Seq::<u64>::empty());
    }
    while i < vals.len()
        invariant
            i <= vals@.len(),
            acc == sat64(sum_vals(vals@.take(i as int))),
            sum_vals(vals@.take(i as int)) >= 0,
        decreases vals@.len() - i,
    {
        let v = vals[i];
        proof {
            lemma_sum_snoc(vals@.take(i as int), v);
            assert(vals@.take(i + 1) =~= vals@.take(i as int).push(v));
            lemma_sum_nonneg(vals@.take(i + 1));
        }
        if acc <= u64::MAX - v {
            acc = acc + v;
        } else {
            acc = u64::MAX;
        }
        i += 1;
    }
    proof {
        assert(vals@.take(vals@.len() as int) =~= vals@);
    }
    acc
}

/// A sum of values is never negative.
proof fn lemma_sum_nonneg(s: Seq<u64>)
    ensures
        sum_vals(s) >= 0,
    decreases s.len(),
{
    if s.len() > 0 {
        lemma_sum_nonneg(s.drop_first());
    }
}

/// Appending a value adds it to the sum.
proof fn lemma_sum_snoc(s: Seq<u64>, v: u64)
    ensures
        sum_vals(s.push(v)) == sum_vals(s) + v,
    decreases s.len(),
{
    reveal_with_fuel(sum_vals, 3);
    assert(s.push(v)[0] == if s.len() == 0 {
        v
    } else {
        s[0]
    });
    if s.len() == 0 {
        assert(s.push(v).drop_first() =~= Seq::<u64>::empty());
    } else {
        assert(s.push(v).drop_first() =~= s.drop_first().push(v));
        lemma_sum_snoc(s.drop_first(), v);
    }
}

/// Inserting a value anywhere in a sequence inserts it into the multiset.
proof fn lemma_insert_multiset<A>(s: Seq<A>, pos: int, v: A)
    requires
        0 <= pos <= s.len(),
    ensures
        s.insert(pos, v).to_multiset() == s.to_multiset().insert(v),
{
    broadcast use group_to_multiset_ensures;
    broadcast use vstd::multiset::group_multiset_axioms;

    assert(s.insert(pos, v) =~= s.take(pos) + (s.take(pos).push(v).skip(pos) + s.skip(pos)));
    assert(s.take(pos).push(v).skip(pos) =~= seq![v]);
    assert(s.insert(pos, v) =~= s.take(pos) + (seq![v] + s.skip(pos)));
    lemma_multiset_commutative(s.take(pos), seq![v] + s.skip(pos));
    lemma_multiset_commutative(seq![v], s.skip(pos));
    assert(seq![v] =~= Seq::<A>::empty().push(v));
    assert(Seq::<A>::empty().to_multiset() =~= Multiset::<A>::empty());
    assert(seq![v].to_multiset() =~= Multiset::<A>::empty().insert(v));
    assert(s =~= s.take(pos) + s.skip(pos));
    lemma_multiset_commutative(s.take(pos), s.skip(pos));
    assert(s.insert(pos, v).to_multiset() =~= s.to_multiset().insert(v));
}

/// Sorts values ascending.
fn sort_asc(vals: &Vec<u64>) -> (r: Vec<u64>)
    ensures
        r@ == sorted_vals(vals@),
{
    broadcast use group_to_multiset_ensures;

    let mut out: Vec<u64> = Vec::new();
    let mut i: usize = 0;
    proof {
        assert(vals@.take(0) =~= Seq::<u64>::empty());
        assert(out@.to_multiset() =~= vals@.take(0).to_multiset());
    }
    while i < vals.len()
        invariant
            i <= vals@.len(),
            sorted_by(out@, asc()),
            out@.to_multiset() == vals@.take(i as int).to_multiset(),
        decreases vals@.len() - i,
    {
        let v = vals[i];
        let mut pos: usize = 0;
        while pos < out.len() && out[pos] <= v
            invariant
                pos <= out@.len(),
                forall|t: int| 0 <= t < pos ==> out@[t] <= v,
            decreases out@.len() - pos,
        {
            pos += 1;
        }
        let ghost pre = out@;
        out.insert(pos, v);
        proof {
            broadcast use group_to_multiset_ensures;

            lemma_insert_multiset(pre, pos as int, v);
            pre.insert_ensures(pos as int, v);
            assert(vals@.take(i + 1) =~= vals@.take(i as int).push(v));
            assert(vals@.take(i as int).push(v).to_multiset() == vals@.take(
                i as int,
            ).to_multiset().insert(v));
            assert forall|a: int, b: int| 0 <= a < b < out@.len() implies asc()(
                out@[a],
                out@[b],
            ) by {
                if b < pos {
                    assert(asc()(pre[a], pre[b]));
                    assert(out@[a] == pre[a] && out@[b] == pre[b]);
                } else if b == pos {
                    assert(out@[a] == pre[a] && out@[b] == v);
                    assert(pre[a] <= v);
                } else if a < pos {
                    assert(out@[a] == pre[a] && out@[b] == pre[b - 1]);
                    if a < b - 1 {
                        assert(asc()(pre[a], pre[b - 1]));
                    }
                } else if a == pos {
                    assert(out@[a] == v && out@[b] == pre[b - 1]);
                    assert(!(pre[pos as int] <= v));
                    if pos < b - 1 {
                        assert(asc()(pre[pos as int], pre[b - 1]));
                    }
                } else {
                    assert(out@[a] == pre[a - 1] && out@[b] == pre[b - 1]);
                    assert(asc()(pre[a - 1], pre[b - 1]));
                }
            }
        }
        i += 1;
    }
    proof {
        assert(vals@.take(vals@.len() as int) =~= vals@);
        vals@.lemma_sort_by_ensures(asc());
        lemma_asc_total();
        lemma_sorted_unique(out@, vals@.sort_by(asc()), asc());
        assert(out@ == vals@.sort_by(asc()));
    }
    out
}

/// Twice the median of a list of values: zero when the list is empty, the
/// sum of the two central sorted values when its length is even, twice the
/// central sorted value when odd; saturating at the largest representable
/// value.
pub fn median2(vals: &Vec<u64>) -> (r: u64)
    ensures
        r == sat64(median2_of(vals@)),
{
    let t = sort_asc(vals);
    if t.len() == 0 {
        0
    } else if t.len() % 2 == 0 {
        let m = t.len() / 2;
        let a = t[m - 1];
        let b = t[m];
        if a <= u64::MAX - b {
            a + b
        } else {
            u64::MAX
        }
    } else {
        let c = t[t.len() / 2];
        if c <= u64::MAX / 2 {
            2 * c
        } else {
            u64::MAX
        }
    }
}

/// Sorts rows by descending value, keeping every row.
fn sort_desc(rows: Vec<(String, u64)>) -> (r: Vec<(String, u64)>)
    ensures
        sorted_by(r@, val_desc()),
        r@.to_multiset() == rows@.to_multiset(),
{
    broadcast use group_to_multiset_ensures;

    let mut out: Vec<(String, u64)> = Vec::new();
    let mut i: usize = 0;
    proof {
        assert(rows@.take(0) =~= Seq::<(String, u64)>::empty());
        assert(out@.to_multiset() =~= rows@.take(0).to_multiset());
    }
    while i < rows.len()
        invariant
            i <= rows@.len(),
            sorted_by(out@, val_desc()),
            out@.to_multiset() == rows@.take(i as int).to_multiset(),
        decreases rows@.len() - i,
    {
        let v: u64 = rows[i].1;
        let label = rows[i].0.clone();
        let ghost row = rows@[i as int];
        proof {
            assert((label, v) == row);
        }
        let mut pos: usize = 0;
        while pos < out.len() && out[pos].1 >= v
            invariant
                pos <= out@.len(),
                forall|t: int| 0 <= t < pos ==> out@[t].1 >= v,
            decreases out@.len() - pos,
        {
            pos += 1;
        }
        let ghost pre = out@;
        out.insert(pos, (label, v));
        proof {
            broadcast use group_to_multiset_ensures;

            lemma_insert_multiset(pre, pos as int, row);
            pre.insert_ensures(pos as int, row);
            assert(rows@.take(i + 1) =~= rows@.take(i as int).push(row));
            assert(rows@.take(i as int).push(row).to_multiset() == rows@.take(
                i as int,
            ).to_multiset().insert(row));
            assert forall|a: int, b: int| 0 <= a < b < out@.len() implies val_desc()(
                out@[a],
                out@[b],
            ) by {
                if b < pos {
                    assert(val_desc()(pre[a], pre[b]));
                    assert(out@[a] == pre[a] && out@[b] == pre[b]);
                } else if b == pos {
                    assert(out@[a] == pre[a] && out@[b] == row);
                    assert(pre[a].1 >= v);
                } else if a < pos {
                    assert(out@[a] == pre[a] && out@[b] == pre[b - 1]);
                    if a < b - 1 {
                        assert(val_desc()(pre[a], pre[b - 1]));
                    }
                } else if a == pos {
                    assert(out@[a] == row && out@[b] == pre[b - 1]);
                    assert(!(pre[pos as int].1 >= v));
                    if pos < b - 1 {
                        assert(val_desc()(pre[pos as int], pre[b - 1]));
                    }
                } else {
                    assert(out@[a] == pre[a - 1] && out@[b] == pre[b - 1]);
                    assert(val_desc()(pre[a - 1], pre[b - 1]));
                }
            }
        }
        i += 1;
    }
    proof {
        assert(rows@.take(rows@.len() as int) =~= rows@);
    }
    out
}


/// The per-label sum rows of grouped data.
pub open spec fn sum_rows(data: Seq<(String, Vec<u64>)>) -> Seq<(String, u64)> {
    data.map_values(|g: (String, Vec<u64>)| (g.0, sat64(sum_vals(g.1@))))
}

/// The per-label doubled-median rows of grouped data.
pub open spec fn median_rows(data: Seq<(String, Vec<u64>)>) -> Seq<(String, u64)> {
    data.map_values(|g: (String, Vec<u64>)| (g.0, sat64(median2_of(g.1@))))
}

/// The total duration of each label, ordered by descending value: exactly
/// one row per group, the row's value the saturating sum of the group's
/// durations.
pub fn calculate_sum(data: &Vec<(String, Vec<u64>)>) -> (r: Vec<(String, u64)>)
    ensures
        sorted_by(r@, val_desc()),
        r@.to_multiset() == sum_rows(data@).to_multiset(),
{
    let mut rows: Vec<(String, u64)> = Vec::new();
    let mut i: usize = 0;
    proof {
        assert(rows@ =~= sum_rows(data@.take(0)));
    }
    while i < data.len()
        invariant
            i <= data@.len(),
            rows@ == sum_rows(data@.take(i as int)),
        decreases data@.len() - i,
    {
        let total = sum_sat(&data[i].1);
        let label = data[i].0.clone();
        rows.push((label, total));
        proof {
            assert(data@.take(i + 1) =~= data@.take(i as int).push(data@[i as int]));
            assert(sum_rows(data@.take(i + 1)) =~= sum_rows(data@.take(i as int)).push(
                (data@[i as int].0, sat64(sum_vals(data@[i as int].1@))),
            ));
            assert(rows@ =~= sum_rows(data@.take(i + 1)));
        }
        i += 1;
    }
    proof {
        assert(data@.take(data@.len() as int) =~= data@);
    }
    sort_desc(rows)
}

/// The doubled median duration of each label, ordered by descending value:
/// exactly one row per group, the row's value twice the group's median.
pub fn calculate_median(data: &Vec<(String, Vec<u64>)>) -> (r: Vec<(String, u64)>)
    ensures
        sorted_by(r@, val_desc()),
        r@.to_multiset() == median_rows(data@).to_multiset(),
{
    let mut rows: Vec<(String, u64)> = Vec::new();
    let mut i: usize = 0;
    proof {
        assert(rows@ =~= median_rows(data@.take(0)));
    }
    while i < data.len()
        invariant
            i <= data@.len(),
            rows@ == median_rows(data@.take(i as int)),
        decreases data@.len() - i,
    {
        let med = median2(&data[i].1);
        let label = data[i].0.clone();
        rows.push((label, med));
        proof {
            assert(data@.take(i + 1) =~= data@.take(i as int).push(data@[i as int]));
            assert(median_rows(data@.take(i + 1)) =~= median_rows(data@.take(i as int)).push(
                (data@[i as int].0, sat64(median2_of(data@[i as int].1@))),
            ));
            assert(rows@ =~= median_rows(data@.take(i + 1)));
        }
        i += 1;
    }
    proof {
        assert(data@.take(data@.len() as int) =~= data@);
    }
    sort_desc(rows)
}

/// The average duration of each label as an exact fraction, ordered by
/// descending value: one row per group holding the label, the saturating sum
/// of the group's durations as the numerator, and `file_count` — the number
/// of snapshot files scanned, parsed or not — as the divisor of every row.
pub fn calculate_avg(data: &Vec<(String, Vec<u64>)>, file_count: usize) -> (r: Vec<
    (String, u64, u64),
>)
    ensures
        forall|i: int, j: int| 0 <= i < j < r@.len() ==> r@[i].1 >= r@[j].1,
        forall|i: int| 0 <= i < r@.len() ==> r@[i].2 == file_count,
        r@.map_values(|t: (String, u64, u64)| (t.0, t.1)).to_multiset() == sum_rows(
            data@,
        ).to_multiset(),
{
    let sums = calculate_sum(data);
    let mut rows: Vec<(String, u64, u64)> = Vec::new();
    let mut i: usize = 0;
    proof {
        assert(rows@.map_values(|t: (String, u64, u64)| (t.0, t.1)) =~= sums@.take(0));
    }
    while i < sums.len()
        invariant
            i <= sums@.len(),
            sorted_by(sums@, val_desc()),
            rows@.len() == i,
            rows@.map_values(|t: (String, u64, u64)| (t.0, t.1)) == sums@.take(i as int),
            forall|t: int| 0 <= t < i ==> rows@[t].2 == file_count,
            forall|t: int| 0 <= t < i ==> rows@[t].1 == sums@[t].1,
        decreases sums@.len() - i,
    {
        let label = sums[i].0.clone();
        let value: u64 = sums[i].1;
        rows.push((label, value, file_count as u64));
        proof {
            assert((label, value) == sums@[i as int]);
            assert(sums@.take(i + 1) =~= sums@.take(i as int).push(sums@[i as int]));
            assert(rows@.map_values(|t: (String, u64, u64)| (t.0, t.1)) =~= sums@.take(i + 1));
        }
        i += 1;
    }
    proof {
        assert(sums@.take(sums@.len() as int) =~= sums@);
        assert forall|a: int, b: int| 0 <= a < b < rows@.len() implies rows@[a].1 >= rows@[b].1 by {
            assert(val_desc()(sums@[a], sums@[b]));
        }
    }
    rows
}

} // verus!
