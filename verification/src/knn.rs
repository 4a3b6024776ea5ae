//! Exact nearest neighbours by scoring everything.
use crate::float_order;
use crate::metric::Metric;
use crate::ranking;
use crate::ranking::Scored;
use vstd::prelude::*;

verus! {

/// Things `0..n` with the number that `score` gives each.
pub open spec fn scored_row(score: spec_fn(int) -> u32, n: nat) -> Seq<Scored> {
    Seq::new(n, |j: int| Scored { id: j as u32, bits: score(j) })
}

/// The measures from `from`.
pub open spec fn measures_from<M: Metric>(metric: &M, from: int) -> spec_fn(int) -> u32 {
    |to: int| metric.measured(from, to)
}

/// The `k` things nearest to `from`, nearest first; of equally near ones the lower number
/// comes first.
pub open spec fn nearest<M: Metric>(metric: &M, from: int, n: nat, k: nat) -> Seq<Scored> {
    ranking::first_k(ranking::ranked(scored_row(measures_from(metric, from), n)), k)
}

/// The `k` things other than `from` nearest to it.
pub open spec fn nearest_others<M: Metric>(metric: &M, from: int, n: nat, k: nat) -> Seq<Scored> {
    ranking::first_k(ranking::ranked(scored_row(measures_from(metric, from), n).remove(from)), k)
}

/// `list` holds the `k` of things `0..n` other than `but` with the lowest measures from `from`,
/// lowest first and of equals the one with the lower number first, or all where there are
/// fewer: each with its measure, none twice, and none that is left out comes before one of them.
pub open spec fn are_nearest<M: Metric>(
    list: Seq<Scored>,
    metric: &M,
    from: int,
    n: nat,
    but: int,
    k: nat,
) -> bool {
    &&& list.len() <= k
    &&& forall|i: int|
        0 <= i < list.len() ==> (#[trigger] list[i]).id < n && list[i].id != but && list[i].bits
            == metric.measured(from, list[i].id as int)
    &&& forall|i: int, j: int|
        0 <= i < j < list.len() ==> (#[trigger] list[i]).id != (#[trigger] list[j]).id
            && comes_first(list[i], list[j])
    &&& forall|v: u32|
        v < n && v != but ==> #[trigger] is_listed(list, v) || (list.len() == k && forall|i: int|
            0 <= i < list.len() ==> comes_first(
                #[trigger] list[i],
                Scored { id: v, bits: metric.measured(from, v as int) },
            ))
}

/// Whether a list names a thing.
pub open spec fn is_listed(list: Seq<Scored>, v: u32) -> bool {
    exists|i: int| 0 <= i < list.len() && (#[trigger] list[i]).id == v
}

/// A lower measure comes first, of equals the lower number.
pub open spec fn comes_first(a: Scored, b: Scored) -> bool {
    float_order::total_rank(a.bits) < float_order::total_rank(b.bits) || (a.bits == b.bits && a.id
        <= b.id)
}

proof fn first_of_row<M: Metric>(metric: &M, from: int, n: nat, but: int, k: nat, row: Seq<Scored>)
    requires
        n <= u32::MAX,
        ranking::distinct_ids(row),
        forall|i: int|
            0 <= i < row.len() ==> (#[trigger] row[i]).id < n && row[i].id != but && row[i].bits
                == metric.measured(from, row[i].id as int),
        forall|v: u32|
            v < n && v != but ==> #[trigger] row.contains(
                Scored { id: v, bits: metric.measured(from, v as int) },
            ),
    ensures
        are_nearest(ranking::first_k(ranking::ranked(row), k), metric, from, n, but, k),
{
    let list = ranking::first_k(ranking::ranked(row), k);
    ranking::first_k_are_lowest(row, k);
    assert forall|i: int| 0 <= i < list.len() implies (#[trigger] list[i]).id < n && list[i].id
        != but && list[i].bits == metric.measured(from, list[i].id as int) by {
        assert(row.contains(list[i]));
        let j = choose|j: int| 0 <= j < row.len() && row[j] == list[i];
        assert(row[j].id < n);
    }
    assert forall|i: int, j: int| 0 <= i < j < list.len() implies (#[trigger] list[i]).id != (
    #[trigger] list[j]).id && comes_first(list[i], list[j]) by {
        assert(list[i].leads(list[j]));
        float_order::below_is_lower_rank(list[i].bits, list[j].bits);
    }
    assert forall|v: u32| v < n && v != but implies #[trigger] is_listed(list, v) || (list.len() == k
        && forall|i: int|
        0 <= i < list.len() ==> comes_first(
            #[trigger] list[i],
            Scored { id: v, bits: metric.measured(from, v as int) },
        )) by {
        let x = Scored { id: v, bits: metric.measured(from, v as int) };
        assert(row.contains(x));
        if list.contains(x) {
            let i = choose|i: int| 0 <= i < list.len() && list[i] == x;
            assert(list[i].id == v);
        } else {
            ranking::first_k_are_best(row, k, x);
            assert forall|i: int| 0 <= i < list.len() implies comes_first(#[trigger] list[i], x) by {
                assert(list[i].leads(x));
                float_order::below_is_lower_rank(list[i].bits, x.bits);
            }
        }
    }
}

/// The nearest things are the nearest: whatever is left out comes after all of them.
pub proof fn nearest_are_nearest<M: Metric>(metric: &M, from: int, n: nat, k: nat)
    requires
        n <= u32::MAX,
    ensures
        are_nearest(nearest(metric, from, n, k), metric, from, n, -1, k),
        nearest(metric, from, n, k).len() == (if k < n {
            k
        } else {
            n
        }),
{
    let row = scored_row(measures_from(metric, from), n);
    assert forall|v: u32| v < n implies #[trigger] row.contains(
        Scored { id: v, bits: metric.measured(from, v as int) },
    ) by {
        assert(row[v as int] == (Scored { id: v, bits: metric.measured(from, v as int) }));
    }
    ranking::ranked_properties(row);
    first_of_row(metric, from, n, -1, k, row);
}

/// The nearest other things are the nearest of all but the one itself.
pub proof fn nearest_others_are_nearest<M: Metric>(metric: &M, from: int, n: nat, k: nat)
    requires
        n <= u32::MAX,
        0 <= from < n,
    ensures
        are_nearest(nearest_others(metric, from, n, k), metric, from, n, from, k),
        nearest_others(metric, from, n, k).len() == (if k < n - 1 {
            k
        } else {
            (n - 1) as nat
        }),
{
    let all = scored_row(measures_from(metric, from), n);
    let row = all.remove(from);
    assert forall|v: u32| v < n && v != from implies #[trigger] row.contains(
        Scored { id: v, bits: metric.measured(from, v as int) },
    ) by {
        let at = if v < from { v as int } else { v - 1 };
        assert(row[at] == (Scored { id: v, bits: metric.measured(from, v as int) }));
    }
    ranking::ranked_properties(row);
    first_of_row(metric, from, n, from, k, row);
}

/// Scores things `0..n` against `from`.
pub fn score_row<M: Metric>(metric: &M, from: u32, n: usize) -> (row: Vec<Scored>)
    requires
        from < metric.sources(),
        n <= metric.targets(),
        n <= u32::MAX,
    ensures
        row@ == scored_row(measures_from(metric, from as int), n as nat),
{
    let mut row: Vec<Scored> = Vec::new();
    let mut j: usize = 0;
    while j < n
        invariant
            j <= n <= u32::MAX,
            from < metric.sources(),
            n <= metric.targets(),
            row@ == scored_row(measures_from(metric, from as int), j as nat),
        decreases n - j,
    {
        let bits: u32 = metric.measure(from, j as u32);
        row.push(Scored { id: j as u32, bits });
        j += 1;
        assert(row@ =~= scored_row(measures_from(metric, from as int), j as nat));
    }
    row
}

/// The `k` of things `0..n` nearest to `from`.
pub fn find_nearest<M: Metric>(metric: &M, from: u32, n: usize, k: usize) -> (found: Vec<Scored>)
    requires
        from < metric.sources(),
        n <= metric.targets(),
        n <= u32::MAX,
    ensures
        found@ == nearest(metric, from as int, n as nat, k as nat),
{
    let row = score_row(metric, from, n);
    ranking::rank_first(row.as_slice(), k)
}

/// The ids of the `k` of things `0..n` other than `from` nearest to it.
pub fn find_nearest_others<M: Metric>(metric: &M, from: u32, n: usize, k: usize) -> (found: Vec<u32>)
    requires
        from < n,
        n <= metric.sources(),
        n <= metric.targets(),
        n <= u32::MAX,
    ensures
        found@ == ranking::ids_of(nearest_others(metric, from as int, n as nat, k as nat)),
{
    let mut row = score_row(metric, from, n);
    let _ = row.remove(from as usize);
    let first = ranking::rank_first(row.as_slice(), k);
    ranking::ids(&first)
}

/// Candidates with their distances from a query.
pub open spec fn rescored<M: Metric>(metric: &M, query: int, candidates: Seq<u32>) -> Seq<Scored> {
    Seq::new(
        candidates.len(),
        |i: int|
            Scored { id: candidates[i], bits: metric.measured(query, candidates[i] as int) },
    )
}

/// Scores candidates against a query.
pub fn rescore<M: Metric>(metric: &M, query: u32, candidates: &Vec<u32>) -> (list: Vec<Scored>)
    requires
        query < metric.sources(),
        forall|i: int| 0 <= i < candidates@.len() ==> #[trigger] candidates@[i] < metric.targets(),
    ensures
        list@ == rescored(metric, query as int, candidates@),
{
    let mut list: Vec<Scored> = Vec::new();
    let mut i: usize = 0;
    while i < candidates.len()
        invariant
            i <= candidates@.len(),
            query < metric.sources(),
            forall|j: int|
                0 <= j < candidates@.len() ==> #[trigger] candidates@[j] < metric.targets(),
            list@.len() == i,
            forall|j: int|
                0 <= j < i ==> #[trigger] list@[j] == rescored(metric, query as int, candidates@)[j],
        decreases candidates@.len() - i,
    {
        let id: u32 = candidates[i];
        let bits: u32 = metric.measure(query, id);
        list.push(Scored { id, bits });
        i += 1;
    }
    assert(list@ =~= rescored(metric, query as int, candidates@));
    list
}

/// For each of queries `0..queries` the ids of the `k` of things `0..n` nearest to it.
pub fn ground_truth<M: Metric>(metric: &M, queries: usize, n: usize, k: usize) -> (truth: Vec<
    Vec<u32>,
>)
    requires
        queries <= metric.sources(),
        queries <= u32::MAX,
        n <= metric.targets(),
        n <= u32::MAX,
    ensures
        truth@.len() == queries,
        forall|q: int|
            0 <= q < queries ==> (#[trigger] truth@[q])@ == ranking::ids_of(
                nearest(metric, q, n as nat, k as nat),
            ),
{
    let mut truth: Vec<Vec<u32>> = Vec::new();
    let mut q: usize = 0;
    while q < queries
        invariant
            q <= queries <= u32::MAX,
            queries <= metric.sources(),
            n <= metric.targets(),
            n <= u32::MAX,
            truth@.len() == q,
            forall|i: int|
                0 <= i < q ==> (#[trigger] truth@[i])@ == ranking::ids_of(
                    nearest(metric, i, n as nat, k as nat),
                ),
        decreases queries - q,
    {
        let found = find_nearest(metric, q as u32, n, k);
        truth.push(ranking::ids(&found));
        q += 1;
    }
    truth
}

/// Every entry of a row has its own id and its own number.
pub proof fn row_entries(score: spec_fn(int) -> u32, n: nat, x: Scored)
    requires
        n <= u32::MAX,
    ensures
        ranking::distinct_ids(scored_row(score, n)),
        scored_row(score, n).contains(x) <==> x.id < n && x.bits == score(x.id as int),
{
    let row = scored_row(score, n);
    if x.id < n && x.bits == score(x.id as int) {
        assert(row[x.id as int] == x);
    }
    if row.contains(x) {
        let j = choose|j: int| 0 <= j < n && row[j] == x;
        assert(x.id == j as u32);
    }
}

/// The nearest `k` are `k` distinct things, or all where there are fewer, in order, and no
/// other thing is nearer than any of them.
pub proof fn nearest_is_exact<M: Metric>(metric: &M, from: int, n: nat, k: nat, x: Scored)
    requires
        n <= u32::MAX,
        x.id < n,
        x.bits == metric.measured(from, x.id as int),
    ensures
        nearest(metric, from, n, k).len() == (if k < n {
            k
        } else {
            n
        }),
        ranking::in_order(nearest(metric, from, n, k)),
        ranking::distinct_ids(nearest(metric, from, n, k)),
        nearest(metric, from, n, k).contains(x) || forall|i: int|
            0 <= i < nearest(metric, from, n, k).len() ==> (#[trigger] nearest(
                metric,
                from,
                n,
                k,
            )[i]).leads(x),
{
    let score = measures_from(metric, from);
    let row = scored_row(score, n);
    row_entries(score, n, x);
    ranking::ranked_properties(row);
    if !nearest(metric, from, n, k).contains(x) {
        ranking::first_k_are_best(row, k, x);
    }
}

/// Neighbours of `from` are other things, and none comes twice.
pub proof fn others_are_others<M: Metric>(metric: &M, from: int, n: nat, k: nat)
    requires
        0 <= from < n,
        n <= u32::MAX,
    ensures
        ({
            let found = nearest_others(metric, from, n, k);
            &&& found.len() == (if k < n - 1 {
                k
            } else {
                (n - 1) as nat
            })
            &&& ranking::in_order(found)
            &&& ranking::distinct_ids(found)
            &&& forall|i: int|
                0 <= i < found.len() ==> (#[trigger] found[i]).id < n && found[i].id != from
                    && found[i].bits == metric.measured(from, found[i].id as int)
        }),
{
    let score = measures_from(metric, from);
    let row = scored_row(score, n);
    let rest = row.remove(from);
    assert(ranking::distinct_ids(rest));
    ranking::ranked_properties(rest);
    let all = ranking::ranked(rest);
    let found = nearest_others(metric, from, n, k);
    assert forall|i: int| 0 <= i < found.len() implies (#[trigger] found[i]).id < n && found[i].id
        != from && found[i].bits == metric.measured(from, found[i].id as int) by {
        assert(all.contains(all[i]));
        assert(rest.contains(all[i]));
        let j = choose|j: int| 0 <= j < rest.len() && rest[j] == all[i];
        let at = if j < from { j } else { j + 1 };
        assert(rest[j] == row[at]);
    }
}

} // verus!
