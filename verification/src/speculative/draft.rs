//! Draft search on vectors quantised to bytes.
use crate::rag::sums;
use crate::float_order;
use crate::ranking::Scored;
use crate::single;
use vstd::prelude::*;
use vstd::relations::sorted_by;
use vstd::relations::total_ordering;

verus! {

/// The largest finite number.
pub const MAX_FINITE: u32 = 0x7f7f_ffff;

/// The lowest finite number.
pub const MIN_FINITE: u32 = 0xff7f_ffff;

/// The squared difference of two bytes.
pub open spec fn square_gap(x: u8, y: u8) -> int {
    (x - y) * (x - y)
}

/// The sum of the squared differences of the first `n` bytes.
pub open spec fn code_distance(a: Seq<u8>, b: Seq<u8>, n: nat) -> int
    decreases n,
{
    if n == 0 {
        0
    } else {
        code_distance(a, b, (n - 1) as nat) + square_gap(a[n - 1], b[n - 1])
    }
}

/// The shorter of two lengths.
pub open spec fn shorter(a: nat, b: nat) -> nat {
    if a < b {
        a
    } else {
        b
    }
}

/// Squared distance of two byte vectors, over the dimensions that both have.
pub fn sq_l2_u8(a: &[u8], b: &[u8]) -> (dist: u64)
    requires
        65025 * shorter(a@.len(), b@.len()) <= u64::MAX,
    ensures
        dist == code_distance(a@, b@, shorter(a@.len(), b@.len())),
{
    let n: usize = if a.len() < b.len() {
        a.len()
    } else {
        b.len()
    };
    let mut dist: u64 = 0;
    let mut i: usize = 0;
    while i < n
        invariant
            i <= n <= a@.len(),
            n <= b@.len(),
            65025 * n <= u64::MAX,
            dist == code_distance(a@, b@, i as nat),
            dist <= 65025 * i,
        decreases n - i,
    {
        let d: i32 = a[i] as i32 - b[i] as i32;
        assert(0 <= d * d <= 65025) by (nonlinear_arith)
            requires
                -255 <= d <= 255,
        ;
        dist = dist + (d * d) as u64;
        i += 1;
    }
    dist
}

/// A vector is at no distance from itself, and two vectors are as far from each other both ways.
pub proof fn code_distance_laws(a: Seq<u8>, b: Seq<u8>, n: nat)
    ensures
        code_distance(a, a, n) == 0,
        code_distance(a, b, n) == code_distance(b, a, n),
        0 <= code_distance(a, b, n) <= 65025 * n,
    decreases n,
{
    if n > 0 {
        code_distance_laws(a, b, (n - 1) as nat);
        let d = a[n - 1] - b[n - 1];
        assert(0 <= d * d <= 65025) by (nonlinear_arith)
            requires
                -255 <= d <= 255,
        ;
        assert((-d) * (-d) == d * d) by (nonlinear_arith);
        let z = a[n - 1] - a[n - 1];
        assert(z * z == 0) by (nonlinear_arith)
            requires
                z == 0,
        ;
    }
}

/// The distance of two codes is the sum over all dimensions of their squared differences, and
/// nought only where they agree.
pub proof fn code_distance_sums_squares(a: Seq<u8>, b: Seq<u8>, n: nat)
    ensures
        code_distance(a, b, n) == sums::total(|i: int| (a[i] - b[i]) * (a[i] - b[i]), n),
        code_distance(a, b, n) == 0 <==> forall|i: int| 0 <= i < n ==> #[trigger] a[i] == b[i],
    decreases n,
{
    if n > 0 {
        code_distance_sums_squares(a, b, (n - 1) as nat);
        code_distance_laws(a, b, (n - 1) as nat);
        let d = a[n - 1] - b[n - 1];
        assert(d * d >= 0 && (d * d == 0 <==> d == 0)) by (nonlinear_arith);
        if code_distance(a, b, n) == 0 {
            assert forall|i: int| 0 <= i < n implies #[trigger] a[i] == b[i] by {
                if i < n - 1 {
                    assert(code_distance(a, b, (n - 1) as nat) == 0);
                }
            }
        }
    }
}

/// The range of each dimension in a set of vectors.
pub struct ScalarQuantizer {
    /// The bits of the least value of each dimension.
    pub min_vals: Vec<u32>,
    /// The bits of the greatest value of each dimension.
    pub max_vals: Vec<u32>,
}

/// The least of the first `n` values of dimension `d`, as `<` finds it.
pub open spec fn least_value(vectors: Seq<Vec<u32>>, d: int, n: nat) -> u32
    decreases n,
{
    if n == 0 {
        MAX_FINITE
    } else {
        let before = least_value(vectors, d, (n - 1) as nat);
        if float_order::below(vectors[n - 1]@[d], before) {
            vectors[n - 1]@[d]
        } else {
            before
        }
    }
}

/// The greatest of the first `n` values of dimension `d`, as `>` finds it.
pub open spec fn greatest_value(vectors: Seq<Vec<u32>>, d: int, n: nat) -> u32
    decreases n,
{
    if n == 0 {
        MIN_FINITE
    } else {
        let before = greatest_value(vectors, d, (n - 1) as nat);
        if float_order::below(before, vectors[n - 1]@[d]) {
            vectors[n - 1]@[d]
        } else {
            before
        }
    }
}

/// Every finite value of a dimension lies in its range.
pub proof fn range_covers(vectors: Seq<Vec<u32>>, d: int, n: nat, i: int)
    requires
        0 <= i < n,
        float_order::magnitude(vectors[i]@[d]) < float_order::INFINITY,
    ensures
        float_order::at_most(least_value(vectors, d, n), vectors[i]@[d]),
        float_order::at_most(vectors[i]@[d], greatest_value(vectors, d, n)),
    decreases n,
{
    range_is_number(vectors, d, (n - 1) as nat);
    if i < n - 1 {
        range_covers(vectors, d, (n - 1) as nat, i);
    }
}

/// The range of a dimension is no wider than it must be: where all values are finite, its ends
/// are values that occur.
pub proof fn range_is_tight(vectors: Seq<Vec<u32>>, d: int, n: nat)
    requires
        n > 0,
        forall|i: int|
            0 <= i < n ==> float_order::magnitude((#[trigger] vectors[i])@[d])
                < float_order::INFINITY,
    ensures
        exists|i: int| 0 <= i < n && float_order::number_rank((#[trigger] vectors[i])@[d])
            == float_order::number_rank(least_value(vectors, d, n)),
        exists|i: int| 0 <= i < n && float_order::number_rank((#[trigger] vectors[i])@[d])
            == float_order::number_rank(greatest_value(vectors, d, n)),
    decreases n,
{
    let m = (n - 1) as nat;
    range_is_number(vectors, d, m);
    assert(float_order::magnitude(vectors[n - 1]@[d]) < float_order::INFINITY);
    if n > 1 {
        range_is_tight(vectors, d, m);
        let i = choose|i: int|
            0 <= i < m && float_order::number_rank((#[trigger] vectors[i])@[d])
                == float_order::number_rank(least_value(vectors, d, m));
        let j = choose|j: int|
            0 <= j < m && float_order::number_rank((#[trigger] vectors[j])@[d])
                == float_order::number_rank(greatest_value(vectors, d, m));
        assert(vectors[i] == vectors[i] && vectors[j] == vectors[j]);
    } else {
        assert(least_value(vectors, d, 0) == MAX_FINITE);
        assert(greatest_value(vectors, d, 0) == MIN_FINITE);
    }
}

proof fn range_is_number(vectors: Seq<Vec<u32>>, d: int, n: nat)
    ensures
        !float_order::not_a_number(least_value(vectors, d, n)),
        !float_order::not_a_number(greatest_value(vectors, d, n)),
    decreases n,
{
    if n > 0 {
        range_is_number(vectors, d, (n - 1) as nat);
    }
}

impl ScalarQuantizer {
    /// Finds the range of each dimension.
    pub fn train(vectors: &Vec<Vec<u32>>) -> (sq: Self)
        requires
            vectors@.len() > 0,
            vectors@[0]@.len() > 0,
            forall|i: int|
                0 <= i < vectors@.len() ==> (#[trigger] vectors@[i])@.len() == vectors@[0]@.len(),
        ensures
            sq.min_vals@.len() == vectors@[0]@.len(),
            sq.max_vals@.len() == vectors@[0]@.len(),
            forall|d: int|
                0 <= d < sq.min_vals@.len() ==> #[trigger] sq.min_vals@[d] == least_value(
                    vectors@,
                    d,
                    vectors@.len(),
                ),
            forall|d: int|
                0 <= d < sq.max_vals@.len() ==> #[trigger] sq.max_vals@[d] == greatest_value(
                    vectors@,
                    d,
                    vectors@.len(),
                ),
    {
        let dims: usize = vectors[0].len();
        let mut min_vals: Vec<u32> = Vec::new();
        let mut max_vals: Vec<u32> = Vec::new();
        let mut d: usize = 0;
        while d < dims
            invariant
                d <= dims,
                dims == vectors@[0]@.len(),
                forall|i: int|
                    0 <= i < vectors@.len() ==> (#[trigger] vectors@[i])@.len()
                        == vectors@[0]@.len(),
                min_vals@.len() == d,
                max_vals@.len() == d,
                forall|e: int|
                    0 <= e < d ==> #[trigger] min_vals@[e] == least_value(
                        vectors@,
                        e,
                        vectors@.len(),
                    ),
                forall|e: int|
                    0 <= e < d ==> #[trigger] max_vals@[e] == greatest_value(
                        vectors@,
                        e,
                        vectors@.len(),
                    ),
            decreases dims - d,
        {
            let mut low: u32 = MAX_FINITE;
            let mut high: u32 = MIN_FINITE;
            let mut i: usize = 0;
            while i < vectors.len()
                invariant
                    d < dims,
                    dims == vectors@[0]@.len(),
                    forall|j: int|
                        0 <= j < vectors@.len() ==> (#[trigger] vectors@[j])@.len()
                            == vectors@[0]@.len(),
                    i <= vectors@.len(),
                    low == least_value(vectors@, d as int, i as nat),
                    high == greatest_value(vectors@, d as int, i as nat),
                decreases vectors@.len() - i,
            {
                let x: u32 = vectors[i][d];
                if float_order::less(x, low) {
                    low = x;
                }
                if float_order::less(high, x) {
                    high = x;
                }
                i += 1;
            }
            min_vals.push(low);
            max_vals.push(high);
            d += 1;
        }
        ScalarQuantizer { min_vals, max_vals }
    }
}

/// A candidate and its distance between codes.
#[derive(Clone, Copy, Debug, PartialEq, Eq, Structural)]
pub struct Drafted {
    /// Which vector.
    pub id: u32,
    /// Its distance from the query, between codes.
    pub dist: u64,
}

/// Nearer first, of equally near ones the lower number first.
pub open spec fn draft_order() -> spec_fn(Drafted, Drafted) -> bool {
    |a: Drafted, b: Drafted| a.dist < b.dist || (a.dist == b.dist && a.id <= b.id)
}

/// All vectors with their distances between codes.
pub open spec fn code_row(codes: Seq<Vec<u8>>, query: Seq<u8>) -> Seq<Drafted> {
    Seq::new(
        codes.len(),
        |i: int|
            Drafted {
                id: i as u32,
                dist: code_distance(
                    query,
                    codes[i]@,
                    shorter(query.len(), codes[i]@.len()),
                ) as u64,
            },
    )
}

/// All vectors, nearest first between codes.
pub open spec fn all_drafted(codes: Seq<Vec<u8>>, query: Seq<u8>) -> Seq<Drafted> {
    code_row(codes, query).sort_by(draft_order())
}

/// The first `k` of a list, or all where there are fewer.
pub open spec fn first_drafted(s: Seq<Drafted>, k: nat) -> Seq<Drafted> {
    if k < s.len() {
        s.take(k as int)
    } else {
        s
    }
}

/// A list with its distances in single precision.
pub open spec fn in_single(s: Seq<Drafted>) -> Seq<Scored> {
    Seq::new(s.len(), |i: int| Scored { id: s[i].id, bits: single::single_bits(s[i].dist as nat) })
}

/// Distances in single precision keep their order.
pub proof fn single_keeps_order(codes: Seq<Vec<u8>>, query: Seq<u8>, k: nat, i: int, j: int)
    requires
        codes.len() <= u32::MAX,
        0 <= i <= j < first_drafted(all_drafted(codes, query), k).len(),
    ensures
        ({
            let found = in_single(first_drafted(all_drafted(codes, query), k));
            float_order::at_most(found[i].bits, found[j].bits)
        }),
{
    let all = all_drafted(codes, query);
    draft_order_is_total();
    code_row(codes, query).lemma_sort_by_ensures(draft_order());
    if i < j {
        assert(draft_order()(all[i], all[j]));
    }
    single::ratio_grows(all[i].dist, all[j].dist, 1);
}

/// The ids of a list.
pub open spec fn drafted_ids(s: Seq<Drafted>) -> Seq<u32> {
    Seq::new(s.len(), |i: int| s[i].id)
}

proof fn draft_order_is_total()
    ensures
        total_ordering(draft_order()),
{
    assert forall|a: Drafted, b: Drafted| #[trigger]
        draft_order()(a, b) && #[trigger] draft_order()(b, a) implies a == b by {}
}

/// A drafted list holds every vector once.
pub proof fn all_drafted_holds(codes: Seq<Vec<u8>>, query: Seq<u8>)
    requires
        codes.len() <= u32::MAX,
    ensures
        all_drafted(codes, query).len() == codes.len(),
        drafted_ids(all_drafted(codes, query)).no_duplicates(),
        forall|i: int|
            0 <= i < codes.len() ==> (#[trigger] all_drafted(codes, query)[i]).id < codes.len(),
        forall|v: u32|
            v < codes.len() ==> #[trigger] drafted_ids(all_drafted(codes, query)).contains(v),
{
    broadcast use vstd::seq_lib::group_to_multiset_ensures;

    let row = code_row(codes, query);
    let sorted = all_drafted(codes, query);
    draft_order_is_total();
    row.lemma_sort_by_ensures(draft_order());
    assert(sorted.len() == sorted.to_multiset().len());
    assert(row.len() == row.to_multiset().len());
    assert(row.no_duplicates()) by {
        assert forall|i: int, j: int|
            0 <= i < row.len() && 0 <= j < row.len() && i != j implies row[i] != row[j] by {
            assert(row[i].id == i && row[j].id == j);
        }
    }
    row.lemma_multiset_has_no_duplicates();
    assert forall|x: Drafted| sorted.to_multiset().contains(x) implies sorted.to_multiset().count(x)
        == 1 by {
        assert(row.to_multiset().contains(x));
    }
    sorted.lemma_multiset_has_no_duplicates_conv();
    assert forall|i: int| 0 <= i < codes.len() implies row.contains(#[trigger] sorted[i]) by {
        assert(sorted.contains(sorted[i]));
        assert(sorted.to_multiset().count(sorted[i]) > 0);
    }
    assert forall|i: int| 0 <= i < codes.len() implies (#[trigger] sorted[i]).id < codes.len()
        && sorted[i] == row[sorted[i].id as int] by {
        assert(row.contains(sorted[i]));
        let j = choose|j: int| 0 <= j < row.len() && row[j] == sorted[i];
        assert(row[j].id == j);
    }
    let ids = drafted_ids(sorted);
    assert forall|i: int, j: int|
        0 <= i < ids.len() && 0 <= j < ids.len() && i != j implies ids[i] != ids[j] by {
        if ids[i] == ids[j] {
            assert(sorted[i] == row[sorted[i].id as int]);
            assert(sorted[j] == row[sorted[j].id as int]);
        }
    }
    assert forall|v: u32| v < codes.len() implies #[trigger] ids.contains(v) by {
        let x = row[v as int];
        assert(row.contains(x));
        assert(row.to_multiset().count(x) > 0);
        assert(sorted.contains(x));
        let i = choose|i: int| 0 <= i < sorted.len() && sorted[i] == x;
        assert(ids[i] == v);
    }
}

/// A draft holds the `k` vectors whose codes are nearest to that of the query, nearest first
/// and of equals the lower number first, or all where there are fewer.
pub open spec fn are_nearest_codes(
    list: Seq<Drafted>,
    codes: Seq<Vec<u8>>,
    query: Seq<u8>,
    k: nat,
) -> bool {
    &&& list.len() == (if k < codes.len() {
        k
    } else {
        codes.len()
    })
    &&& forall|i: int|
        0 <= i < list.len() ==> (#[trigger] list[i]).id < codes.len() && list[i].dist
            == squared_gap(query, codes[list[i].id as int]@)
    &&& forall|i: int, j: int|
        0 <= i < j < list.len() ==> (#[trigger] list[i]).id != (#[trigger] list[j]).id && (
        list[i].dist < list[j].dist || (list[i].dist == list[j].dist && list[i].id < list[j].id))
    &&& forall|v: u32, i: int|
        v < codes.len() && 0 <= i < list.len() && !#[trigger] is_drafted(list, v) ==> {
            let d = squared_gap(query, codes[v as int]@);
            (#[trigger] list[i]).dist < d || (list[i].dist == d && list[i].id < v)
        }
}

/// Whether a draft holds a vector.
pub open spec fn is_drafted(list: Seq<Drafted>, v: u32) -> bool {
    exists|i: int| 0 <= i < list.len() && (#[trigger] list[i]).id == v
}

/// The sum of the squared differences of two codes of one length.
pub open spec fn squared_gap(a: Seq<u8>, b: Seq<u8>) -> int {
    sums::total(|i: int| (a[i] - b[i]) * (a[i] - b[i]), a.len())
}

/// The draft is nearest: whatever is left out is no nearer between codes.
pub proof fn draft_is_nearest(codes: Seq<Vec<u8>>, query: Seq<u8>, k: nat)
    requires
        codes.len() <= u32::MAX,
        65025 * query.len() <= u64::MAX,
        forall|i: int| 0 <= i < codes.len() ==> (#[trigger] codes[i])@.len() == query.len(),
    ensures
        are_nearest_codes(first_drafted(all_drafted(codes, query), k), codes, query, k),
{
    broadcast use vstd::seq_lib::group_to_multiset_ensures;

    let row = code_row(codes, query);
    let sorted = all_drafted(codes, query);
    let list = first_drafted(sorted, k);
    draft_order_is_total();
    row.lemma_sort_by_ensures(draft_order());
    all_drafted_holds(codes, query);
    assert forall|i: int| 0 <= i < codes.len() implies (#[trigger] row[i]).dist == squared_gap(
        query,
        codes[i]@,
    ) && row[i].id == i by {
        code_distance_sums_squares(query, codes[i]@, query.len());
        code_distance_laws(query, codes[i]@, query.len());
    }
    assert forall|i: int| 0 <= i < sorted.len() implies (#[trigger] sorted[i]).id < codes.len()
        && sorted[i] == row[sorted[i].id as int] by {
        assert(sorted.contains(sorted[i]));
        assert(sorted.to_multiset().count(sorted[i]) > 0);
        assert(row.contains(sorted[i]));
        let j = choose|j: int| 0 <= j < row.len() && row[j] == sorted[i];
        assert(row[j].id == j);
    }
    assert forall|i: int, j: int| 0 <= i < j < sorted.len() implies (#[trigger] sorted[i]).id != (
    #[trigger] sorted[j]).id && (sorted[i].dist < sorted[j].dist || (sorted[i].dist
        == sorted[j].dist && sorted[i].id < sorted[j].id)) by {
        assert(drafted_ids(sorted)[i] != drafted_ids(sorted)[j]);
        assert(draft_order()(sorted[i], sorted[j]));
    }
    assert forall|i: int| 0 <= i < list.len() implies (#[trigger] list[i]).id < codes.len()
        && list[i].dist == squared_gap(query, codes[list[i].id as int]@) by {
        assert(list[i] == sorted[i]);
    }
    assert forall|i: int, j: int| 0 <= i < j < list.len() implies (#[trigger] list[i]).id != (
    #[trigger] list[j]).id && (list[i].dist < list[j].dist || (list[i].dist == list[j].dist
        && list[i].id < list[j].id)) by {
        assert(list[i] == sorted[i] && list[j] == sorted[j]);
    }
    assert forall|v: u32, i: int|
        v < codes.len() && 0 <= i < list.len() && !#[trigger] is_drafted(list, v) implies {
        let d = squared_gap(query, codes[v as int]@);
        (#[trigger] list[i]).dist < d || (list[i].dist == d && list[i].id < v)
    } by {
        assert(drafted_ids(sorted).contains(v));
        let at = choose|at: int| 0 <= at < sorted.len() && drafted_ids(sorted)[at] == v;
        assert(sorted[at].id == v);
        if at < list.len() {
            assert(list[at].id == v);
        }
        assert(list[i] == sorted[i]);
        assert(sorted[at] == row[v as int]);
    }
}

/// A larger draft begins with the smaller one.
pub proof fn larger_draft_extends(codes: Seq<Vec<u8>>, query: Seq<u8>, k: nat, more: nat)
    requires
        k <= more,
    ensures
        ({
            let small = first_drafted(all_drafted(codes, query), k);
            let large = first_drafted(all_drafted(codes, query), more);
            small.len() <= large.len() && large.take(small.len() as int) == small
        }),
{
    let small = first_drafted(all_drafted(codes, query), k);
    let large = first_drafted(all_drafted(codes, query), more);
    assert(large.take(small.len() as int) =~= small);
}

/// Vectors quantised to bytes.
pub struct QuantizedDraft {
    quantized: Vec<Vec<u8>>,
    dims: usize,
}

impl QuantizedDraft {
    /// The codes of the vectors.
    pub closed spec fn codes(&self) -> Seq<Vec<u8>> {
        self.quantized@
    }

    /// Dimensions of a vector.
    pub closed spec fn dims(&self) -> nat {
        self.dims as nat
    }

    /// Codes of one length, short enough that distances fit.
    pub open spec fn wf(&self) -> bool {
        &&& self.codes().len() <= u32::MAX
        &&& 65025 * self.dims() <= u64::MAX
        &&& forall|i: int|
            0 <= i < self.codes().len() ==> (#[trigger] self.codes()[i])@.len() == self.dims()
    }

    /// An index of these codes.
    pub fn build(quantized: Vec<Vec<u8>>, dims: usize) -> (draft: Self)
        requires
            quantized@.len() <= u32::MAX,
            65025 * dims <= u64::MAX,
            forall|i: int| 0 <= i < quantized@.len() ==> (#[trigger] quantized@[i])@.len() == dims,
        ensures
            draft.wf(),
            draft.codes() == quantized@,
            draft.dims() == dims,
    {
        QuantizedDraft { quantized, dims }
    }

    /// Name of the method.
    pub fn name(&self) -> (name: &str)
        ensures
            name@ == "QuantizedDraft"@,
    {
        "QuantizedDraft"
    }

    /// The `k` vectors nearest to a query between codes, nearest first, each with the bits of
    /// its distance.
    pub fn search(&self, query: &[u8], k: usize) -> (found: Vec<Scored>)
        requires
            self.wf(),
            query@.len() == self.dims(),
        ensures
            found@ == in_single(first_drafted(all_drafted(self.codes(), query@), k as nat)),
    {
        let nearest = self.draft(query, k);
        let mut found: Vec<Scored> = Vec::new();
        let mut i: usize = 0;
        while i < nearest.len()
            invariant
                i <= nearest@.len(),
                found@.len() == i,
                forall|j: int| 0 <= j < i ==> #[trigger] found@[j] == in_single(nearest@)[j],
            decreases nearest@.len() - i,
        {
            let dist = single::to_single(nearest[i].dist);
            found.push(Scored { id: nearest[i].id, bits: dist });
            i += 1;
        }
        assert(found@ =~= in_single(nearest@));
        found
    }

    /// The `k` vectors nearest to a query between codes, nearest first.
    pub fn draft(&self, query: &[u8], k: usize) -> (found: Vec<Drafted>)
        requires
            self.wf(),
            query@.len() == self.dims(),
        ensures
            found@ == first_drafted(all_drafted(self.codes(), query@), k as nat),
    {
        let ghost row = code_row(self.codes(), query@);
        let mut sorted: Vec<Drafted> = Vec::new();
        let mut i: usize = 0;
        proof {
            assert(row.take(0) =~= sorted@);
        }
        while i < self.quantized.len()
            invariant
                self.wf(),
                query@.len() == self.dims(),
                row == code_row(self.quantized@, query@),
                i <= self.quantized@.len(),
                sorted_by(sorted@, draft_order()),
                sorted@.to_multiset() == row.take(i as int).to_multiset(),
            decreases self.quantized@.len() - i,
        {
            assert(self.codes()[i as int]@.len() == self.dims());
            let dist: u64 = sq_l2_u8(query, self.quantized[i].as_slice());
            proof {
                broadcast use vstd::seq_lib::group_to_multiset_ensures;

                assert(row.take(i + 1) =~= row.take(i as int).push(row[i as int]));
            }
            insert_drafted(&mut sorted, Drafted { id: i as u32, dist });
            i += 1;
        }
        proof {
            assert(row.take(i as int) =~= row);
            draft_order_is_total();
            row.lemma_sort_by_ensures(draft_order());
            vstd::seq_lib::lemma_sorted_unique(
                sorted@,
                all_drafted(self.codes(), query@),
                draft_order(),
            );
        }
        let ghost whole = sorted@;
        if k < sorted.len() {
            sorted.truncate(k);
            assert(sorted@ =~= whole.take(k as int));
        }
        sorted
    }

    /// The ids of the `k_prime` vectors nearest to a query between codes, nearest first.
    pub fn draft_ids(&self, query: &[u8], k_prime: usize) -> (ids: Vec<u32>)
        requires
            self.wf(),
            query@.len() == self.dims(),
        ensures
            ids@ == drafted_ids(first_drafted(all_drafted(self.codes(), query@), k_prime as nat)),
    {
        let found = self.draft(query, k_prime);
        let mut ids: Vec<u32> = Vec::new();
        let mut i: usize = 0;
        while i < found.len()
            invariant
                i <= found@.len(),
                ids@.len() == i,
                forall|j: int| 0 <= j < i ==> #[trigger] ids@[j] == found@[j].id,
            decreases found@.len() - i,
        {
            ids.push(found[i].id);
            i += 1;
        }
        assert(ids@ =~= drafted_ids(found@));
        ids
    }

    /// Number of vectors and their dimensions.
    pub fn shape(&self) -> (r: (usize, usize))
        ensures
            r.0 == self.codes().len(),
            r.1 == self.dims(),
    {
        (self.quantized.len(), self.dims)
    }

    /// Bytes taken by the codes and two numbers per dimension.
    pub fn memory_bytes(&self) -> (bytes: usize)
        requires
            self.codes().len() * self.dims() + self.dims() * 2 * 4 <= usize::MAX,
        ensures
            bytes == self.codes().len() * self.dims() + self.dims() * 2 * 4,
    {
        let n: usize = self.quantized.len();
        assert(0 <= n * self.dims) by (nonlinear_arith);
        n * self.dims + self.dims * 2 * 4
    }
}

fn insert_drafted(list: &mut Vec<Drafted>, x: Drafted)
    requires
        sorted_by(old(list)@, draft_order()),
    ensures
        sorted_by(final(list)@, draft_order()),
        final(list)@.to_multiset() == old(list)@.to_multiset().insert(x),
{
    let ghost before = list@;
    let ghost leq = draft_order();
    let mut low: usize = 0;
    let mut high: usize = list.len();
    while low < high
        invariant
            low <= high <= list@.len(),
            list@ == before,
            leq == draft_order(),
            sorted_by(before, leq),
            forall|i: int| 0 <= i < low ==> leq(#[trigger] before[i], x),
            forall|i: int| high <= i < before.len() ==> !leq(#[trigger] before[i], x),
        decreases high - low,
    {
        let mid: usize = low + (high - low) / 2;
        let y = list[mid];
        if y.dist < x.dist || (y.dist == x.dist && y.id <= x.id) {
            assert forall|i: int| 0 <= i <= mid implies leq(#[trigger] before[i], x) by {
                if i < mid {
                    assert(leq(before[i], before[mid as int]));
                }
            }
            low = mid + 1;
        } else {
            assert forall|i: int| mid <= i < before.len() implies !leq(#[trigger] before[i], x) by {
                if i > mid {
                    assert(leq(before[mid as int], before[i]));
                }
            }
            high = mid;
        }
    }
    list.insert(low, x);
    proof {
        broadcast use vstd::seq_lib::group_to_multiset_ensures;

        let after = list@;
        assert(after =~= before.insert(low as int, x));
        assert forall|i: int, j: int| 0 <= i < j < after.len() implies #[trigger] leq(
            after[i],
            after[j],
        ) by {
            let bi = if i < low { i } else { i - 1 };
            let bj = if j < low { j } else { j - 1 };
            if i != low && j != low {
                assert(leq(before[bi], before[bj]));
            } else if i == low {
                assert(!leq(before[bj], x));
            } else {
                assert(leq(before[bi], x));
            }
        }
        assert(after.to_multiset() =~= before.to_multiset().insert(x));
    }
}

} // verus!
