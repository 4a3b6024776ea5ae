//! Lists of scored items and their one sorted order.
use crate::float_order;
use vstd::prelude::*;
use vstd::relations::sorted_by;
use vstd::relations::total_ordering;

verus! {

/// An item and the number it is ranked by.
#[derive(Clone, Copy, Debug, PartialEq, Eq, Structural)]
pub struct Scored {
    /// Which item.
    pub id: u32,
    /// Its distance or score, as the bits of a single-precision number.
    pub bits: u32,
}

impl Scored {
    /// `self` stands before `other` or is the same: smaller number first, then smaller id.
    pub open spec fn leads(self, other: Scored) -> bool {
        let a = float_order::total_rank(self.bits);
        let b = float_order::total_rank(other.bits);
        a < b || (a == b && self.id <= other.id)
    }

    /// Whether `self` stands before `other` or is the same.
    pub fn precedes(&self, other: &Scored) -> (r: bool)
        ensures
            r == self.leads(*other),
    {
        let a: i32 = float_order::total_key(self.bits);
        let b: i32 = float_order::total_key(other.bits);
        a < b || (a == b && self.id <= other.id)
    }
}

/// The order of a ranked list.
pub open spec fn rank_order() -> spec_fn(Scored, Scored) -> bool {
    |a: Scored, b: Scored| a.leads(b)
}

/// Whether a list is in rank order.
pub open spec fn in_order(s: Seq<Scored>) -> bool {
    forall|i: int, j: int| 0 <= i < j < s.len() ==> (#[trigger] s[i]).leads(#[trigger] s[j])
}

/// The same items in rank order.
pub open spec fn ranked(s: Seq<Scored>) -> Seq<Scored> {
    s.sort_by(rank_order())
}

/// The ids of a list.
pub open spec fn ids_of(s: Seq<Scored>) -> Seq<u32> {
    Seq::new(s.len(), |i: int| s[i].id)
}

/// No two entries share an id.
pub open spec fn distinct_ids(s: Seq<Scored>) -> bool {
    forall|i: int, j: int| 0 <= i < j < s.len() ==> (#[trigger] s[i]).id != (#[trigger] s[j]).id
}

/// The first `k` entries, or all where there are fewer.
pub open spec fn first_k(s: Seq<Scored>, k: nat) -> Seq<Scored> {
    if k < s.len() {
        s.take(k as int)
    } else {
        s
    }
}

pub proof fn rank_order_is_total()
    ensures
        total_ordering(rank_order()),
{
    assert forall|a: Scored, b: Scored| #[trigger]
        rank_order()(a, b) && #[trigger] rank_order()(b, a) implies a == b by {
        float_order::below_is_lower_rank(a.bits, b.bits);
    }
}

/// A list in rank order with the items of `s` is `ranked(s)`.
pub proof fn ranked_is_unique(s: Seq<Scored>, t: Seq<Scored>)
    requires
        in_order(t),
        t.to_multiset() == s.to_multiset(),
    ensures
        t == ranked(s),
{
    rank_order_is_total();
    s.lemma_sort_by_ensures(rank_order());
    assert(sorted_by(t, rank_order()));
    vstd::seq_lib::lemma_sorted_unique(t, ranked(s), rank_order());
}

/// Ranking keeps the items, orders them, and changes nothing else.
pub proof fn ranked_properties(s: Seq<Scored>)
    ensures
        in_order(ranked(s)),
        ranked(s).to_multiset() == s.to_multiset(),
        ranked(s).len() == s.len(),
        forall|x: Scored| #[trigger] ranked(s).contains(x) == s.contains(x),
        distinct_ids(s) ==> distinct_ids(ranked(s)),
{
    broadcast use vstd::seq_lib::group_to_multiset_ensures;

    rank_order_is_total();
    s.lemma_sort_by_ensures(rank_order());
    let r = ranked(s);
    assert(sorted_by(r, rank_order()));
    assert forall|i: int, j: int| 0 <= i < j < r.len() implies (#[trigger] r[i]).leads(
        #[trigger] r[j],
    ) by {
        assert(rank_order()(r[i], r[j]));
    }
    assert(r.len() == r.to_multiset().len());
    assert(s.len() == s.to_multiset().len());
    assert forall|x: Scored| #[trigger] r.contains(x) == s.contains(x) by {
        assert(r.contains(x) == (r.to_multiset().count(x) > 0));
        assert(s.contains(x) == (s.to_multiset().count(x) > 0));
    }
    if distinct_ids(s) {
        distinct_ids_carry_over(s, r);
    }
}

/// A rearrangement of a list with distinct ids has distinct ids.
pub proof fn distinct_ids_carry_over(s: Seq<Scored>, t: Seq<Scored>)
    requires
        distinct_ids(s),
        s.to_multiset() == t.to_multiset(),
    ensures
        distinct_ids(t),
{
    broadcast use vstd::seq_lib::group_to_multiset_ensures;

    assert(s.no_duplicates());
    s.lemma_multiset_has_no_duplicates();
    assert(t.no_duplicates()) by {
        assert forall|x: Scored| t.to_multiset().contains(x) implies t.to_multiset().count(x)
            == 1 by {
            assert(s.to_multiset().contains(x));
        }
        t.lemma_multiset_has_no_duplicates_conv();
    }
    assert forall|i: int, j: int| 0 <= i < j < t.len() implies (#[trigger] t[i]).id != (
    #[trigger] t[j]).id by {
        assert(t.contains(t[i]) && t.contains(t[j]));
        assert(t.to_multiset().count(t[i]) > 0 && t.to_multiset().count(t[j]) > 0);
        assert(s.contains(t[i]) && s.contains(t[j]));
        let a = choose|a: int| 0 <= a < s.len() && s[a] == t[i];
        let b = choose|b: int| 0 <= b < s.len() && s[b] == t[j];
        assert(t[i] != t[j]);
        assert(a != b);
    }
}

/// A list in rank order is its own ranking.
pub proof fn ranked_of_ordered(s: Seq<Scored>)
    requires
        in_order(s),
    ensures
        ranked(s) == s,
{
    ranked_is_unique(s, s);
}

/// Puts `x` in its place in a list in rank order.
pub fn insert_ranked(list: &mut Vec<Scored>, x: Scored)
    requires
        in_order(old(list)@),
    ensures
        final(list)@ == ranked(old(list)@.push(x)),
        in_order(final(list)@),
        final(list)@.len() == old(list)@.len() + 1,
{
    let ghost before = list@;
    let mut low: usize = 0;
    let mut high: usize = list.len();
    while low < high
        invariant
            low <= high <= list@.len(),
            list@ == before,
            in_order(before),
            forall|i: int| 0 <= i < low ==> (#[trigger] before[i]).leads(x),
            forall|i: int| high <= i < before.len() ==> !(#[trigger] before[i]).leads(x),
        decreases high - low,
    {
        let mid: usize = low + (high - low) / 2;
        if list[mid].precedes(&x) {
            low = mid + 1;
        } else {
            high = mid;
        }
    }
    list.insert(low, x);
    proof {
        broadcast use vstd::seq_lib::group_to_multiset_ensures;

        let after = list@;
        assert(after =~= before.insert(low as int, x));
        assert forall|i: int, j: int| 0 <= i < j < after.len() implies (#[trigger] after[i]).leads(
            #[trigger] after[j],
        ) by {
            let bi = if i < low { i } else { i - 1 };
            let bj = if j < low { j } else { j - 1 };
            if i != low && j != low {
                assert(before[bi].leads(before[bj]));
            } else if i == low {
                assert(!before[bj].leads(x));
            } else {
                assert(before[bi].leads(x));
            }
        }
        assert(after.to_multiset() =~= before.to_multiset().insert(x));
        assert(before.push(x).to_multiset() =~= before.to_multiset().insert(x));
        ranked_is_unique(before.push(x), after);
    }
}

fn merge_ranked(a: &Vec<Scored>, b: &Vec<Scored>) -> (out: Vec<Scored>)
    requires
        in_order(a@),
        in_order(b@),
    ensures
        in_order(out@),
        out@.to_multiset() == (a@ + b@).to_multiset(),
{
    let mut out: Vec<Scored> = Vec::new();
    let mut i: usize = 0;
    let mut j: usize = 0;
    proof {
        assert(a@.take(0) + b@.take(0) =~= out@);
    }
    while i < a.len() || j < b.len()
        invariant
            in_order(a@),
            in_order(b@),
            i <= a@.len(),
            j <= b@.len(),
            in_order(out@),
            out@.to_multiset() == (a@.take(i as int) + b@.take(j as int)).to_multiset(),
            forall|p: int, q: int|
                0 <= p < out@.len() && i <= q < a@.len() ==> (#[trigger] out@[p]).leads(
                    #[trigger] a@[q],
                ),
            forall|p: int, q: int|
                0 <= p < out@.len() && j <= q < b@.len() ==> (#[trigger] out@[p]).leads(
                    #[trigger] b@[q],
                ),
        decreases a@.len() - i + b@.len() - j,
    {
        let from_a = if i >= a.len() {
            false
        } else if j >= b.len() {
            true
        } else {
            a[i].precedes(&b[j])
        };
        proof {
            broadcast use vstd::seq_lib::group_to_multiset_ensures;

            vstd::seq_lib::lemma_multiset_commutative(a@.take(i as int), b@.take(j as int));
            if from_a {
                vstd::seq_lib::lemma_multiset_commutative(a@.take(i + 1), b@.take(j as int));
                assert(a@.take(i + 1) =~= a@.take(i as int).push(a@[i as int]));
            } else {
                vstd::seq_lib::lemma_multiset_commutative(a@.take(i as int), b@.take(j + 1));
                assert(b@.take(j + 1) =~= b@.take(j as int).push(b@[j as int]));
            }
        }
        let x = if from_a {
            a[i]
        } else {
            b[j]
        };
        let ghost was = out@;
        out.push(x);
        if from_a {
            i += 1;
        } else {
            j += 1;
        }
        proof {
            broadcast use vstd::seq_lib::group_to_multiset_ensures;

            assert(out@.to_multiset() =~= was.to_multiset().insert(x));
            assert(out@.to_multiset() =~= (a@.take(i as int) + b@.take(j as int)).to_multiset());
        }
    }
    proof {
        assert(a@.take(i as int) =~= a@);
        assert(b@.take(j as int) =~= b@);
    }
    out
}

fn rank_range(items: &[Scored], low: usize, high: usize) -> (out: Vec<Scored>)
    requires
        low <= high <= items@.len(),
    ensures
        in_order(out@),
        out@.to_multiset() == items@.subrange(low as int, high as int).to_multiset(),
    decreases high - low,
{
    if high - low <= 1 {
        let mut out: Vec<Scored> = Vec::new();
        if low < high {
            out.push(items[low]);
        }
        assert(out@ =~= items@.subrange(low as int, high as int));
        out
    } else {
        let mid: usize = low + (high - low) / 2;
        let left = rank_range(items, low, mid);
        let right = rank_range(items, mid, high);
        proof {
            let l = items@.subrange(low as int, mid as int);
            let r = items@.subrange(mid as int, high as int);
            assert(items@.subrange(low as int, high as int) =~= l + r);
            vstd::seq_lib::lemma_multiset_commutative(l, r);
            vstd::seq_lib::lemma_multiset_commutative(left@, right@);
        }
        merge_ranked(&left, &right)
    }
}

/// The items in rank order.
pub fn rank(items: &[Scored]) -> (out: Vec<Scored>)
    ensures
        out@ == ranked(items@),
{
    let out = rank_range(items, 0, items.len());
    proof {
        assert(items@.subrange(0, items@.len() as int) =~= items@);
        ranked_is_unique(items@, out@);
    }
    out
}

/// The first `k` items in rank order, or all where there are fewer.
pub fn rank_first(items: &[Scored], k: usize) -> (out: Vec<Scored>)
    ensures
        out@ == first_k(ranked(items@), k as nat),
{
    let mut out = rank(items);
    if k < out.len() {
        out.truncate(k);
        assert(out@ =~= ranked(items@).take(k as int));
    }
    out
}

/// The ids of a list.
pub fn ids(list: &Vec<Scored>) -> (out: Vec<u32>)
    ensures
        out@ == ids_of(list@),
{
    let mut out: Vec<u32> = Vec::new();
    let mut i: usize = 0;
    while i < list.len()
        invariant
            i <= list@.len(),
            out@ == ids_of(list@.take(i as int)),
        decreases list@.len() - i,
    {
        out.push(list[i].id);
        i += 1;
        assert(out@ =~= ids_of(list@.take(i as int)));
    }
    assert(list@.take(i as int) =~= list@);
    out
}

/// The item with its number negated.
pub open spec fn flipped(x: Scored) -> Scored {
    Scored { id: x.id, bits: float_order::negated(x.bits) }
}

/// The items with their numbers negated.
pub open spec fn all_flipped(s: Seq<Scored>) -> Seq<Scored> {
    Seq::new(s.len(), |i: int| flipped(s[i]))
}

/// The same items, highest number first; of equal ones the lower id first.
pub open spec fn ranked_high(s: Seq<Scored>) -> Seq<Scored> {
    all_flipped(ranked(all_flipped(s)))
}

/// `a` stands before `b` or is the same, highest number first.
pub open spec fn leads_high(a: Scored, b: Scored) -> bool {
    let x = float_order::total_rank(a.bits);
    let y = float_order::total_rank(b.bits);
    x > y || (x == y && a.id <= b.id)
}

/// Ranking from the top keeps the items and orders them.
pub proof fn ranked_high_properties(s: Seq<Scored>)
    ensures
        ranked_high(s).len() == s.len(),
        forall|i: int, j: int|
            0 <= i < j < s.len() ==> leads_high(
                #[trigger] ranked_high(s)[i],
                #[trigger] ranked_high(s)[j],
            ),
        forall|x: Scored| #[trigger] ranked_high(s).contains(x) == s.contains(x),
        distinct_ids(s) ==> distinct_ids(ranked_high(s)),
{
    let t = all_flipped(s);
    let r = ranked(t);
    let h = ranked_high(s);
    ranked_properties(t);
    assert forall|i: int, j: int| 0 <= i < j < s.len() implies leads_high(
        #[trigger] h[i],
        #[trigger] h[j],
    ) by {
        assert(r[i].leads(r[j]));
        float_order::negated_ranks(r[i].bits);
        float_order::negated_ranks(r[j].bits);
    }
    assert forall|x: Scored| #[trigger] h.contains(x) == s.contains(x) by {
        float_order::negated_ranks(x.bits);
        let y = flipped(x);
        if s.contains(x) {
            let i = choose|i: int| 0 <= i < s.len() && s[i] == x;
            assert(t[i] == y);
            assert(r.contains(y));
            let j = choose|j: int| 0 <= j < r.len() && r[j] == y;
            assert(h[j] == x);
        }
        if h.contains(x) {
            let j = choose|j: int| 0 <= j < h.len() && h[j] == x;
            float_order::negated_ranks(r[j].bits);
            assert(r[j] == y);
            assert(r.contains(y));
            assert(t.contains(y));
            let i = choose|i: int| 0 <= i < t.len() && t[i] == y;
            float_order::negated_ranks(s[i].bits);
            assert(s[i] == x);
        }
    }
    if distinct_ids(s) {
        assert(distinct_ids(t)) by {
            assert forall|i: int, j: int| 0 <= i < j < t.len() implies (#[trigger] t[i]).id != (
            #[trigger] t[j]).id by {
                assert(s[i].id != s[j].id);
            }
        }
        assert forall|i: int, j: int| 0 <= i < j < h.len() implies (#[trigger] h[i]).id != (
        #[trigger] h[j]).id by {
            assert(r[i].id != r[j].id);
        }
    }
}

fn flip_all(items: &[Scored]) -> (out: Vec<Scored>)
    ensures
        out@ == all_flipped(items@),
{
    let mut out: Vec<Scored> = Vec::new();
    let mut i: usize = 0;
    while i < items.len()
        invariant
            i <= items@.len(),
            out@ == all_flipped(items@.take(i as int)),
        decreases items@.len() - i,
    {
        let x = items[i];
        out.push(Scored { id: x.id, bits: float_order::negate(x.bits) });
        i += 1;
        assert(out@ =~= all_flipped(items@.take(i as int)));
    }
    assert(items@.take(i as int) =~= items@);
    out
}

/// The items, highest number first.
pub fn rank_high(items: &[Scored]) -> (out: Vec<Scored>)
    ensures
        out@ == ranked_high(items@),
{
    let turned = flip_all(items);
    let sorted = rank(turned.as_slice());
    flip_all(sorted.as_slice())
}

/// The first `k` of a ranking are the best: whatever stays out comes after all of them.
pub proof fn first_k_are_best(s: Seq<Scored>, k: nat, x: Scored)
    requires
        s.contains(x),
        !first_k(ranked(s), k).contains(x),
    ensures
        forall|i: int|
            0 <= i < first_k(ranked(s), k).len() ==> (#[trigger] first_k(ranked(s), k)[i]).leads(x),
        first_k(ranked(s), k).len() == k,
{
    ranked_properties(s);
    let r = ranked(s);
    assert(r.contains(x));
    let at = choose|at: int| 0 <= at < r.len() && r[at] == x;
    assert(first_k(r, k) != r);
    if at < k {
        assert(r.take(k as int)[at] == x);
    }
    assert forall|i: int| 0 <= i < k implies (#[trigger] r.take(k as int)[i]).leads(x) by {
        assert(r[i].leads(r[at]));
    }
}

/// The first `k` of a ranking from the top are the best: they come from the list, and whatever
/// stays out comes after all of them.
pub proof fn first_k_are_highest(s: Seq<Scored>, k: nat)
    ensures
        ({
            let top = first_k(ranked_high(s), k);
            &&& top.len() == (if k < s.len() {
                k
            } else {
                s.len()
            })
            &&& forall|i: int, j: int|
                0 <= i < j < top.len() ==> leads_high(#[trigger] top[i], #[trigger] top[j])
            &&& forall|i: int| 0 <= i < top.len() ==> s.contains(#[trigger] top[i])
            &&& forall|i: int, x: Scored|
                0 <= i < top.len() && #[trigger] s.contains(x) && !top.contains(x) ==> leads_high(
                    #[trigger] top[i],
                    x,
                )
            &&& distinct_ids(s) ==> distinct_ids(top)
        }),
{
    ranked_high_properties(s);
    let all = ranked_high(s);
    let top = first_k(all, k);
    assert forall|i: int| 0 <= i < top.len() implies s.contains(#[trigger] top[i]) by {
        assert(all.contains(all[i]));
    }
    assert forall|i: int, x: Scored|
        0 <= i < top.len() && #[trigger] s.contains(x) && !top.contains(x) implies leads_high(
        #[trigger] top[i],
        x,
    ) by {
        assert(all.contains(x));
        let at = choose|at: int| 0 <= at < all.len() && all[at] == x;
        if at < top.len() {
            assert(top[at] == x);
        } else {
            assert(leads_high(all[i], all[at]));
        }
    }
    if distinct_ids(s) {
        assert forall|i: int, j: int| 0 <= i < j < top.len() implies (#[trigger] top[i]).id != (
        #[trigger] top[j]).id by {
            assert(all[i].id != all[j].id);
        }
    }
}

/// The first `k` of a ranking are the lowest: they come from the list, and whatever stays out
/// comes after all of them.
pub proof fn first_k_are_lowest(s: Seq<Scored>, k: nat)
    ensures
        ({
            let top = first_k(ranked(s), k);
            &&& top.len() == (if k < s.len() {
                k
            } else {
                s.len()
            })
            &&& in_order(top)
            &&& forall|i: int| 0 <= i < top.len() ==> s.contains(#[trigger] top[i])
            &&& forall|i: int, x: Scored|
                0 <= i < top.len() && #[trigger] s.contains(x) && !top.contains(x) ==> (
                #[trigger] top[i]).leads(x)
            &&& distinct_ids(s) ==> distinct_ids(top)
        }),
{
    ranked_properties(s);
    let all = ranked(s);
    let top = first_k(all, k);
    assert forall|i: int| 0 <= i < top.len() implies s.contains(#[trigger] top[i]) by {
        assert(all.contains(all[i]));
    }
    assert forall|i: int, x: Scored|
        0 <= i < top.len() && #[trigger] s.contains(x) && !top.contains(x) implies (
    #[trigger] top[i]).leads(x) by {
        first_k_are_best(s, k, x);
    }
    if distinct_ids(s) {
        assert forall|i: int, j: int| 0 <= i < j < top.len() implies (#[trigger] top[i]).id != (
        #[trigger] top[j]).id by {
            assert(all[i].id != all[j].id);
        }
    }
}

proof fn place_of(s: Seq<Scored>, x: Scored) -> (at: int)
    requires
        in_order(s),
    ensures
        0 <= at <= s.len(),
        forall|i: int| 0 <= i < at ==> (#[trigger] s[i]).leads(x),
        forall|i: int| at <= i < s.len() ==> x.leads(#[trigger] s[i]),
    decreases s.len(),
{
    if s.len() == 0 || s.last().leads(x) {
        assert forall|i: int| 0 <= i < s.len() implies (#[trigger] s[i]).leads(x) by {
            if i < s.len() - 1 {
                assert(s[i].leads(s[s.len() - 1]));
            }
        }
        s.len() as int
    } else {
        let front = s.drop_last();
        let at = place_of(front, x);
        assert forall|i: int| 0 <= i < at implies (#[trigger] s[i]).leads(x) by {
            assert(front[i].leads(x));
        }
        assert forall|i: int| at <= i < s.len() implies x.leads(#[trigger] s[i]) by {
            if i < front.len() {
                assert(x.leads(front[i]));
            }
        }
        at
    }
}

/// One more item goes to its place in a list in rank order, and nothing else moves.
pub proof fn ranked_push(s: Seq<Scored>, x: Scored) -> (at: int)
    requires
        in_order(s),
    ensures
        0 <= at <= s.len(),
        ranked(s.push(x)) == s.insert(at, x),
        forall|i: int| 0 <= i < at ==> (#[trigger] s[i]).leads(x),
        forall|i: int| at <= i < s.len() ==> x.leads(#[trigger] s[i]),
{
    broadcast use vstd::seq_lib::group_to_multiset_ensures;

    let at = place_of(s, x);
    let grown = s.insert(at, x);
    assert forall|i: int, j: int| 0 <= i < j < grown.len() implies (#[trigger] grown[i]).leads(
        #[trigger] grown[j],
    ) by {
        let bi = if i < at { i } else { i - 1 };
        let bj = if j < at { j } else { j - 1 };
        if i != at && j != at {
            assert(s[bi].leads(s[bj]));
        } else if i == at {
            assert(x.leads(s[bj]));
        } else {
            assert(s[bi].leads(x));
        }
    }
    assert(grown.to_multiset() =~= s.push(x).to_multiset());
    ranked_is_unique(s.push(x), grown);
    at
}

/// Fewer than `k` other items stand before one of the first `k`.
pub proof fn few_lead(s: Seq<Scored>, k: nat, x: Scored, list: Seq<Scored>)
    requires
        first_k(ranked(s), k).contains(x),
        list.no_duplicates(),
        forall|i: int|
            0 <= i < list.len() ==> s.contains(#[trigger] list[i]) && list[i].leads(x) && list[i] != x,
    ensures
        list.len() < k,
{
    ranked_properties(s);
    let r = ranked(s);
    let first = first_k(r, k);
    let at = choose|at: int| 0 <= at < first.len() && first[at] == x;
    let front = r.take(at);
    assert(r[at] == x);
    assert forall|y: Scored| list.to_set().contains(y) implies front.to_set().contains(y) by {
        let i = choose|i: int| 0 <= i < list.len() && list[i] == y;
        assert(s.contains(list[i]));
        assert(r.contains(y));
        let j = choose|j: int| 0 <= j < r.len() && r[j] == y;
        if at < j {
            assert(r[at].leads(r[j]));
            float_order::below_is_lower_rank(x.bits, y.bits);
        }
        assert(front[j] == y);
    }
    list.unique_seq_to_set();
    front.lemma_cardinality_of_set();
    vstd::set_lib::lemma_len_subset(list.to_set(), front.to_set());
}

} // verus!
