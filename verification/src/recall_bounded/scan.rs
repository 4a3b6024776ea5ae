//! Entries, hits, and the exact scan.
use crate::adaptive::metrics;
use crate::float_order;
use crate::lcg;
use crate::rag::corpus;
use crate::single;
use vstd::prelude::*;

verus! {

/// An embedding with an id of the caller's choice.
#[derive(Debug)]
pub struct Entry {
    /// The id.
    pub id: u32,
    /// The embedding, as the bits of single-precision numbers.
    pub vec: Vec<u32>,
}

/// An entry found by an exact scan.
#[derive(Debug, Clone, Copy, PartialEq, Eq, Structural)]
pub struct Hit {
    /// The entry's id.
    pub id: u32,
    /// The bits of its similarity to the query.
    pub similarity: u32,
}

/// Reproducible pseudo-random numbers.
pub struct Lcg(pub u64);

impl Lcg {
    /// The bits of the next number from nought up to, but not including, one: the top 23 bits
    /// of the new state are its fraction.
    pub fn next_f32(&mut self) -> (bits: u32)
        ensures
            final(self).0 == lcg::next_state(old(self).0),
            bits == single::quotient_bits(
                (lcg::next_state(old(self).0) / 0x200_0000_0000) as nat,
                0x80_0000,
            ),
            bits < float_order::ONE,
    {
        let state: u64 = lcg::step(self.0);
        self.0 = state;
        let top: u64 = state / 0x200_0000_0000;
        proof {
            assert(state / 0x200_0000_0000 < 0x80_0000) by (nonlinear_arith)
                requires
                    state <= 0xffff_ffff_ffff_ffff,
            ;
            single::fraction_is_below_one(top as nat);
        }
        single::quotient(top as u128, 0x80_0000)
    }
}

/// The first `n` entries that are similar enough, in order.
pub open spec fn passing(entries: Seq<Entry>, sims: Seq<u32>, threshold: u32, n: nat) -> Seq<Hit>
    decreases n,
{
    if n == 0 {
        Seq::empty()
    } else {
        let before = passing(entries, sims, threshold, (n - 1) as nat);
        if float_order::at_most(threshold, sims[n - 1]) {
            before.push(Hit { id: entries[n - 1].id, similarity: sims[n - 1] })
        } else {
            before
        }
    }
}

/// Bytes of the first `n` entries.
pub open spec fn entry_bytes(entries: Seq<Entry>, n: nat) -> nat
    decreases n,
{
    if n == 0 {
        0
    } else {
        entry_bytes(entries, (n - 1) as nat) + 4 + 4 * entries[n - 1].vec@.len()
    }
}

/// Entries all have embeddings of one length.
pub open spec fn uniform(entries: Seq<Entry>) -> bool {
    forall|i: int|
        0 <= i < entries.len() ==> (#[trigger] entries[i]).vec@.len() == entries[0].vec@.len()
}

/// Sum of the bytes of some entries.
pub(crate) fn count_entry_bytes(entries: &Vec<Entry>) -> (bytes: usize)
    requires
        entry_bytes(entries@, entries@.len()) <= usize::MAX,
    ensures
        bytes == entry_bytes(entries@, entries@.len()),
{
    let mut bytes: usize = 0;
    let mut i: usize = 0;
    while i < entries.len()
        invariant
            i <= entries@.len(),
            bytes == entry_bytes(entries@, i as nat),
            entry_bytes(entries@, entries@.len()) <= usize::MAX,
        decreases entries@.len() - i,
    {
        proof {
            entry_bytes_grow(entries@, (i + 1) as nat, entries@.len());
        }
        bytes = bytes + 4 + entries[i].vec.len() * 4;
        i += 1;
    }
    bytes
}

proof fn entry_bytes_grow(entries: Seq<Entry>, a: nat, b: nat)
    requires
        a <= b,
    ensures
        entry_bytes(entries, a) <= entry_bytes(entries, b),
    decreases b,
{
    if a < b {
        entry_bytes_grow(entries, a, (b - 1) as nat);
    }
}

/// Exact scan of all entries.
pub struct LinearScan {
    entries: Vec<Entry>,
}

impl Default for LinearScan {
    fn default() -> (scan: Self)
        ensures
            scan@.len() == 0,
            scan.wf(),
    {
        Self::new()
    }
}

impl View for LinearScan {
    type V = Seq<Entry>;

    closed spec fn view(&self) -> Seq<Entry> {
        self.entries@
    }
}

impl LinearScan {
    /// All embeddings have one length.
    pub open spec fn wf(&self) -> bool {
        uniform(self@)
    }

    /// No entries.
    pub fn new() -> (scan: Self)
        ensures
            scan@.len() == 0,
            scan.wf(),
    {
        LinearScan { entries: Vec::new() }
    }

    /// Adds an entry.
    pub fn insert(&mut self, entry: Entry)
        requires
            old(self).wf(),
            old(self)@.len() > 0 ==> entry.vec@.len() == old(self)@[0].vec@.len(),
        ensures
            final(self).wf(),
            final(self)@ == old(self)@.push(entry),
    {
        self.entries.push(entry);
        assert(self@ =~= old(self)@.push(entry));
    }

    /// All entries with at least the given similarity, in order of insertion. `sims` are the
    /// similarities of query and entries.
    pub fn search(&self, query: &[u32], sims: &Vec<u32>, threshold: u32) -> (hits: Vec<Hit>)
        requires
            corpus::is_cosine(threshold),
            self@.len() > 0 ==> query@.len() == self@[0].vec@.len(),
            sims@.len() == self@.len(),
        ensures
            hits@ == passing(self@, sims@, threshold, self@.len()),
    {
        let mut hits: Vec<Hit> = Vec::new();
        let mut i: usize = 0;
        while i < self.entries.len()
            invariant
                i <= self.entries@.len(),
                sims@.len() == self.entries@.len(),
                hits@ == passing(self.entries@, sims@, threshold, i as nat),
            decreases self.entries@.len() - i,
        {
            if float_order::less_or_equal(threshold, sims[i]) {
                hits.push(Hit { id: self.entries[i].id, similarity: sims[i] });
            }
            i += 1;
        }
        hits
    }

    /// Bytes taken by the entries.
    pub fn memory_bytes(&self) -> (bytes: usize)
        requires
            entry_bytes(self@, self@.len()) <= usize::MAX,
        ensures
            bytes == entry_bytes(self@, self@.len()),
    {
        count_entry_bytes(&self.entries)
    }
}

/// An exact scan finds an entry if and only if it is similar enough.
pub proof fn scan_is_exact(entries: Seq<Entry>, sims: Seq<u32>, threshold: u32, n: nat)
    requires
        n <= entries.len(),
        n <= sims.len(),
    ensures
        forall|i: int|
            0 <= i < n && float_order::at_most(threshold, #[trigger] sims[i]) ==> passing(
                entries,
                sims,
                threshold,
                n,
            ).contains(Hit { id: entries[i].id, similarity: sims[i] }),
        forall|h: Hit| #[trigger]
            passing(entries, sims, threshold, n).contains(h) ==> float_order::at_most(
                threshold,
                h.similarity,
            ) && exists|i: int|
                0 <= i < n && (#[trigger] entries[i]).id == h.id && sims[i] == h.similarity,
    decreases n,
{
    if n > 0 {
        scan_is_exact(entries, sims, threshold, (n - 1) as nat);
        let before = passing(entries, sims, threshold, (n - 1) as nat);
        let after = passing(entries, sims, threshold, n);
        assert forall|i: int|
            0 <= i < n && float_order::at_most(threshold, #[trigger] sims[i]) implies after.contains(
            Hit { id: entries[i].id, similarity: sims[i] },
        ) by {
            let h = Hit { id: entries[i].id, similarity: sims[i] };
            if i < n - 1 {
                assert(before.contains(h));
                let j = choose|j: int| 0 <= j < before.len() && before[j] == h;
                assert(after[j] == h);
            } else {
                assert(after[after.len() - 1] == h);
            }
        }
        assert forall|h: Hit| #[trigger] after.contains(h) implies float_order::at_most(
            threshold,
            h.similarity,
        ) && exists|i: int|
            0 <= i < n && (#[trigger] entries[i]).id == h.id && sims[i] == h.similarity by {
            let j = choose|j: int| 0 <= j < after.len() && after[j] == h;
            if j < before.len() {
                assert(before.contains(before[j]));
                let i = choose|i: int|
                    0 <= i < n - 1 && (#[trigger] entries[i]).id == h.id && sims[i] == h.similarity;
                assert(entries[i].id == h.id);
            } else {
                assert(entries[n - 1].id == h.id);
            }
        }
    }
}

/// A scan shows each entry that is similar enough once, in the order of the entries: the hits
/// are those at increasing places, and all such places are among them.
pub proof fn scan_keeps_order(entries: Seq<Entry>, sims: Seq<u32>, threshold: u32, n: nat) -> (places:
    Seq<int>)
    requires
        n <= entries.len(),
        n <= sims.len(),
    ensures
        places.len() == passing(entries, sims, threshold, n).len(),
        forall|i: int, j: int| 0 <= i < j < places.len() ==> places[i] < places[j],
        forall|i: int|
            0 <= i < places.len() ==> {
                let h = passing(entries, sims, threshold, n)[i];
                &&& 0 <= #[trigger] places[i] < n
                &&& float_order::at_most(threshold, sims[places[i]])
                &&& h.id == entries[places[i]].id
                &&& h.similarity == sims[places[i]]
            },
        forall|i: int|
            0 <= i < n && float_order::at_most(threshold, #[trigger] sims[i]) ==> places.contains(i),
    decreases n,
{
    if n == 0 {
        Seq::empty()
    } else {
        let before = scan_keeps_order(entries, sims, threshold, (n - 1) as nat);
        if float_order::at_most(threshold, sims[n - 1]) {
            let places = before.push(n - 1);
            assert forall|i: int|
                0 <= i < n && float_order::at_most(threshold, #[trigger] sims[i]) implies places.contains(
                i,
            ) by {
                if i < n - 1 {
                    let a = choose|a: int| 0 <= a < before.len() && before[a] == i;
                    assert(places[a] == i);
                } else {
                    assert(places[places.len() - 1] == i);
                }
            }
            places
        } else {
            before
        }
    }
}

/// The set of ids of a list.
pub open spec fn id_set(ids: Seq<u32>) -> Set<u32> {
    ids.to_set()
}

/// The ids of some hits.
pub open spec fn ids_of(hits: Seq<Hit>) -> Seq<u32> {
    Seq::new(hits.len(), |i: int| hits[i].id)
}

fn ids(hits: &[Hit]) -> (out: Vec<u32>)
    ensures
        out@ == ids_of(hits@),
{
    let mut out: Vec<u32> = Vec::new();
    let mut i: usize = 0;
    while i < hits.len()
        invariant
            i <= hits@.len(),
            out@.len() == i,
            forall|j: int| 0 <= j < i ==> #[trigger] out@[j] == hits@[j].id,
        decreases hits@.len() - i,
    {
        out.push(hits[i].id);
        i += 1;
    }
    assert(out@ =~= ids_of(hits@));
    out
}

/// The bits of the share of the true hits, by distinct ids, that were found; complete where
/// there are none.
pub fn recall(found: &[Hit], ground_truth: &[Hit]) -> (share: u32)
    ensures
        share == metrics::recall_of(
            id_set(ids_of(ground_truth@)).intersect(id_set(ids_of(found@))).len(),
            id_set(ids_of(ground_truth@)).len(),
        ),
{
    recall_of_ids(&ids(found), &ids(ground_truth))
}

/// The bits of the share of the distinct true ids that were found; complete where there are
/// none.
pub fn recall_of_ids(found: &Vec<u32>, ground_truth: &Vec<u32>) -> (share: u32)
    ensures
        share == metrics::recall_of(
            id_set(ground_truth@).intersect(id_set(found@)).len(),
            id_set(ground_truth@).len(),
        ),
{
    let mut hits: usize = 0;
    let mut total: usize = 0;
    let mut i: usize = 0;
    let ghost mut seen: Set<u32> = Set::empty();
    let ghost all = id_set(found@);
    proof {
        assert(ground_truth@.take(0).to_set() =~= Set::<u32>::empty());
        assert(Set::<u32>::empty().intersect(all) =~= Set::<u32>::empty());
    }
    while i < ground_truth.len()
        invariant
            i <= ground_truth@.len(),
            all == found@.to_set(),
            seen == ground_truth@.take(i as int).to_set(),
            seen.finite(),
            total == seen.len(),
            hits == seen.intersect(all).len(),
            hits <= i,
            total <= i,
        decreases ground_truth@.len() - i,
    {
        let x: u32 = ground_truth[i];
        let earlier = occurs_before(ground_truth, i, x);
        let hit = occurs_before(found, found.len(), x);
        proof {
            let front = ground_truth@.take(i as int);
            let next = ground_truth@.take(i + 1);
            assert(next =~= front.push(x));
            assert(next.to_set() =~= front.to_set().insert(x)) by {
                front.lemma_push_to_set_commute(x);
            }
            assert(front.contains(x) == seen.contains(x));
            assert(found@.take(found@.len() as int) =~= found@);
            assert(hit == all.contains(x));
            let grown = seen.insert(x);
            if hit {
                assert(grown.intersect(all) =~= seen.intersect(all).insert(x));
            } else {
                assert(grown.intersect(all) =~= seen.intersect(all));
            }
            if earlier {
                assert(grown =~= seen);
            }
            seen = grown;
        }
        if !earlier {
            total += 1;
            if hit {
                hits += 1;
            }
        }
        i += 1;
    }
    assert(ground_truth@.take(i as int) =~= ground_truth@);
    metrics::share(hits, total)
}

fn occurs_before(list: &Vec<u32>, n: usize, x: u32) -> (r: bool)
    requires
        n <= list@.len(),
    ensures
        r == list@.take(n as int).contains(x),
{
    let mut i: usize = 0;
    while i < n
        invariant
            i <= n <= list@.len(),
            forall|j: int| 0 <= j < i ==> list@[j] != x,
        decreases n - i,
    {
        if list[i] == x {
            assert(list@.take(n as int)[i as int] == x);
            return true;
        }
        i += 1;
    }
    false
}

} // verus!
