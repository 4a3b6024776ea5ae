//! Set of visited nodes that empties in constant time.
use vstd::prelude::*;

verus! {

/// The nodes visited so far, out of a fixed range. A node is in the set when its stamp is
/// the current generation, so starting a new generation empties the set.
pub struct VisitedSet {
    generation: u64,
    stamps: Vec<u64>,
}

impl View for VisitedSet {
    type V = Set<int>;

    closed spec fn view(&self) -> Set<int> {
        Set::new(|i: int| 0 <= i < self.stamps@.len() && self.stamps@[i] == self.generation)
    }
}

impl VisitedSet {
    /// Number of nodes that can be visited.
    pub closed spec fn capacity(&self) -> nat {
        self.stamps@.len()
    }

    /// How many more times the set can be emptied.
    pub closed spec fn clears_left(&self) -> nat {
        (u64::MAX - self.generation) as nat
    }

    /// No stamp is ahead of the current generation.
    pub closed spec fn wf(&self) -> bool {
        forall|i: int| 0 <= i < self.stamps@.len() ==> #[trigger] self.stamps@[i] <= self.generation
    }

    /// Every visited node is within the range.
    pub proof fn in_range(&self)
        ensures
            forall|i: int| #[trigger] self@.contains(i) ==> 0 <= i < self.capacity(),
            self@.finite(),
            self@.len() <= self.capacity(),
    {
        let all = vstd::set_lib::set_int_range(0, self.capacity() as int);
        vstd::set_lib::lemma_int_range(0, self.capacity() as int);
        assert(self@.subset_of(all));
        vstd::set_lib::lemma_len_subset(self@, all);
    }

    /// An empty set over nodes `0..n`.
    pub fn new(n: usize) -> (set: Self)
        ensures
            set.wf(),
            set@ == Set::<int>::empty(),
            set.capacity() == n,
            set.clears_left() == u64::MAX - 1,
    {
        let mut stamps: Vec<u64> = Vec::new();
        while stamps.len() < n
            invariant
                stamps@.len() <= n,
                forall|i: int| 0 <= i < stamps@.len() ==> stamps@[i] == 0,
            decreases n - stamps@.len(),
        {
            stamps.push(0);
        }
        let set = VisitedSet { generation: 1, stamps };
        assert(set@ =~= Set::<int>::empty());
        set
    }

    /// Empties the set.
    pub fn clear(&mut self)
        requires
            old(self).wf(),
            old(self).clears_left() > 0,
        ensures
            final(self).wf(),
            final(self)@ == Set::<int>::empty(),
            final(self).capacity() == old(self).capacity(),
            final(self).clears_left() == old(self).clears_left() - 1,
    {
        self.generation = self.generation + 1;
        assert(self@ =~= Set::<int>::empty());
    }

    /// Marks a node as visited.
    pub fn insert(&mut self, id: u32)
        requires
            old(self).wf(),
            id < old(self).capacity(),
        ensures
            final(self).wf(),
            final(self)@ == old(self)@.insert(id as int),
            final(self).capacity() == old(self).capacity(),
            final(self).clears_left() == old(self).clears_left(),
    {
        let generation: u64 = self.generation;
        self.stamps.set(id as usize, generation);
        assert(self@ =~= old(self)@.insert(id as int));
    }

    /// Whether a node was visited.
    pub fn contains(&self, id: u32) -> (r: bool)
        requires
            id < self.capacity(),
        ensures
            r == self@.contains(id as int),
    {
        self.stamps[id as usize] == self.generation
    }
}

} // verus!
