//! The index: named vectors and the graph over them.
use crate::beam;
use crate::diskann::codec;
use crate::diskann::error::DiskAnnError;
use crate::diskann::ids;
use crate::diskann::vamana;
use crate::diskann::vamana::VamanaGraph;
use crate::diskann::vectors::FlatVectors;
use crate::float_order;
use crate::knn;
use crate::metric::Metric;
use crate::ranking;
use crate::ranking::Scored;
use crate::wire;
use vstd::hash_map::StringHashMap;
use vstd::prelude::*;

verus! {

/// A vector found, by name.
#[derive(Debug)]
pub struct SearchResult {
    /// Its name.
    pub id: String,
    /// The bits of its squared distance from the query.
    pub distance: u32,
}

/// Settings of an index.
#[derive(Debug, Clone, Copy)]
pub struct DiskAnnConfig {
    /// Dimensions of a vector.
    pub dim: usize,
    /// Most neighbours of a node.
    pub max_degree: usize,
    /// Width of the searches that build the graph.
    pub build_beam: usize,
    /// Width of a query's search.
    pub search_beam: usize,
    /// The bits of the pruning factor.
    pub alpha: u32,
    /// Subspaces of the product quantiser that guides searches; nought for none.
    pub pq_subspaces: usize,
    /// Rounds of its training.
    pub pq_iterations: usize,
}

impl Default for DiskAnnConfig {
    fn default() -> (config: Self)
        ensures
            config.dim == 128,
            config.max_degree == 64,
            config.build_beam == 128,
            config.search_beam == 64,
            config.alpha == 0x3f99_999a,
            config.pq_subspaces == 0,
            config.pq_iterations == 10,
    {
        DiskAnnConfig {
            dim: 128,
            max_degree: 64,
            build_beam: 128,
            search_beam: 64,
            alpha: 0x3f99_999a,
            pq_subspaces: 0,
            pq_iterations: 10,
        }
    }
}

/// What an index is stored as.
pub struct Stored {
    /// The vectors.
    pub vectors: Vec<u8>,
    /// The graph; empty where there is none.
    pub graph: Vec<u8>,
    /// The names.
    pub ids: String,
}

/// The last place of each of the first `n` names.
pub open spec fn places(names: Seq<Seq<char>>, n: nat) -> Map<Seq<char>, u32>
    decreases n,
{
    if n == 0 {
        Map::empty()
    } else {
        places(names, (n - 1) as nat).insert(names[n - 1], (n - 1) as u32)
    }
}

proof fn places_hold(names: Seq<Seq<char>>, n: nat)
    requires
        n <= names.len(),
        n <= u32::MAX,
    ensures
        forall|s: Seq<char>| #[trigger]
            places(names, n).contains_key(s) ==> places(names, n)[s] < n && names[places(
                names,
                n,
            )[s] as int] == s,
    decreases n,
{
    if n > 0 {
        places_hold(names, (n - 1) as nat);
        let before = places(names, (n - 1) as nat);
        let after = places(names, n);
        assert forall|s: Seq<char>| #[trigger] after.contains_key(s) implies after[s] < n
            && names[after[s] as int] == s by {
            if s != names[n - 1] {
                assert(before.contains_key(s));
            }
        }
    }
}

/// Every stored name leads to the last vector that was stored with it, and no other name leads
/// anywhere.
pub proof fn names_lead_to_last(names: Seq<Seq<char>>, n: nat)
    requires
        n <= names.len(),
        n <= u32::MAX,
    ensures
        forall|i: int|
            0 <= i < n ==> places(names, n).contains_key(#[trigger] names[i]) && i <= places(
                names,
                n,
            )[names[i]] < n && names[places(names, n)[names[i]] as int] == names[i],
        forall|s: Seq<char>| #[trigger]
            places(names, n).contains_key(s) ==> exists|i: int|
                0 <= i < n && #[trigger] names[i] == s,
    decreases n,
{
    if n > 0 {
        let m = (n - 1) as nat;
        names_lead_to_last(names, m);
        let before = places(names, m);
        let after = places(names, n);
        assert forall|i: int| 0 <= i < n implies after.contains_key(#[trigger] names[i]) && i
            <= after[names[i]] < n && names[after[names[i]] as int] == names[i] by {
            if i < m && names[i] != names[n - 1] {
                assert(before.contains_key(names[i]));
            }
        }
        assert forall|s: Seq<char>| #[trigger] after.contains_key(s) implies exists|i: int|
            0 <= i < n && #[trigger] names[i] == s by {
            if s == names[n - 1] {
                assert(names[n - 1] == s);
            } else {
                assert(before.contains_key(s));
                let i = choose|i: int| 0 <= i < m && #[trigger] names[i] == s;
                assert(names[i] == s);
            }
        }
    }
}

fn has_true(list: &Vec<bool>) -> (r: bool)
    ensures
        r == exists|i: int| 0 <= i < list@.len() && #[trigger] list@[i],
{
    let mut i: usize = 0;
    while i < list.len()
        invariant
            i <= list@.len(),
            forall|j: int| 0 <= j < i ==> !#[trigger] list@[j],
        decreases list@.len() - i,
    {
        if list[i] {
            return true;
        }
        i += 1;
    }
    false
}

/// Indexes with the same names show the same.
proof fn shown_alike(a: DiskAnnIndex, b: DiskAnnIndex, list: Seq<Scored>)
    requires
        a.all_names() == b.all_names(),
    ensures
        a.shown(list) == b.shown(list),
    decreases list.len(),
{
    if list.len() > 0 {
        shown_alike(a, b, list.drop_last());
    }
}

/// Named vectors with a graph over them.
pub struct DiskAnnIndex {
    config: DiskAnnConfig,
    vectors: FlatVectors,
    id_map: Vec<String>,
    id_reverse: StringHashMap<u32>,
    graph: Option<VamanaGraph>,
    /// The graph that searches go by, where they cannot go by `graph` as it is.
    paths: Option<VamanaGraph>,
    built: bool,
}

impl DiskAnnIndex {
    /// The settings.
    pub closed spec fn config(&self) -> DiskAnnConfig {
        self.config
    }

    /// The stored vectors.
    pub closed spec fn vectors(&self) -> FlatVectors {
        self.vectors
    }

    /// Number of vectors stored, deleted ones included.
    pub closed spec fn size(&self) -> nat {
        self.vectors.count as nat
    }

    /// The names, in order.
    pub closed spec fn all_names(&self) -> Seq<Seq<char>> {
        ids::texts(self.id_map@)
    }

    /// The name that vector `i` was inserted with.
    pub open spec fn name(&self, i: int) -> Seq<char> {
        self.all_names()[i]
    }

    /// The place of each vector that is not deleted.
    pub closed spec fn lookup(&self) -> Map<Seq<char>, u32> {
        self.id_reverse@
    }

    /// The graph, once there is one.
    pub closed spec fn graph(&self) -> Option<VamanaGraph> {
        self.graph
    }

    /// Whether the index can be searched: no vector came in since the graph was made.
    pub closed spec fn is_built(&self) -> bool {
        self.built
    }

    /// The vectors are sound, and where there is something to search there are paths within
    /// them.
    pub closed spec fn wf(&self) -> bool {
        &&& self.vectors.wf()
        &&& self.vectors.dim == self.config.dim
        &&& self.vectors.count <= u32::MAX
        &&& self.built ==> (self.graph matches Some(g) && match self.paths {
            None => codec::is_sound(&g, self.vectors.count as nat),
            Some(p) => {
                &&& codec::is_sound(&p, self.vectors.count as nat)
                &&& p.medoid == g.medoid
                &&& p.links() == codec::tidied(
                    g.medoid as nat,
                    g.links(),
                    self.vectors.count as nat,
                )
            },
        })
    }

    /// The lists that searches of a graph go by. A graph from a file may name vectors that are
    /// not there: those are passed over.
    pub open spec fn paths(&self, g: VamanaGraph) -> Seq<Seq<u32>> {
        codec::tidied(g.medoid as nat, g.links(), self.size())
    }

    /// Names and vectors fit each other: every vector has a name, and every name that is looked
    /// up leads to a vector with that name. Only an index loaded from parts that did not
    /// fit each other may lack this.
    pub open spec fn fits(&self) -> bool {
        &&& self.all_names().len() == self.size()
        &&& forall|s: Seq<char>| #[trigger]
            self.lookup().contains_key(s) ==> self.lookup()[s] < self.size() && self.name(
                self.lookup()[s] as int,
            ) == s
    }

    /// What holds of every index in use.
    pub proof fn index_laws(&self)
        requires
            self.wf(),
        ensures
            self.vectors().wf(),
            self.vectors().dim == self.config().dim,
            self.vectors().count == self.size(),
            self.size() <= u32::MAX,
            self.is_built() ==> self.graph() is Some,
    {
    }

    /// Everything but the vectors and their names is as in `other`.
    pub open spec fn same_settings(&self, other: &DiskAnnIndex) -> bool {
        self.config() == other.config() && self.graph() == other.graph()
    }

    /// An index without vectors.
    pub fn new(config: DiskAnnConfig) -> (index: Self)
        ensures
            index.wf(),
            index.fits(),
            index.config() == config,
            index.size() == 0,
            index.lookup() == Map::<Seq<char>, u32>::empty(),
            index.graph() is None,
            !index.is_built(),
    {
        DiskAnnIndex {
            config,
            vectors: FlatVectors::new(config.dim),
            id_map: Vec::new(),
            id_reverse: StringHashMap::new(),
            graph: None,
            paths: None,
            built: false,
        }
    }

    /// The index after one more vector.
    pub open spec fn grown(&self, before: &DiskAnnIndex, id: Seq<char>, vector: Seq<u32>) -> bool {
        &&& self.size() == before.size() + 1
        &&& self.vectors().row(before.size() as int) == vector
        &&& forall|i: int|
            0 <= i < before.size() ==> #[trigger] self.vectors().row(i) == before.vectors().row(i)
        &&& self.all_names() == before.all_names().push(id)
        &&& self.lookup() == before.lookup().insert(id, before.size() as u32)
        &&& !self.is_built()
        &&& self.same_settings(before)
    }

    /// Adds a named vector. A vector of the wrong length is refused, and so is a name in use.
    pub fn insert(&mut self, id: String, vector: Vec<u32>) -> (r: Result<(), DiskAnnError>)
        requires
            old(self).wf(),
            old(self).size() < u32::MAX,
        ensures
            final(self).wf(),
            old(self).fits() ==> final(self).fits(),
            match r {
                Ok(()) => {
                    &&& vector@.len() == old(self).config().dim
                    &&& !old(self).lookup().contains_key(id@)
                    &&& final(self).grown(&*old(self), id@, vector@)
                },
                Err(DiskAnnError::DimensionMismatch { expected, actual }) => {
                    &&& vector@.len() != old(self).config().dim
                    &&& expected == old(self).config().dim
                    &&& actual == vector@.len()
                    &&& *final(self) == *old(self)
                },
                Err(DiskAnnError::InvalidConfig(message)) => {
                    &&& vector@.len() == old(self).config().dim
                    &&& old(self).lookup().contains_key(id@)
                    &&& message@ == "Duplicate ID: "@ + id@
                    &&& *final(self) == *old(self)
                },
                Err(_) => false,
            },
    {
        if vector.len() != self.config.dim {
            return Err(
                DiskAnnError::DimensionMismatch {
                    expected: self.config.dim,
                    actual: vector.len(),
                },
            );
        }
        if self.id_reverse.contains_key(id.as_str()) {
            return Err(DiskAnnError::InvalidConfig(ids::duplicate_message(&id)));
        }
        let at: u32 = self.vectors.len() as u32;
        self.id_reverse.insert(id.clone(), at);
        let ghost name = id@;
        self.id_map.push(id);
        self.vectors.push(vector.as_slice());
        self.built = false;
        proof {
            assert(self.all_names() =~= old(self).all_names().push(name));
            if old(self).fits() {
                assert forall|s: Seq<char>| #[trigger]
                    self.lookup().contains_key(s) implies self.lookup()[s] < self.size()
                    && self.name(self.lookup()[s] as int) == s by {
                    if s != name {
                        assert(old(self).lookup().contains_key(s));
                    }
                }
            }
        }
        Ok(())
    }

    /// The lookup after the first `n` entries came in at places from `start` on.
    pub open spec fn entered(
        lookup: Map<Seq<char>, u32>,
        start: nat,
        entries: Seq<(String, Vec<u32>)>,
        n: nat,
    ) -> Map<Seq<char>, u32>
        decreases n,
    {
        if n == 0 {
            lookup
        } else {
            Self::entered(lookup, start, entries, (n - 1) as nat).insert(
                entries[n - 1].0@,
                (start + n - 1) as u32,
            )
        }
    }

    /// The names of the first `n` entries.
    pub open spec fn ids_of(entries: Seq<(String, Vec<u32>)>, n: nat) -> Seq<Seq<char>> {
        Seq::new(n, |i: int| entries[i].0@)
    }

    /// Adds named vectors in order, up to the first that is refused. Gives that refusal.
    pub fn insert_batch(&mut self, entries: Vec<(String, Vec<u32>)>) -> (r: Result<(), DiskAnnError>)
        requires
            old(self).wf(),
            old(self).size() + entries@.len() <= u32::MAX,
        ensures
            final(self).wf(),
            old(self).fits() ==> final(self).fits(),
            final(self).same_settings(&*old(self)),
            ({
                let taken = final(self).size() - old(self).size();
                &&& 0 <= taken <= entries@.len()
                &&& r is Ok <==> taken == entries@.len()
                &&& final(self).lookup() == Self::entered(
                    old(self).lookup(),
                    old(self).size(),
                    entries@,
                    taken as nat,
                )
                &&& final(self).is_built() == (old(self).is_built() && taken == 0)
                &&& final(self).all_names() == old(self).all_names() + Self::ids_of(
                    entries@,
                    taken as nat,
                )
                &&& forall|i: int|
                    0 <= i < old(self).size() ==> #[trigger] final(self).vectors().row(i) == old(
                        self,
                    ).vectors().row(i)
                &&& forall|i: int|
                    0 <= i < taken ==> final(self).vectors().row(old(self).size() + i) == (
                    #[trigger] entries@[i]).1@ && entries@[i].1@.len() == old(self).config().dim
                &&& r matches Err(e) ==> {
                    let refused = entries@[taken];
                    match e {
                        DiskAnnError::DimensionMismatch { expected, actual } => {
                            &&& refused.1@.len() != old(self).config().dim
                            &&& expected == old(self).config().dim
                            &&& actual == refused.1@.len()
                        },
                        DiskAnnError::InvalidConfig(message) => {
                            &&& refused.1@.len() == old(self).config().dim
                            &&& final(self).lookup().contains_key(refused.0@)
                            &&& message@ == "Duplicate ID: "@ + refused.0@
                        },
                        _ => false,
                    }
                }
            }),
    {
        let ghost all = entries@;
        let mut rest = entries;
        let ghost mut done: int = 0;
        assert(self.all_names() + Self::ids_of(all, 0) =~= self.all_names());
        while rest.len() > 0
            invariant
                self.wf(),
                old(self).fits() ==> self.fits(),
                self.same_settings(&*old(self)),
                all == entries@,
                0 <= done <= all.len(),
                rest@ == all.skip(done),
                self.size() == old(self).size() + done,
                self.lookup() == Self::entered(
                    old(self).lookup(),
                    old(self).size(),
                    all,
                    done as nat,
                ),
                self.is_built() == (old(self).is_built() && done == 0),
                old(self).size() + all.len() <= u32::MAX,
                self.all_names() == old(self).all_names() + Self::ids_of(all, done as nat),
                forall|i: int|
                    0 <= i < old(self).size() ==> #[trigger] self.vectors().row(i) == old(
                        self,
                    ).vectors().row(i),
                forall|i: int|
                    0 <= i < done ==> self.vectors().row(old(self).size() + i) == (
                    #[trigger] all[i]).1@ && all[i].1@.len() == old(self).config().dim,
            decreases rest@.len(),
        {
            let (id, vector) = rest.remove(0);
            proof {
                assert(all.skip(done)[0] == all[done]);
                assert(rest@ =~= all.skip(done + 1));
            }
            let ghost before = *self;
            match self.insert(id, vector) {
                Ok(()) => {
                    proof {
                        assert forall|i: int| 0 <= i < done implies self.vectors().row(
                            old(self).size() + i,
                        ) == (#[trigger] all[i]).1@ by {
                            assert(before.vectors().row(old(self).size() + i) == all[i].1@);
                        }
                        assert(before.all_names().push(all[done].0@) =~= old(self).all_names()
                            + Self::ids_of(all, (done + 1) as nat));
                        done = done + 1;
                    }
                },
                Err(e) => {
                    return Err(e);
                },
            }
        }
        Ok(())
    }

    /// Whether vector `i` is there and was not deleted.
    pub open spec fn is_live(&self, i: int) -> bool {
        &&& 0 <= i < self.size()
        &&& i < self.all_names().len()
        &&& self.lookup().contains_key(self.name(i))
        &&& self.lookup()[self.name(i)] == i
    }

    /// Which vectors are live.
    pub open spec fn live_flags(&self) -> Seq<bool> {
        Seq::new(self.size(), |i: int| self.is_live(i))
    }

    /// Whether some vector is live.
    pub open spec fn has_live(&self) -> bool {
        exists|i: int| self.is_live(i)
    }

    /// Searches of a graph meet live vectors only: there is no node to start at, or they start
    /// at a live one and lists name no other.
    pub open spec fn forgets_deleted(&self, g: VamanaGraph) -> bool {
        self.paths(g).len() > 0 ==> self.is_live(g.medoid as int) && vamana::avoids_dead(
            self.paths(g),
            self.live_flags(),
        )
    }

    /// `g` is the graph `b`, built over all vectors, with the deleted ones taken out.
    pub open spec fn rebuilt<M: Metric, A: Metric>(
        &self,
        g: VamanaGraph,
        b: VamanaGraph,
        metric: &M,
        stretched: &A,
        from_centroid: Seq<u32>,
        start: Seq<Seq<u32>>,
        first: Seq<u32>,
        second: Seq<u32>,
    ) -> bool {
        let s = VamanaGraph::swept(
            b.links(),
            b.medoid,
            metric,
            stretched,
            self.live_flags(),
            b.max_degree as nat,
            self.size(),
        );
        &&& b.neighbors@.len() == self.size()
        &&& b.max_degree == self.config().max_degree
        &&& b.build_beam == self.config().build_beam
        &&& b.alpha == self.config().alpha
        &&& vamana::is_medoid(from_centroid, b.medoid as int)
        &&& b.built_from(metric, stretched, start, first, second)
        &&& g.links() == s.links
        &&& g.medoid == s.medoid
        &&& g.same_shape(&b)
    }

    /// Builds the graph over all vectors and takes the deleted ones out of it, so that
    /// searches no longer meet them; where all are deleted the graph has no nodes. `metric`
    /// measures between the vectors, `stretched` the same times the pruning factor, and
    /// `from_centroid` are their distances from their mean.
    pub fn build<M: Metric, A: Metric>(
        &mut self,
        metric: &M,
        stretched: &A,
        from_centroid: &[u32],
    ) -> (r: Result<(), DiskAnnError>)
        requires
            old(self).wf(),
            from_centroid@.len() == old(self).size(),
            old(self).size() <= metric.sources(),
            old(self).size() <= metric.targets(),
            old(self).size() <= stretched.sources(),
            old(self).size() <= stretched.targets(),
        ensures
            final(self).wf(),
            r is Err <==> old(self).size() == 0,
            r matches Err(e) ==> e is Empty && *final(self) == *old(self),
            r is Ok ==> {
                &&& final(self).config() == old(self).config()
                &&& final(self).vectors() == old(self).vectors()
                &&& final(self).size() == old(self).size()
                &&& final(self).lookup() == old(self).lookup()
                &&& final(self).all_names() == old(self).all_names()
                &&& final(self).is_built()
                &&& final(self).graph() matches Some(g) && {
                    &&& g.neighbors@.len() == (if old(self).has_live() {
                        old(self).size()
                    } else {
                        0
                    })
                    &&& g.max_degree == old(self).config().max_degree
                    &&& g.build_beam == old(self).config().build_beam
                    &&& g.alpha == old(self).config().alpha
                    &&& final(self).paths(g) == g.links()
                    &&& vamana::bounded(g.links(), g.max_degree as nat)
                    &&& old(self).has_live() ==> exists|
                        b: VamanaGraph,
                        start: Seq<Seq<u32>>,
                        first: Seq<u32>,
                        second: Seq<u32>,
                    | #[trigger]
                        old(self).rebuilt(
                            g,
                            b,
                            metric,
                            stretched,
                            from_centroid@,
                            start,
                            first,
                            second,
                        )
                    &&& final(self).forgets_deleted(g)
                }
            },
    {
        let n: usize = self.vectors.len();
        if n == 0 {
            return Err(DiskAnnError::Empty);
        }
        let live = self.live_vectors();
        let any = has_true(&live);
        assert(any == self.has_live()) by {
            if any {
                let i = choose|i: int| 0 <= i < live@.len() && live@[i];
                assert(self.is_live(i));
            }
            if self.has_live() {
                let i = choose|i: int| self.is_live(i);
                assert(live@[i]);
            }
        }
        let nodes: usize = if any {
            n
        } else {
            0
        };
        let mut graph = VamanaGraph::new(
            nodes,
            self.config.max_degree,
            self.config.build_beam,
            self.config.alpha,
        );
        if any {
            match graph.build(metric, stretched, from_centroid) {
                Err(e) => {
                    return Err(e);
                },
                Ok(()) => {},
            }
            let ghost b = graph;
            let ghost (start, first, second) = choose|
                start: Seq<Seq<u32>>,
                first: Seq<u32>,
                second: Seq<u32>,
            | #[trigger]
                b.built_from(metric, stretched, start, first, second);
            graph.sweep(metric, stretched, &live);
            proof {
                assert(old(self).rebuilt(
                    graph,
                    b,
                    metric,
                    stretched,
                    from_centroid@,
                    start,
                    first,
                    second,
                ));
                let i = choose|i: int| old(self).is_live(i);
                assert(live@[i]);
            }
        }
        proof {
            codec::sound_is_tidy(&graph, n as nat);
        }
        self.graph = Some(graph);
        self.paths = None;
        self.built = true;
        assert(self.live_flags() =~= old(self).live_flags());
        Ok(())
    }

    fn live_vectors(&self) -> (live: Vec<bool>)
        requires
            self.wf(),
        ensures
            live@ == self.live_flags(),
    {
        let n: usize = self.vectors.count;
        let mut live: Vec<bool> = Vec::new();
        let mut i: usize = 0;
        while i < n
            invariant
                i <= n,
                n == self.size(),
                n <= u32::MAX,
                live@.len() == i,
                forall|j: int| 0 <= j < i ==> #[trigger] live@[j] == self.is_live(j),
            decreases n - i,
        {
            let is_live = i < self.id_map.len() && match self.id_reverse.get(
                self.id_map[i].as_str(),
            ) {
                Some(at) => *at == i as u32,
                None => false,
            };
            live.push(is_live);
            i += 1;
        }
        assert(live@ =~= self.live_flags());
        live
    }

    /// What a search finds: the `k` best, by exact distance, of the candidates that the graph
    /// search gives, and nothing in a graph without a way in.
    pub open spec fn found<M: Metric, E: Metric>(
        &self,
        graph: VamanaGraph,
        traversal: &M,
        exact: &E,
        query: int,
        k: usize,
    ) -> Seq<Scored> {
        let width = if self.config().search_beam < k {
            k
        } else {
            self.config().search_beam
        };
        if self.paths(graph).len() == 0 {
            Seq::empty()
        } else {
            ranking::first_k(
                ranking::ranked(
                    knn::rescored(
                        exact,
                        query,
                        vamana::searched(self.paths(graph), graph.medoid, traversal, query, width),
                    ),
                ),
                k as nat,
            )
        }
    }

    /// What is shown of a list of vectors found: those that have a name, under it.
    pub open spec fn shown(&self, list: Seq<Scored>) -> Seq<(Seq<char>, u32)>
        decreases list.len(),
    {
        if list.len() == 0 {
            Seq::empty()
        } else {
            let front = self.shown(list.drop_last());
            let x = list.last();
            if x.id < self.all_names().len() {
                front.push((self.name(x.id as int), x.bits))
            } else {
                front
            }
        }
    }

    /// Where names and vectors fit each other, every vector found is shown.
    pub proof fn all_are_shown(&self, list: Seq<Scored>)
        requires
            self.fits(),
            forall|i: int| 0 <= i < list.len() ==> (#[trigger] list[i]).id < self.size(),
        ensures
            self.shown(list) == Seq::new(
                list.len(),
                |i: int| (self.name(list[i].id as int), list[i].bits),
            ),
        decreases list.len(),
    {
        if list.len() > 0 {
            self.all_are_shown(list.drop_last());
            assert(list[list.len() - 1].id < self.size());
        }
        assert(self.shown(list) =~= Seq::new(
            list.len(),
            |i: int| (self.name(list[i].id as int), list[i].bits),
        ));
    }

    /// A search finds at most `k` vectors, none twice, nearest first, each with its exact
    /// distance.
    pub proof fn found_holds<M: Metric, E: Metric>(
        &self,
        g: VamanaGraph,
        traversal: &M,
        exact: &E,
        query: int,
        k: usize,
    )
        requires
            self.wf(),
            self.graph() == Some(g),
        ensures
            ({
                let list = self.found(g, traversal, exact, query, k);
                &&& list.len() <= k
                &&& ranking::in_order(list)
                &&& ranking::distinct_ids(list)
                &&& forall|i: int|
                    0 <= i < list.len() ==> (#[trigger] list[i]).id < self.size() && list[i].bits
                        == exact.measured(query, list[i].id as int)
            }),
    {
        self.index_laws();
        let list = self.found(g, traversal, exact, query, k);
        let links = self.paths(g);
        codec::tidied_holds(g.medoid as nat, g.links(), self.size());
        if links.len() > 0 {
            let width = if self.config().search_beam < k {
                k
            } else {
                self.config().search_beam
            };
            let ids = vamana::searched(links, g.medoid, traversal, query, width);
            let all = knn::rescored(exact, query, ids);
            vamana::search_stays_inside(links, g.medoid, traversal, query, width);
            ranking::ranked_properties(all);
            assert(ranking::distinct_ids(all));
            assert forall|i: int| 0 <= i < list.len() implies (#[trigger] list[i]).id
                < self.size() && list[i].bits == exact.measured(query, list[i].id as int) by {
                assert(ranking::ranked(all)[i] == list[i]);
                assert(ranking::ranked(all).contains(list[i]));
                assert(all.contains(list[i]));
                let j = choose|j: int| 0 <= j < all.len() && all[j] == list[i];
                assert(ids[j] < links.len());
            }
        }
    }

    /// A search finds as many vectors as are asked for, or all that can be reached from the
    /// medoid where those are fewer. Asking for more than the beam holds widens it.
    pub proof fn found_count<M: Metric, E: Metric>(
        &self,
        g: VamanaGraph,
        traversal: &M,
        exact: &E,
        query: int,
        k: usize,
    )
        requires
            self.wf(),
            self.graph() == Some(g),
        ensures
            ({
                let list = self.found(g, traversal, exact, query, k);
                let all = beam::reached(self.paths(g), seq![g.medoid]);
                &&& list.len() == (if k < all.len() {
                    k as nat
                } else {
                    all.len()
                })
                &&& forall|i: int|
                    0 <= i < list.len() ==> all.contains((#[trigger] list[i]).id as int)
                &&& k >= all.len() ==> forall|v: u32| #[trigger]
                    all.contains(v as int) ==> list.contains(
                        Scored { id: v, bits: exact.measured(query, v as int) },
                    )
                &&& self.fits() ==> self.shown(list) == Seq::new(
                    list.len(),
                    |i: int| (self.name(list[i].id as int), list[i].bits),
                )
            }),
    {
        let list = self.found(g, traversal, exact, query, k);
        let links = self.paths(g);
        let entries = seq![g.medoid];
        let all = beam::reached(links, entries);
        self.index_laws();
        self.found_holds(g, traversal, exact, query, k);
        codec::tidied_holds(g.medoid as nat, g.links(), self.size());
        beam::reached_fits(links, entries);
        if self.fits() {
            self.all_are_shown(list);
        }
        if links.len() == 0 {
            assert(all.len() == 0);
            assert(all =~= Set::<int>::empty());
        } else {
            let width = if self.config().search_beam < k {
                k
            } else {
                self.config().search_beam
            };
            let rules = vamana::search_rules(links, traversal, query, width);
            let best = rules.outcome(entries).best;
            let ids = vamana::searched(links, g.medoid, traversal, query, width);
            let whole = knn::rescored(exact, query, ids);
            rules.result_count(entries);
            rules.results_are_reachable(entries);
            ranking::ranked_properties(whole);
            assert(whole.len() == best.len());
            assert forall|i: int| 0 <= i < list.len() implies all.contains(
                (#[trigger] list[i]).id as int,
            ) by {
                let x = list[i];
                assert(ranking::ranked(whole)[i] == x);
                assert(ranking::ranked(whole).contains(x));
                assert(whole.contains(x));
                let j = choose|j: int| 0 <= j < whole.len() && whole[j] == x;
                assert(best[j].id == x.id);
                assert(beam::reachable(links, entries, best[j].id));
            }
            if k >= all.len() {
                let names = list.map_values(|x: Scored| x.id as int);
                assert forall|i: int, j: int|
                    0 <= i < names.len() && 0 <= j < names.len() && i != j implies names[i]
                    != names[j] by {
                    if i < j {
                        assert(list[i].id != list[j].id);
                    } else {
                        assert(list[j].id != list[i].id);
                    }
                }
                names.unique_seq_to_set();
                assert forall|v: int| names.to_set().contains(v) implies all.contains(v) by {
                    let i = choose|i: int| 0 <= i < names.len() && names[i] == v;
                    assert(all.contains(list[i].id as int));
                }
                vstd::set_lib::lemma_subset_equality(names.to_set(), all);
                assert forall|v: u32| #[trigger] all.contains(v as int) implies list.contains(
                    Scored { id: v, bits: exact.measured(query, v as int) },
                ) by {
                    assert(names.to_set().contains(v as int));
                    let i = choose|i: int| 0 <= i < names.len() && names[i] == v as int;
                    assert(list[i].id == v);
                    assert(list[i].bits == exact.measured(query, list[i].id as int));
                }
            }
        }
    }

    /// A search whose beam holds every vector is exact: what can be reached from the medoid is
    /// found, or `k` vectors are and each of them is at least as near by exact distance.
    pub proof fn widest_search_is_exact<M: Metric, E: Metric>(
        &self,
        g: VamanaGraph,
        traversal: &M,
        exact: &E,
        query: int,
        k: usize,
        v: u32,
    )
        requires
            self.wf(),
            self.graph() == Some(g),
            self.size() <= self.config().search_beam || self.size() <= k,
            beam::reachable(self.paths(g), seq![g.medoid], v),
        ensures
            ({
                let list = self.found(g, traversal, exact, query, k);
                let x = Scored { id: v, bits: exact.measured(query, v as int) };
                list.contains(x) || (list.len() == k && forall|i: int|
                    0 <= i < list.len() ==> (#[trigger] list[i]).leads(x))
            }),
    {
        let links = self.paths(g);
        let entries = seq![g.medoid];
        self.index_laws();
        codec::tidied_holds(g.medoid as nat, g.links(), self.size());
        let path = choose|path: Seq<u32>| #[trigger]
            beam::is_path(links, path) && entries.contains(path[0]) && path.last() == v;
        assert(links.len() > 0);
        let width = if self.config().search_beam < k {
            k
        } else {
            self.config().search_beam
        };
        let rules = vamana::search_rules(links, traversal, query, width);
        let best = rules.outcome(entries).best;
        let ids = vamana::searched(links, g.medoid, traversal, query, width);
        let whole = knn::rescored(exact, query, ids);
        rules.wide_search_finds_all(entries, v);
        let at = choose|at: int| 0 <= at < best.len() && best[at] == rules.scored(v);
        let x = Scored { id: v, bits: exact.measured(query, v as int) };
        assert(ids[at] == v);
        assert(whole[at] == x);
        if !self.found(g, traversal, exact, query, k).contains(x) {
            ranking::first_k_are_best(whole, k as nat, x);
        }
    }

    proof fn shown_are_live(&self, list: Seq<Scored>)
        requires
            forall|i: int| 0 <= i < list.len() ==> self.is_live((#[trigger] list[i]).id as int),
        ensures
            forall|i: int|
                0 <= i < self.shown(list).len() ==> self.lookup().contains_key(
                    (#[trigger] self.shown(list)[i]).0,
                ),
        decreases list.len(),
    {
        if list.len() > 0 {
            let front = list.drop_last();
            assert forall|i: int| 0 <= i < front.len() implies self.is_live(
                (#[trigger] front[i]).id as int,
            ) by {
                assert(self.is_live(list[i].id as int));
            }
            self.shown_are_live(front);
            assert(self.is_live(list[list.len() - 1].id as int));
            assert forall|i: int| 0 <= i < self.shown(list).len() implies self.lookup().contains_key(
                (#[trigger] self.shown(list)[i]).0,
            ) by {
                if i < self.shown(front).len() {
                    assert(self.shown(list)[i] == self.shown(front)[i]);
                }
            }
        }
    }

    /// Where the graph forgets deleted vectors, as after every build, no search finds one, and
    /// no deleted name is shown.
    pub proof fn search_finds_live_vectors<M: Metric, E: Metric>(
        &self,
        g: VamanaGraph,
        traversal: &M,
        exact: &E,
        query: int,
        k: usize,
    )
        requires
            self.wf(),
            self.graph() == Some(g),
            self.forgets_deleted(g),
        ensures
            ({
                let list = self.found(g, traversal, exact, query, k);
                &&& forall|i: int|
                    0 <= i < list.len() ==> self.is_live((#[trigger] list[i]).id as int)
                &&& forall|i: int|
                    0 <= i < self.shown(list).len() ==> self.lookup().contains_key(
                        (#[trigger] self.shown(list)[i]).0,
                    )
            }),
    {
        self.index_laws();
        let links = self.paths(g);
        codec::tidied_holds(g.medoid as nat, g.links(), self.size());
        if links.len() > 0 {
            let width = if self.config().search_beam < k {
                k
            } else {
                self.config().search_beam
            };
            let rules = vamana::search_rules(links, traversal, query, width);
            let entries = seq![g.medoid];
            let best = rules.outcome(entries).best;
            let ids = vamana::searched(links, g.medoid, traversal, query, width);
            let all = knn::rescored(exact, query, ids);
            let list = self.found(g, traversal, exact, query, k);
            rules.results_are_reachable(entries);
            ranking::ranked_properties(all);
            assert forall|i: int| 0 <= i < list.len() implies self.is_live(
                (#[trigger] list[i]).id as int,
            ) by {
                let x = list[i];
                assert(ranking::ranked(all)[i] == x);
                assert(ranking::ranked(all).contains(x));
                assert(all.contains(x));
                let j = choose|j: int| 0 <= j < all.len() && all[j] == x;
                assert(ids[j] == x.id);
                assert(best[j].id == x.id);
                assert(beam::reachable(links, entries, best[j].id));
                let path = choose|path: Seq<u32>| #[trigger]
                    beam::is_path(links, path) && entries.contains(path[0]) && path.last() == x.id;
                let e = choose|e: int| 0 <= e < entries.len() && entries[e] == path[0];
                if path.len() > 1 {
                    let from = path[path.len() - 2];
                    assert(links[from as int].contains(path[path.len() - 2 + 1]));
                    beam::path_stays_inside(links, path, path.len() - 2);
                    let a = choose|a: int|
                        0 <= a < links[from as int].len() && links[from as int][a] == x.id;
                    assert(self.live_flags()[links[from as int][a] as int]);
                    assert(links[from as int][a] < links.len());
                }
            }
        }
        self.shown_are_live(self.found(g, traversal, exact, query, k));
    }

    /// The `k` vectors nearest to a query, nearest first. The graph is searched by
    /// `traversal`, which may be an estimate; the candidates are ranked by `exact`. `vector`
    /// is the query itself, number `query` of both metrics. A vector found that has no name is
    /// not shown, and in a graph without a way in nothing is found.
    pub fn search<M: Metric, E: Metric>(
        &self,
        traversal: &M,
        exact: &E,
        vector: &[u32],
        query: u32,
        k: usize,
    ) -> (r: Result<Vec<SearchResult>, DiskAnnError>)
        requires
            self.wf(),
            query < traversal.sources(),
            query < exact.sources(),
            self.size() <= traversal.targets(),
            self.size() <= exact.targets(),
        ensures
            match r {
                Ok(results) => {
                    &&& self.is_built()
                    &&& vector@.len() == self.config().dim
                    &&& self.graph() matches Some(g) && {
                        let list = self.shown(self.found(g, traversal, exact, query as int, k));
                        &&& results@.len() == list.len()
                        &&& forall|i: int|
                            0 <= i < list.len() ==> (#[trigger] results@[i]).id@ == list[i].0
                                && results@[i].distance == list[i].1
                    }
                },
                Err(DiskAnnError::NotBuilt) => !self.is_built(),
                Err(DiskAnnError::DimensionMismatch { expected, actual }) => {
                    &&& self.is_built()
                    &&& vector@.len() != self.config().dim
                    &&& expected == self.config().dim
                    &&& actual == vector@.len()
                },
                Err(_) => false,
            },
    {
        if !self.built {
            return Err(DiskAnnError::NotBuilt);
        }
        if vector.len() != self.config.dim {
            return Err(
                DiskAnnError::DimensionMismatch {
                    expected: self.config.dim,
                    actual: vector.len(),
                },
            );
        }
        let whole = match &self.graph {
            Some(g) => g,
            None => {
                return Err(DiskAnnError::NotBuilt);
            },
        };
        let graph = match &self.paths {
            Some(p) => p,
            None => whole,
        };
        proof {
            if self.paths is None {
                codec::sound_is_tidy(whole, self.size());
            }
            assert(graph.links() == self.paths(*whole));
        }
        let width: usize = if self.config.search_beam < k {
            k
        } else {
            self.config.search_beam
        };
        if graph.neighbors.len() == 0 {
            assert(graph.links().len() == 0);
            return Ok(Vec::new());
        }
        let candidates = graph.greedy_search(traversal, query, width).0;
        proof {
            vamana::search_stays_inside(
                graph.links(),
                graph.medoid,
                traversal,
                query as int,
                width,
            );
        }
        let list = knn::rescore(exact, query, &candidates);
        let best = ranking::rank_first(list.as_slice(), k);
        assert(best@ == self.found(*whole, traversal, exact, query as int, k));
        Ok(self.show(&best))
    }

    fn show(&self, list: &Vec<Scored>) -> (results: Vec<SearchResult>)
        ensures
            results@.len() == self.shown(list@).len(),
            forall|i: int|
                0 <= i < results@.len() ==> (#[trigger] results@[i]).id@ == self.shown(list@)[i].0
                    && results@[i].distance == self.shown(list@)[i].1,
    {
        let mut results: Vec<SearchResult> = Vec::new();
        let mut j: usize = 0;
        assert(list@.take(0) =~= Seq::<Scored>::empty());
        while j < list.len()
            invariant
                j <= list@.len(),
                results@.len() == self.shown(list@.take(j as int)).len(),
                forall|i: int|
                    0 <= i < results@.len() ==> (#[trigger] results@[i]).id@ == self.shown(
                        list@.take(j as int),
                    )[i].0 && results@[i].distance == self.shown(list@.take(j as int))[i].1,
            decreases list@.len() - j,
        {
            let x = list[j];
            assert(list@.take(j + 1).drop_last() =~= list@.take(j as int));
            if (x.id as usize) < self.id_map.len() {
                let id = self.id_map[x.id as usize].clone();
                results.push(SearchResult { id, distance: x.bits });
            }
            j += 1;
        }
        assert(list@.take(j as int) =~= list@);
        results
    }

    /// Number of vectors stored, deleted ones included.
    pub fn count(&self) -> (n: usize)
        ensures
            n == self.size(),
    {
        self.vectors.len()
    }

    /// Deletes a vector: its numbers become NaNs and its name is free again. Its node stays in
    /// the graph until the next build. Gives whether there was such a vector.
    pub fn delete(&mut self, id: &str) -> (r: Result<bool, DiskAnnError>)
        requires
            old(self).wf(),
            old(self).lookup().contains_key(id@) ==> old(self).lookup()[id@] < old(self).size(),
        ensures
            final(self).wf(),
            old(self).fits() ==> final(self).fits(),
            r == Ok::<bool, DiskAnnError>(old(self).lookup().contains_key(id@)),
            !old(self).lookup().contains_key(id@) ==> *final(self) == *old(self),
            old(self).lookup().contains_key(id@) ==> {
                let at = old(self).lookup()[id@] as int;
                &&& final(self).lookup() == old(self).lookup().remove(id@)
                &&& final(self).size() == old(self).size()
                &&& final(self).vectors().row(at) == Seq::new(
                    old(self).config().dim as nat,
                    |j: int| float_order::NAN,
                )
                &&& forall|i: int|
                    0 <= i < old(self).size() && i != at ==> #[trigger] final(self).vectors().row(i)
                        == old(self).vectors().row(i)
                &&& final(self).all_names() == old(self).all_names()
                &&& final(self).is_built() == old(self).is_built()
                &&& final(self).same_settings(&*old(self))
            },
    {
        let at: u32 = match self.id_reverse.get(id) {
            Some(at) => *at,
            None => {
                return Ok(false);
            },
        };
        self.vectors.zero_out(at as usize);
        self.id_reverse.remove(id);
        Ok(true)
    }

    /// An index put together from stored parts. A name that was stored more than once leads to
    /// the last vector with it.
    pub fn from_parts(
        config: DiskAnnConfig,
        vectors: FlatVectors,
        id_map: Vec<String>,
        graph: VamanaGraph,
    ) -> (index: Self)
        requires
            vectors.wf(),
            vectors.dim == config.dim,
            vectors.count <= u32::MAX,
        ensures
            index.wf(),
            id_map@.len() == vectors.count ==> index.fits(),
            index.config() == config,
            index.vectors() == vectors,
            index.size() == vectors.count,
            index.all_names() == ids::texts(id_map@),
            index.lookup() == places(ids::texts(id_map@), id_map@.len()),
            index.graph() == Some(graph),
            index.is_built(),
    {
        let mut id_reverse: StringHashMap<u32> = StringHashMap::new();
        let mut i: usize = 0;
        while i < id_map.len()
            invariant
                i <= id_map@.len(),
                id_reverse@ == places(ids::texts(id_map@), i as nat),
            decreases id_map@.len() - i,
        {
            id_reverse.insert(id_map[i].clone(), i as u32);
            i += 1;
        }
        proof {
            if id_map@.len() == vectors.count {
                places_hold(ids::texts(id_map@), id_map@.len());
            }
        }
        let paths = codec::tidy(&graph, vectors.count);
        DiskAnnIndex { config, vectors, id_map, id_reverse, graph: Some(graph), paths, built: true }
    }

    /// What the index is stored as.
    pub open spec fn is_stored(&self, stored: &Stored) -> bool {
        &&& stored.vectors@ == codec::vectors_bytes(&self.vectors())
        &&& stored.graph@ == (match self.graph() {
            Some(g) => codec::graph_bytes(&g),
            None => Seq::empty(),
        })
        &&& stored.ids@ == ids::json_of_texts(self.all_names())
        &&& ids::texts_of_json(stored.ids@) == Some(self.all_names())
    }

    /// The stored form of the vectors, the graph and the names.
    pub fn save(&self) -> (r: Result<Stored, DiskAnnError>)
        requires
            self.wf(),
            self.graph() matches Some(g) ==> forall|i: int|
                0 <= i < g.neighbors@.len() ==> (#[trigger] g.neighbors@[i])@.len() <= u32::MAX,
        ensures
            r is Ok,
            r matches Ok(stored) ==> self.is_stored(&stored),
    {
        let vectors = codec::encode_vectors(&self.vectors);
        let graph = match &self.graph {
            Some(g) => codec::encode_graph(g),
            None => Vec::new(),
        };
        proof {
            assert(ids::texts(self.id_map@) =~= self.all_names());
            assert(self.graph is None ==> graph@ =~= Seq::<u8>::empty());
        }
        match ids::encode_ids(&self.id_map) {
            Ok(ids) => Ok(Stored { vectors, graph, ids }),
            Err(e) => Err(e),
        }
    }

    /// The index holds what was stored.
    pub open spec fn is_loaded(&self, config: DiskAnnConfig, stored: &Stored) -> bool {
        &&& self.config() == config
        &&& codec::reads_vectors(stored.vectors@, &self.vectors())
        &&& self.size() == self.vectors().count
        &&& ids::texts_of_json(stored.ids@) == Some(self.all_names())
        &&& self.lookup() == places(self.all_names(), self.all_names().len())
        &&& self.all_names().len() == self.size() ==> self.fits()
        &&& self.is_built()
        &&& self.graph() matches Some(g) && codec::parse_graph(stored.graph@) matches Some(read)
            && {
            &&& g.medoid == read.0 % 0x1_0000_0000
            &&& g.links() == read.1
            &&& g.max_degree == config.max_degree
            &&& g.build_beam == config.build_beam
            &&& g.alpha == config.alpha
        }
    }

    /// What loading gives: nothing where the vectors or the graph cannot be read or there are
    /// more vectors than there are numbers for, an error where the names cannot be read, and
    /// otherwise the index.
    pub open spec fn loads_as(
        config: DiskAnnConfig,
        stored: &Stored,
        r: Option<Result<DiskAnnIndex, DiskAnnError>>,
    ) -> bool {
        if !codec::holds_vectors(stored.vectors@, config.dim) {
            r is None
        } else {
            match ids::texts_of_json(stored.ids@) {
                None => r matches Some(Err(e)) && e is Serialization,
                Some(names) => if codec::parse_graph(stored.graph@) is Some && wire::le_value(
                    stored.vectors@.subrange(0, 8),
                ) <= u32::MAX {
                    r matches Some(Ok(index)) && index.wf() && index.is_loaded(config, stored)
                } else {
                    r is None
                },
            }
        }
    }

    /// The index with these settings and these stored parts.
    pub fn load(config: DiskAnnConfig, stored: &Stored) -> (r: Option<Result<Self, DiskAnnError>>)
        ensures
            Self::loads_as(config, stored, r),
    {
        let vectors = match codec::decode_vectors(stored.vectors.as_slice(), config.dim) {
            Some(v) => v,
            None => {
                return None;
            },
        };
        let id_map = match ids::decode_ids(stored.ids.as_str()) {
            Ok(v) => v,
            Err(e) => {
                return Some(Err(e));
            },
        };
        if vectors.count > u32::MAX as usize {
            return None;
        }
        let graph = match codec::decode_graph(
            stored.graph.as_slice(),
            config.max_degree,
            config.build_beam,
            config.alpha,
        ) {
            Some(g) => g,
            None => {
                return None;
            },
        };
        Some(Ok(Self::from_parts(config, vectors, id_map, graph)))
    }

    /// Loading what was saved gives the index back: the same vectors, names and graph, and so
    /// the same answer to every query.
    pub proof fn load_gives_back_what_was_saved<M: Metric, E: Metric>(
        saved: DiskAnnIndex,
        stored: Stored,
        r: Option<Result<DiskAnnIndex, DiskAnnError>>,
        traversal: &M,
        exact: &E,
        query: int,
        k: usize,
    )
        requires
            saved.wf(),
            saved.graph() matches Some(g) && forall|i: int|
                0 <= i < g.neighbors@.len() ==> (#[trigger] g.neighbors@[i])@.len() <= u32::MAX,
            saved.is_stored(&stored),
            Self::loads_as(saved.config(), &stored, r),
        ensures
            r matches Some(Ok(loaded)) && {
                &&& loaded.wf()
                &&& loaded.is_built()
                &&& loaded.config() == saved.config()
                &&& loaded.size() == saved.size()
                &&& loaded.vectors().data@ == saved.vectors().data@
                &&& loaded.all_names() == saved.all_names()
                &&& loaded.lookup() == places(saved.all_names(), saved.all_names().len())
                &&& saved.fits() ==> loaded.fits()
                &&& loaded.graph() matches Some(h) && saved.graph() matches Some(g) && {
                    &&& h.links() == g.links()
                    &&& h.medoid == g.medoid
                    &&& loaded.shown(loaded.found(h, traversal, exact, query, k)) == saved.shown(
                        saved.found(g, traversal, exact, query, k),
                    )
                }
            },
    {
        saved.index_laws();
        let g = saved.graph()->0;
        assert(g.neighbors.len() <= u64::MAX);
        codec::graph_round_trip(&g);
        let v = saved.vectors();
        codec::vectors_round_trip(&v, &v);
        wire::le_limits();
        wire::le_round_trip(v.count as nat, 8);
        assert(stored.vectors@.subrange(0, 8) =~= wire::le_bytes(v.count as nat, 8));
        let loaded = r->0->Ok_0;
        codec::vectors_round_trip(&v, &loaded.vectors());
        shown_alike(saved, loaded, saved.found(g, traversal, exact, query, k));
    }

    /// A loaded index can be saved again, and what is then stored holds the graph that was
    /// loaded, neighbours that are not there included.
    pub proof fn save_writes_back_what_was_loaded(
        loaded: DiskAnnIndex,
        config: DiskAnnConfig,
        stored: Stored,
        again: Stored,
    )
        requires
            loaded.is_loaded(config, &stored),
            loaded.is_stored(&again),
        ensures
            loaded.graph() matches Some(g) && codec::parse_graph(stored.graph@) matches Some(read)
                && {
                &&& codec::parse_graph(again.graph@) == Some((read.0 % 0x1_0000_0000, read.1))
                &&& forall|i: int|
                    0 <= i < g.neighbors@.len() ==> (#[trigger] g.neighbors@[i])@.len() <= u32::MAX
            },
            ids::texts_of_json(again.ids@) == ids::texts_of_json(stored.ids@),
    {
        codec::graph_is_written_back(stored.graph@, &(loaded.graph()->0));
    }

    /// The stored vectors.
    pub fn stored_vectors(&self) -> (v: &FlatVectors)
        ensures
            *v == self.vectors(),
    {
        &self.vectors
    }

    /// The names, in order of insertion.
    pub fn names(&self) -> (names: &Vec<String>)
        ensures
            ids::texts(names@) == self.all_names(),
    {
        &self.id_map
    }

    /// The place of the vector with this name, where it is not deleted.
    pub fn place(&self, id: &str) -> (at: Option<u32>)
        ensures
            at == (if self.lookup().contains_key(id@) {
                Some(self.lookup()[id@])
            } else {
                None::<u32>
            }),
    {
        match self.id_reverse.get(id) {
            Some(at) => Some(*at),
            None => None,
        }
    }

    /// Whether the index can be searched.
    pub fn built(&self) -> (b: bool)
        ensures
            b == self.is_built(),
    {
        self.built
    }

    /// The graph, once there is one.
    pub fn stored_graph(&self) -> (g: Option<&VamanaGraph>)
        ensures
            g is Some <==> self.graph() is Some,
            g matches Some(x) ==> self.graph() == Some(*x),
    {
        match &self.graph {
            Some(g) => Some(g),
            None => None,
        }
    }

    /// The settings.
    pub fn settings(&self) -> (config: DiskAnnConfig)
        ensures
            config == self.config(),
    {
        self.config
    }
}

} // verus!
