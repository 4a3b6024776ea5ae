//! The byte formats of stored vectors and stored graphs.
//!
//! Vectors: their number and their dimensions as 64-bit integers, then the numbers one after
//! another. Graph: medoid and number of nodes as 64-bit integers, then for each node the
//! length of its list and the list as 32-bit integers. All integers are little-endian.
//! Codes: one after another.
use crate::beam;
use crate::diskann::vamana::VamanaGraph;
use crate::diskann::vectors::FlatVectors;
use crate::wire;
use vstd::prelude::*;

verus! {

/// 32-bit integers one after another.
pub open spec fn words(s: Seq<u32>) -> Seq<u8> {
    Seq::new(4 * s.len(), |i: int| wire::le_bytes(s[i / 4] as nat, 4)[i % 4])
}

/// The 32-bit integer at place `i` of a byte string.
pub open spec fn word_at(bytes: Seq<u8>, start: int, i: int) -> nat {
    wire::le_value(bytes.subrange(start + 4 * i, start + 4 * i + 4))
}

/// Stored vectors.
pub open spec fn vectors_bytes(v: &FlatVectors) -> Seq<u8> {
    wire::le_bytes(v.count as nat, 8) + wire::le_bytes(v.dim as nat, 8) + words(v.data@)
}

/// A stored list.
pub open spec fn list_bytes(list: Seq<u32>) -> Seq<u8> {
    wire::le_bytes(list.len(), 4) + words(list)
}

/// Stored lists.
pub open spec fn lists_bytes(lists: Seq<Seq<u32>>) -> Seq<u8>
    decreases lists.len(),
{
    if lists.len() == 0 {
        Seq::empty()
    } else {
        lists_bytes(lists.drop_last()) + list_bytes(lists.last())
    }
}

/// A stored graph.
pub open spec fn graph_bytes(g: &VamanaGraph) -> Seq<u8> {
    wire::le_bytes(g.medoid as nat, 8) + wire::le_bytes(g.neighbors@.len(), 8) + lists_bytes(
        g.links(),
    )
}

/// Appending an integer appends its bytes.
proof fn words_push(s: Seq<u32>, x: u32)
    ensures
        words(s.push(x)) == words(s) + wire::le_bytes(x as nat, 4),
{
    wire::le_bytes_len(x as nat, 4);
    assert(words(s.push(x)) =~= words(s) + wire::le_bytes(x as nat, 4));
}

/// Integers one after another are read back by their places.
pub proof fn words_round_trip(front: Seq<u8>, s: Seq<u32>, tail: Seq<u8>)
    ensures
        forall|i: int|
            0 <= i < s.len() ==> #[trigger] word_at(front + words(s) + tail, front.len() as int, i)
                == s[i],
{
    let whole = front + words(s) + tail;
    assert forall|i: int| 0 <= i < s.len() implies #[trigger] word_at(whole, front.len() as int, i)
        == s[i] by {
        wire::le_limits();
        wire::le_round_trip(s[i] as nat, 4);
        let start = front.len() + 4 * i;
        assert(whole.subrange(start, start + 4) =~= wire::le_bytes(s[i] as nat, 4));
    }
}

fn put_words(buf: &mut Vec<u8>, s: &Vec<u32>)
    ensures
        final(buf)@ == old(buf)@ + words(s@),
{
    let ghost before = buf@;
    let mut i: usize = 0;
    assert(words(s@.take(0)) =~= Seq::<u8>::empty());
    while i < s.len()
        invariant
            i <= s@.len(),
            buf@ == before + words(s@.take(i as int)),
        decreases s@.len() - i,
    {
        wire::put_u32(buf, s[i]);
        proof {
            words_push(s@.take(i as int), s@[i as int]);
            assert(s@.take(i + 1) =~= s@.take(i as int).push(s@[i as int]));
        }
        i += 1;
        assert(buf@ =~= before + words(s@.take(i as int)));
    }
    assert(s@.take(i as int) =~= s@);
}

fn get_words(bytes: &[u8], start: usize, n: usize) -> (out: Vec<u32>)
    requires
        start + 4 * n <= bytes@.len(),
    ensures
        out@.len() == n,
        forall|i: int| 0 <= i < n ==> #[trigger] out@[i] == word_at(bytes@, start as int, i),
{
    let len: usize = bytes.len();
    let mut out: Vec<u32> = Vec::new();
    let mut i: usize = 0;
    while i < n
        invariant
            i <= n,
            len == bytes@.len(),
            start + 4 * n <= len,
            out@.len() == i,
            forall|j: int| 0 <= j < i ==> #[trigger] out@[j] == word_at(bytes@, start as int, j),
        decreases n - i,
    {
        out.push(wire::get_u32(bytes, start + 4 * i));
        i += 1;
    }
    out
}

/// The stored form of vectors.
pub fn encode_vectors(v: &FlatVectors) -> (bytes: Vec<u8>)
    ensures
        bytes@ == vectors_bytes(v),
{
    let mut buf: Vec<u8> = Vec::new();
    wire::put_u64(&mut buf, v.count as u64);
    wire::put_u64(&mut buf, v.dim as u64);
    put_words(&mut buf, &v.data);
    assert(buf@ =~= vectors_bytes(v));
    buf
}

/// Whether bytes hold vectors of `dim` dimensions: the head is there, names these dimensions,
/// and as many numbers follow as it says. More may follow.
pub open spec fn holds_vectors(bytes: Seq<u8>, dim: usize) -> bool {
    let n = wire::le_value(bytes.subrange(0, 8));
    &&& bytes.len() >= 16
    &&& wire::le_value(bytes.subrange(8, 16)) == dim
    &&& n <= usize::MAX
    &&& 16 + 4 * (n * dim as nat) <= bytes.len()
}

/// What bytes that hold vectors are read as.
pub open spec fn reads_vectors(bytes: Seq<u8>, v: &FlatVectors) -> bool {
    &&& v.count == wire::le_value(bytes.subrange(0, 8))
    &&& v.dim == wire::le_value(bytes.subrange(8, 16))
    &&& v.data@.len() == v.count * v.dim
    &&& forall|i: int| 0 <= i < v.data@.len() ==> #[trigger] v.data@[i] == word_at(bytes, 16, i)
}

/// Reads stored vectors of `dim` dimensions; `None` where the bytes do not hold such.
pub fn decode_vectors(bytes: &[u8], dim: usize) -> (v: Option<FlatVectors>)
    ensures
        v is Some <==> holds_vectors(bytes@, dim),
        v matches Some(x) ==> x.wf() && reads_vectors(bytes@, &x),
{
    let len: usize = bytes.len();
    if len < 16 {
        return None;
    }
    let n: u64 = wire::get_u64(bytes, 0);
    let stored_dim: u64 = wire::get_u64(bytes, 8);
    if stored_dim != dim as u64 || n > usize::MAX as u64 {
        return None;
    }
    proof {
        assert(0 <= n * dim <= 0xffff_ffff_ffff_ffff * 0xffff_ffff_ffff_ffff) by (nonlinear_arith)
            requires
                0 <= n <= 0xffff_ffff_ffff_ffff,
                0 <= dim <= 0xffff_ffff_ffff_ffff,
        ;
    }
    let numbers: u128 = n as u128 * dim as u128;
    if numbers > (len as u128 - 16) / 4 {
        return None;
    }
    let data = get_words(bytes, 16, numbers as usize);
    Some(FlatVectors { data, dim, count: n as usize })
}

/// Stored vectors are read back as they were.
pub proof fn vectors_round_trip(v: &FlatVectors, w: &FlatVectors)
    requires
        v.wf(),
    ensures
        holds_vectors(vectors_bytes(v), v.dim),
        reads_vectors(vectors_bytes(v), w) ==> w.count == v.count && w.dim == v.dim && w.data@
            == v.data@,
{
    let bytes = vectors_bytes(v);
    wire::le_limits();
    wire::le_round_trip(v.count as nat, 8);
    wire::le_round_trip(v.dim as nat, 8);
    let head = wire::le_bytes(v.count as nat, 8) + wire::le_bytes(v.dim as nat, 8);
    assert(bytes.subrange(0, 8) =~= wire::le_bytes(v.count as nat, 8));
    assert(bytes.subrange(8, 16) =~= wire::le_bytes(v.dim as nat, 8));
    words_round_trip(head, v.data@, Seq::empty());
    assert(head + words(v.data@) + Seq::<u8>::empty() =~= bytes);
    if reads_vectors(bytes, w) {
        assert forall|i: int| 0 <= i < w.data@.len() implies w.data@[i] == v.data@[i] by {
            assert(word_at(bytes, 16, i) == v.data@[i]);
        }
        assert(w.data@ =~= v.data@);
    }
}

/// The lists at the front of a byte string, if there are `n`.
pub open spec fn parse_lists(bytes: Seq<u8>, n: nat) -> Option<Seq<Seq<u32>>>
    decreases n,
{
    if n == 0 {
        Some(Seq::empty())
    } else if bytes.len() < 4 {
        None
    } else {
        let degree = wire::le_value(bytes.subrange(0, 4));
        if bytes.len() < 4 + 4 * degree {
            None
        } else {
            let list = Seq::new(degree, |i: int| word_at(bytes, 4, i) as u32);
            match parse_lists(bytes.skip(4 + 4 * degree as int), (n - 1) as nat) {
                None => None,
                Some(rest) => Some(seq![list] + rest),
            }
        }
    }
}

/// Reading lists that were stored one after another gives the lists.
pub proof fn lists_round_trip(lists: Seq<Seq<u32>>, tail: Seq<u8>)
    requires
        forall|i: int| 0 <= i < lists.len() ==> (#[trigger] lists[i]).len() <= u32::MAX,
    ensures
        parse_lists(lists_bytes(lists) + tail, lists.len()) == Some(lists),
    decreases lists.len(),
{
    if lists.len() > 0 {
        let list = lists[0];
        let rest = lists.drop_first();
        let bytes = lists_bytes(lists) + tail;
        lists_bytes_front(lists);
        let after = lists_bytes(rest) + tail;
        assert(bytes =~= list_bytes(list) + after);
        assert forall|i: int| 0 <= i < rest.len() implies (#[trigger] rest[i]).len() <= u32::MAX by {
            assert(rest[i] == lists[i + 1]);
        }
        lists_round_trip(rest, tail);
        wire::le_limits();
        wire::le_round_trip(list.len(), 4);
        let head = wire::le_bytes(list.len(), 4);
        assert(bytes.subrange(0, 4) =~= head);
        words_round_trip(head, list, after);
        assert(head + words(list) + after =~= bytes);
        let read = Seq::new(list.len(), |i: int| word_at(bytes, 4, i) as u32);
        assert forall|i: int| 0 <= i < list.len() implies read[i] == list[i] by {
            assert(word_at(bytes, 4, i) == list[i]);
        }
        assert(read =~= list);
        assert(bytes.skip(4 + 4 * list.len() as int) =~= after);
        assert(seq![list] + rest =~= lists);
    } else {
        assert(lists =~= Seq::<Seq<u32>>::empty());
    }
}

proof fn lists_bytes_front(lists: Seq<Seq<u32>>)
    requires
        lists.len() > 0,
    ensures
        lists_bytes(lists) == list_bytes(lists[0]) + lists_bytes(lists.drop_first()),
    decreases lists.len(),
{
    let rest = lists.drop_first();
    if lists.len() > 1 {
        let front = lists.drop_last();
        lists_bytes_front(front);
        assert(front.drop_first() =~= rest.drop_last());
        assert(lists_bytes(lists) =~= list_bytes(lists[0]) + lists_bytes(rest));
    } else {
        assert(lists.drop_last() =~= Seq::<Seq<u32>>::empty());
        assert(rest =~= Seq::<Seq<u32>>::empty());
        assert(lists_bytes(lists) =~= list_bytes(lists[0]) + lists_bytes(rest));
    }
}

/// The stored form of a graph.
pub fn encode_graph(g: &VamanaGraph) -> (bytes: Vec<u8>)
    requires
        forall|i: int|
            0 <= i < g.neighbors@.len() ==> (#[trigger] g.neighbors@[i])@.len() <= u32::MAX,
    ensures
        bytes@ == graph_bytes(g),
{
    let mut buf: Vec<u8> = Vec::new();
    wire::put_u64(&mut buf, g.medoid as u64);
    wire::put_u64(&mut buf, g.neighbors.len() as u64);
    let ghost head = buf@;
    let mut i: usize = 0;
    assert(lists_bytes(g.links().take(0)) =~= Seq::<u8>::empty());
    while i < g.neighbors.len()
        invariant
            i <= g.neighbors@.len(),
            forall|j: int|
                0 <= j < g.neighbors@.len() ==> (#[trigger] g.neighbors@[j])@.len() <= u32::MAX,
            buf@ == head + lists_bytes(g.links().take(i as int)),
        decreases g.neighbors@.len() - i,
    {
        let list = &g.neighbors[i];
        wire::put_u32(&mut buf, list.len() as u32);
        put_words(&mut buf, list);
        proof {
            let next = g.links().take(i + 1);
            assert(next.drop_last() =~= g.links().take(i as int));
            assert(next.last() == list@);
        }
        i += 1;
        assert(buf@ =~= head + lists_bytes(g.links().take(i as int)));
    }
    assert(g.links().take(i as int) =~= g.links());
    assert(buf@ =~= graph_bytes(g));
    buf
}

proof fn lists_fit(bytes: Seq<u8>, n: nat)
    ensures
        parse_lists(bytes, n) matches Some(lists) ==> lists.len() == n && forall|i: int|
            0 <= i < lists.len() ==> (#[trigger] lists[i]).len() <= u32::MAX,
    decreases n,
{
    if n > 0 && bytes.len() >= 4 {
        wire::le_limits();
        let degree = wire::le_value(bytes.subrange(0, 4));
        wire::le_value_is_bounded(bytes.subrange(0, 4));
        lists_fit(bytes.skip(4 + 4 * degree as int), (n - 1) as nat);
    }
}

/// A graph that was read and is stored again is read as before, neighbours that are not there
/// included; of the medoid the low half is kept.
pub proof fn graph_is_written_back(bytes: Seq<u8>, g: &VamanaGraph)
    requires
        parse_graph(bytes) matches Some(read) && g.medoid == read.0 % 0x1_0000_0000 && g.links()
            == read.1,
    ensures
        forall|i: int|
            0 <= i < g.neighbors@.len() ==> (#[trigger] g.neighbors@[i])@.len() <= u32::MAX,
        parse_graph(graph_bytes(g)) == Some((g.medoid as nat, g.links())),
{
    let n = wire::le_value(bytes.subrange(8, 16));
    wire::le_limits();
    wire::le_value_is_bounded(bytes.subrange(8, 16));
    lists_fit(bytes.skip(16), n);
    assert forall|i: int| 0 <= i < g.neighbors@.len() implies (#[trigger] g.neighbors@[i])@.len()
        <= u32::MAX by {
        assert(g.links()[i].len() <= u32::MAX);
    }
    graph_round_trip(g);
}

/// What stored graph bytes are read as: medoid and lists, where the bytes hold them.
pub open spec fn parse_graph(bytes: Seq<u8>) -> Option<(nat, Seq<Seq<u32>>)> {
    if bytes.len() < 16 {
        None
    } else {
        match parse_lists(bytes.skip(16), wire::le_value(bytes.subrange(8, 16))) {
            None => None,
            Some(lists) => Some((wire::le_value(bytes.subrange(0, 8)), lists)),
        }
    }
}

/// A stored graph is read back as it was.
pub proof fn graph_round_trip(g: &VamanaGraph)
    requires
        forall|i: int|
            0 <= i < g.neighbors@.len() ==> (#[trigger] g.neighbors@[i])@.len() <= u32::MAX,
        g.neighbors@.len() <= u64::MAX,
    ensures
        parse_graph(graph_bytes(g)) == Some((g.medoid as nat, g.links())),
{
    let bytes = graph_bytes(g);
    wire::le_limits();
    wire::le_round_trip(g.medoid as nat, 8);
    wire::le_round_trip(g.neighbors@.len(), 8);
    assert(bytes.subrange(0, 8) =~= wire::le_bytes(g.medoid as nat, 8));
    assert(bytes.subrange(8, 16) =~= wire::le_bytes(g.neighbors@.len(), 8));
    assert(bytes.skip(16) =~= lists_bytes(g.links()) + Seq::<u8>::empty());
    assert forall|i: int| 0 <= i < g.links().len() implies (#[trigger] g.links()[i]).len()
        <= u32::MAX by {
        assert(g.neighbors@[i]@.len() <= u32::MAX);
    }
    lists_round_trip(g.links(), Seq::empty());
}

/// `acc` followed by what comes after it, if anything does.
spec fn followed(acc: Seq<Seq<u32>>, rest: Option<Seq<Seq<u32>>>) -> Option<Seq<Seq<u32>>> {
    match rest {
        None => None,
        Some(lists) => Some(acc + lists),
    }
}

/// Reads a stored graph; `None` where the bytes do not hold one. The medoid is the low half of
/// the stored number.
pub fn decode_graph(bytes: &[u8], max_degree: usize, build_beam: usize, alpha: u32) -> (g: Option<
    VamanaGraph,
>)
    ensures
        g is Some <==> parse_graph(bytes@) is Some,
        g matches Some(x) ==> {
            let read = parse_graph(bytes@)->0;
            &&& x.medoid == read.0 % 0x1_0000_0000
            &&& x.links() == read.1
            &&& x.max_degree == max_degree
            &&& x.build_beam == build_beam
            &&& x.alpha == alpha
        },
{
    let len: usize = bytes.len();
    if len < 16 {
        return None;
    }
    let medoid: u64 = wire::get_u64(bytes, 0);
    let n: u64 = wire::get_u64(bytes, 8);
    let ghost goal = parse_lists(bytes@.skip(16), n as nat);
    let mut neighbors: Vec<Vec<u32>> = Vec::new();
    let mut offset: usize = 16;
    let mut i: u64 = 0;
    proof {
        assert(beam::links_of(neighbors@) =~= Seq::<Seq<u32>>::empty());
        if let Some(lists) = goal {
            assert(Seq::<Seq<u32>>::empty() + lists =~= lists);
        }
    }
    while i < n
        invariant
            i <= n,
            len == bytes@.len(),
            16 <= offset <= len,
            n == wire::le_value(bytes@.subrange(8, 16)),
            goal == parse_lists(bytes@.skip(16), n as nat),
            neighbors@.len() == i,
            followed(
                beam::links_of(neighbors@),
                parse_lists(bytes@.skip(offset as int), (n - i) as nat),
            ) == goal,
        decreases n - i,
    {
        let ghost rest = bytes@.skip(offset as int);
        if len - offset < 4 {
            return None;
        }
        let degree: u32 = wire::get_u32(bytes, offset);
        assert(rest.subrange(0, 4) =~= bytes@.subrange(offset as int, offset + 4));
        if (len - offset - 4) / 4 < degree as usize {
            return None;
        }
        let list = get_words(bytes, offset + 4, degree as usize);
        let next: usize = offset + 4 + 4 * degree as usize;
        let ghost done = beam::links_of(neighbors@);
        proof {
            assert(rest.skip(4 + 4 * degree as int) =~= bytes@.skip(next as int));
            let read = Seq::new(degree as nat, |j: int| word_at(rest, 4, j) as u32);
            assert forall|j: int| 0 <= j < degree implies read[j] == list@[j] by {
                assert(rest.subrange(4 + 4 * j, 4 + 4 * j + 4) =~= bytes@.subrange(
                    offset + 4 + 4 * j,
                    offset + 4 + 4 * j + 4,
                ));
                assert(list@[j] == word_at(bytes@, offset + 4, j));
            }
            assert(read =~= list@);
            if let Some(lists) = parse_lists(bytes@.skip(next as int), (n - i - 1) as nat) {
                assert(done + (seq![list@] + lists) =~= done.push(list@) + lists);
            }
        }
        neighbors.push(list);
        assert(beam::links_of(neighbors@) =~= done.push(list@));
        offset = next;
        i += 1;
    }
    proof {
        assert(beam::links_of(neighbors@) + Seq::<Seq<u32>>::empty() =~= beam::links_of(neighbors@));
    }
    Some(
        VamanaGraph {
            neighbors,
            medoid: (medoid % 0x1_0000_0000) as u32,
            max_degree,
            build_beam,
            alpha,
        },
    )
}

/// Whether searches of a graph of `n` nodes stay within it: it has that many lists, the medoid
/// is a node and all neighbours are.
pub fn is_searchable(g: &VamanaGraph, n: usize) -> (r: bool)
    requires
        n <= u32::MAX,
    ensures
        r == (g.neighbors@.len() == n && g.searchable()),
{
    if g.neighbors.len() != n || g.medoid as usize >= n {
        return false;
    }
    let ghost links = g.links();
    let mut i: usize = 0;
    while i < n
        invariant
            i <= n,
            g.neighbors@.len() == n,
            links == g.links(),
            forall|a: int, b: int|
                0 <= a < i && 0 <= b < links[a].len() ==> #[trigger] links[a][b] < n,
        decreases n - i,
    {
        let list = &g.neighbors[i];
        assert(links[i as int] == list@);
        let mut j: usize = 0;
        while j < list.len()
            invariant
                i < n,
                j <= list@.len(),
                g.neighbors@.len() == n,
                links == g.links(),
                links[i as int] == list@,
                forall|b: int| 0 <= b < j ==> #[trigger] links[i as int][b] < n,
            decreases list@.len() - j,
        {
            if list[j] as usize >= n {
                assert(links[i as int][j as int] >= n);
                return false;
            }
            j += 1;
        }
        i += 1;
    }
    true
}

/// The entries of a list that are below `n`.
pub open spec fn nodes_of(list: Seq<u32>, n: nat) -> Seq<u32>
    decreases list.len(),
{
    if list.len() == 0 {
        Seq::empty()
    } else {
        let front = nodes_of(list.drop_last(), n);
        if list.last() < n {
            front.push(list.last())
        } else {
            front
        }
    }
}

/// The lists that a search of `n` vectors goes by: those that were read, where they and the
/// medoid name only vectors that are there. Otherwise neighbours that are not there are left
/// out, and a vector without a list has no neighbours. Where the medoid is not there or has no
/// list there is no way in, and there are no lists.
pub open spec fn tidied(medoid: nat, links: Seq<Seq<u32>>, n: nat) -> Seq<Seq<u32>> {
    if medoid >= links.len() || medoid >= n {
        Seq::empty()
    } else if links.len() <= n && beam::closed_graph(links) {
        links
    } else {
        Seq::new(
            n,
            |i: int|
                if i < links.len() {
                    nodes_of(links[i], n)
                } else {
                    Seq::empty()
                },
        )
    }
}

fn take_nodes(list: &Vec<u32>, n: usize) -> (out: Vec<u32>)
    ensures
        out@ == nodes_of(list@, n as nat),
        forall|j: int| 0 <= j < out@.len() ==> #[trigger] out@[j] < n,
{
    let mut out: Vec<u32> = Vec::new();
    let mut i: usize = 0;
    assert(list@.take(0) =~= Seq::<u32>::empty());
    while i < list.len()
        invariant
            i <= list@.len(),
            out@ == nodes_of(list@.take(i as int), n as nat),
            forall|j: int| 0 <= j < out@.len() ==> #[trigger] out@[j] < n,
        decreases list@.len() - i,
    {
        assert(list@.take(i + 1).drop_last() =~= list@.take(i as int));
        if (list[i] as usize) < n {
            out.push(list[i]);
        }
        i += 1;
    }
    assert(list@.take(i as int) =~= list@);
    out
}

/// Whether a search of `n` vectors can go by a graph as it is: its nodes are vectors, and the
/// medoid and all neighbours are nodes. There may be no node.
pub open spec fn is_sound(g: &VamanaGraph, n: nat) -> bool {
    g.neighbors@.len() <= n && (g.neighbors@.len() > 0 ==> g.searchable())
}

/// A sound graph is searched as it is.
pub proof fn sound_is_tidy(g: &VamanaGraph, n: nat)
    requires
        is_sound(g, n),
    ensures
        tidied(g.medoid as nat, g.links(), n) == g.links(),
{
    assert(g.links().len() == 0 ==> g.links() =~= Seq::<Seq<u32>>::empty());
}

proof fn nodes_are_inside(list: Seq<u32>, n: nat)
    ensures
        forall|j: int| 0 <= j < nodes_of(list, n).len() ==> #[trigger] nodes_of(list, n)[j] < n,
    decreases list.len(),
{
    if list.len() > 0 {
        let front = nodes_of(list.drop_last(), n);
        nodes_are_inside(list.drop_last(), n);
        assert forall|j: int| 0 <= j < nodes_of(list, n).len() implies #[trigger] nodes_of(list, n)[j]
            < n by {
            if j < front.len() {
                assert(nodes_of(list, n)[j] == front[j]);
            }
        }
    }
}

/// The lists that a search goes by name only vectors that are there, and so does the way in.
pub proof fn tidied_holds(medoid: nat, links: Seq<Seq<u32>>, n: nat)
    ensures
        tidied(medoid, links, n).len() <= n,
        beam::closed_graph(tidied(medoid, links, n)),
        tidied(medoid, links, n).len() > 0 ==> medoid < tidied(medoid, links, n).len(),
{
    let t = tidied(medoid, links, n);
    assert forall|a: int, b: int| 0 <= a < t.len() && 0 <= b < t[a].len() implies #[trigger] t[a][b]
        < t.len() by {
        if !(links.len() <= n && beam::closed_graph(links)) {
            if a < links.len() {
                nodes_are_inside(links[a], n);
            }
        }
    }
}

proof fn nodes_are_kept(list: Seq<u32>, n: nat, v: u32)
    ensures
        nodes_of(list, n).contains(v) <==> list.contains(v) && v < n,
    decreases list.len(),
{
    if list.len() > 0 {
        let front = list.drop_last();
        let before = nodes_of(front, n);
        let after = nodes_of(list, n);
        nodes_are_kept(front, n, v);
        nodes_are_inside(list, n);
        if before.contains(v) {
            let i = choose|i: int| 0 <= i < before.len() && before[i] == v;
            assert(after[i] == v);
        }
        if front.contains(v) {
            let i = choose|i: int| 0 <= i < front.len() && front[i] == v;
            assert(list[i] == v);
        }
        if list.contains(v) && v < n {
            let i = choose|i: int| 0 <= i < list.len() && list[i] == v;
            if i < front.len() {
                assert(front[i] == v);
            } else {
                assert(after[after.len() - 1] == v);
            }
        }
        if after.contains(v) {
            let i = choose|i: int| 0 <= i < after.len() && after[i] == v;
            if i < before.len() {
                assert(before[i] == v);
            } else {
                assert(list[list.len() - 1] == v);
            }
        }
    }
}

/// A search goes by all links between vectors that are there, and by no others, wherever there
/// is a way in.
pub proof fn tidied_keeps_links(medoid: nat, links: Seq<Seq<u32>>, n: nat, u: int, v: u32)
    requires
        medoid < links.len(),
        medoid < n,
        0 <= u < n,
    ensures
        u < tidied(medoid, links, n).len() && tidied(medoid, links, n)[u].contains(v) <==> u
            < links.len() && links[u].contains(v) && v < n,
{
    let t = tidied(medoid, links, n);
    if links.len() <= n && beam::closed_graph(links) {
        if u < links.len() && links[u].contains(v) {
            let a = choose|a: int| 0 <= a < links[u].len() && links[u][a] == v;
            assert(links[u][a] < links.len());
        }
    } else if u < links.len() {
        nodes_are_kept(links[u], n, v);
        assert(t[u] == nodes_of(links[u], n));
    }
}

/// The graph with the lists that a search of `n` vectors goes by, or `None` where it can go by
/// the graph as it is.
pub fn tidy(g: &VamanaGraph, n: usize) -> (r: Option<VamanaGraph>)
    requires
        n <= u32::MAX,
    ensures
        r is None <==> is_sound(g, n as nat),
        r matches Some(t) ==> {
            &&& t.links() == tidied(g.medoid as nat, g.links(), n as nat)
            &&& t.medoid == g.medoid
            &&& t.same_shape(g)
            &&& is_sound(&t, n as nat)
        },
{
    let nodes: usize = g.neighbors.len();
    if nodes == 0 || (nodes <= n && is_searchable(g, nodes)) {
        return None;
    }
    let mut neighbors: Vec<Vec<u32>> = Vec::new();
    if g.medoid as usize >= nodes || g.medoid as usize >= n {
        let t = VamanaGraph {
            neighbors,
            medoid: g.medoid,
            max_degree: g.max_degree,
            build_beam: g.build_beam,
            alpha: g.alpha,
        };
        assert(t.links() =~= Seq::<Seq<u32>>::empty());
        return Some(t);
    }
    let ghost goal = tidied(g.medoid as nat, g.links(), n as nat);
    let mut i: usize = 0;
    while i < n
        invariant
            i <= n,
            nodes == g.neighbors@.len(),
            goal.len() == n,
            forall|j: int|
                0 <= j < n ==> #[trigger] goal[j] == (if j < nodes {
                    nodes_of(g.neighbors@[j]@, n as nat)
                } else {
                    Seq::empty()
                }),
            neighbors@.len() == i,
            forall|j: int| 0 <= j < i ==> (#[trigger] neighbors@[j])@ == goal[j],
            forall|j: int, l: int|
                0 <= j < i && 0 <= l < neighbors@[j]@.len() ==> #[trigger] neighbors@[j]@[l] < n,
        decreases n - i,
    {
        let list: Vec<u32> = if i < nodes {
            take_nodes(&g.neighbors[i], n)
        } else {
            Vec::new()
        };
        assert(list@ =~= goal[i as int]);
        neighbors.push(list);
        i += 1;
    }
    let t = VamanaGraph {
        neighbors,
        medoid: g.medoid,
        max_degree: g.max_degree,
        build_beam: g.build_beam,
        alpha: g.alpha,
    };
    assert(t.links() =~= goal);
    assert forall|a: int, b: int|
        0 <= a < t.links().len() && 0 <= b < t.links()[a].len() implies #[trigger] t.links()[a][b]
        < t.links().len() by {
        assert(t.neighbors@[a]@[b] < n);
    }
    Some(t)
}

/// Codes one after another.
pub open spec fn joined(codes: Seq<Vec<u8>>) -> Seq<u8>
    decreases codes.len(),
{
    if codes.len() == 0 {
        Seq::empty()
    } else {
        joined(codes.drop_last()) + codes.last()@
    }
}

/// The stored form of vectors quantised to codes.
pub fn encode_codes(codes: &Vec<Vec<u8>>) -> (bytes: Vec<u8>)
    ensures
        bytes@ == joined(codes@),
{
    let mut buf: Vec<u8> = Vec::new();
    let mut i: usize = 0;
    assert(codes@.take(0) =~= Seq::<Vec<u8>>::empty());
    while i < codes.len()
        invariant
            i <= codes@.len(),
            buf@ == joined(codes@.take(i as int)),
        decreases codes@.len() - i,
    {
        wire::put_bytes(&mut buf, codes[i].as_slice());
        i += 1;
        assert(codes@.take(i as int).drop_last() =~= codes@.take(i - 1));
    }
    assert(codes@.take(i as int) =~= codes@);
    buf
}

/// Code `i` of codes of `m` bytes.
pub open spec fn code_at(bytes: Seq<u8>, m: int, i: int) -> Seq<u8> {
    bytes.subrange(i * m, i * m + m)
}

/// Reads `n` stored codes of `m` bytes; `None` where there are not as many. More may follow.
pub fn decode_codes(bytes: &[u8], n: usize, m: usize) -> (codes: Option<Vec<Vec<u8>>>)
    ensures
        codes is Some <==> n * m <= bytes@.len(),
        codes matches Some(v) ==> v@.len() == n && forall|i: int|
            0 <= i < n ==> (#[trigger] v@[i])@ == code_at(bytes@, m as int, i),
{
    let len: usize = bytes.len();
    proof {
        assert(0 <= n * m <= 0xffff_ffff_ffff_ffff * 0xffff_ffff_ffff_ffff) by (nonlinear_arith)
            requires
                0 <= n <= 0xffff_ffff_ffff_ffff,
                0 <= m <= 0xffff_ffff_ffff_ffff,
        ;
    }
    if n as u128 * m as u128 > len as u128 {
        return None;
    }
    let mut codes: Vec<Vec<u8>> = Vec::new();
    let mut i: usize = 0;
    while i < n
        invariant
            i <= n,
            len == bytes@.len(),
            n * m <= len,
            codes@.len() == i,
            forall|j: int| 0 <= j < i ==> (#[trigger] codes@[j])@ == code_at(bytes@, m as int, j),
        decreases n - i,
    {
        proof {
            assert(i * m + m <= n * m) by (nonlinear_arith)
                requires
                    i + 1 <= n,
                    0 <= m,
            ;
            assert(0 <= i * m) by (nonlinear_arith);
        }
        let start: usize = i * m;
        let code = vstd::slice::slice_subrange(bytes, start, start + m);
        codes.push(vstd::slice::slice_to_vec(code));
        i += 1;
    }
    Some(codes)
}

/// Stored codes of one length are read back as they were.
pub proof fn codes_round_trip(codes: Seq<Vec<u8>>, m: nat)
    requires
        forall|i: int| 0 <= i < codes.len() ==> (#[trigger] codes[i])@.len() == m,
    ensures
        joined(codes).len() == codes.len() * m,
        forall|i: int|
            0 <= i < codes.len() ==> code_at(joined(codes), m as int, i) == (#[trigger] codes[i])@,
    decreases codes.len(),
{
    let n = codes.len() as int;
    if n > 0 {
        let front = codes.drop_last();
        codes_round_trip(front, m);
        assert((n - 1) * m + m == n * m) by (nonlinear_arith);
        assert forall|i: int| 0 <= i < n implies code_at(joined(codes), m as int, i)
            == (#[trigger] codes[i])@ by {
            assert(0 <= i * m && i * m + m <= n * m) by (nonlinear_arith)
                requires
                    0 <= i < n,
                    0 <= m,
            ;
            if i < n - 1 {
                assert(i * m + m <= (n - 1) * m) by (nonlinear_arith)
                    requires
                        0 <= i < n - 1,
                        0 <= m,
                ;
                assert(front[i] == codes[i]);
                assert(code_at(joined(codes), m as int, i) =~= code_at(joined(front), m as int, i));
            } else {
                assert(code_at(joined(codes), m as int, i) =~= codes[i]@);
            }
        }
    } else {
        assert(0 * m == 0) by (nonlinear_arith);
    }
}

} // verus!
