//! Merkle sealing of log segments.
//!
//! An append only stores the record's 16-byte chain MAC as a leaf. Hashing the leaves,
//! building the tree and signing its root happen once for a whole segment. A sealed root
//! can be anchored elsewhere, and each record of the segment can be proven to be in it by
//! a path of logarithmic length.
//!
//! Leaves are hashed as `0x00 || sequence || mac`, inner nodes as `0x01 || left || right`
//! and the signed digest as `0x02 || root || first sequence || count`, so none can be
//! taken for another. The last node of a level of odd width goes up unchanged.
use crate::wire;
use crate::witness::digest;
use vstd::arithmetic::power2::pow2;
use vstd::prelude::*;

verus! {

/// Number of leaves in a segment where nothing else is asked for.
pub const DEFAULT_SEGMENT_SIZE: usize = 256;

/// Deepest tree that a proof can describe (2^32 leaves).
pub const MAX_MERKLE_DEPTH: usize = 32;

const LEAF_DOMAIN: u8 = 0x00;

const NODE_DOMAIN: u8 = 0x01;

const SEAL_DOMAIN: u8 = 0x02;

/// The bytes that a leaf is hashed from.
pub open spec fn leaf_input(sequence: u64, mac: Seq<u8>) -> Seq<u8> {
    seq![0u8] + wire::le_bytes(sequence as nat, 8) + mac
}

/// The bytes that an inner node is hashed from.
pub open spec fn node_input(left: Seq<u8>, right: Seq<u8>) -> Seq<u8> {
    seq![1u8] + left + right
}

/// The bytes that a seal covers.
pub open spec fn seal_input(root: Seq<u8>, first_sequence: u64, count: u32) -> Seq<u8> {
    seq![2u8] + root + wire::le_bytes(first_sequence as nat, 8) + wire::le_bytes(count as nat, 4)
}

/// The hash of a leaf.
pub open spec fn leaf_digest(sequence: u64, mac: Seq<u8>) -> Seq<u8> {
    digest::blake3_of(leaf_input(sequence, mac))
}

/// The hash of an inner node.
pub open spec fn node_digest(left: Seq<u8>, right: Seq<u8>) -> Seq<u8> {
    digest::blake3_of(node_input(left, right))
}

/// The lowest level of the tree over `leaves`, the first of which has number `first`.
pub open spec fn leaf_level(leaves: Seq<[u8; 16]>, first: u64) -> Seq<Seq<u8>> {
    Seq::new(leaves.len(), |i: int| leaf_digest((first + i) as u64, leaves[i]@))
}

/// The level above: neighbours are joined in pairs and an odd last node goes up as it is.
pub open spec fn parent_level(level: Seq<Seq<u8>>) -> Seq<Seq<u8>> {
    Seq::new(
        ((level.len() + 1) / 2) as nat,
        |i: int|
            if 2 * i + 1 < level.len() {
                node_digest(level[2 * i], level[2 * i + 1])
            } else {
                level[2 * i]
            },
    )
}

/// The root of the tree that stands on `level`.
pub open spec fn tree_root(level: Seq<Seq<u8>>) -> Seq<u8>
    decreases level.len(),
{
    if level.len() <= 1 {
        level[0]
    } else {
        tree_root(parent_level(level))
    }
}

proof fn root_of_parents(level: Seq<Seq<u8>>)
    requires
        level.len() > 0,
    ensures
        tree_root(level) == tree_root(parent_level(level)),
{
    if level.len() == 1 {
        assert(parent_level(level)[0] == level[0]);
    }
}

/// The tree splits at the largest power of two below its number of leaves: the root of more
/// than one leaf joins the root over as many leaves as that, and the root over the rest.
pub proof fn root_splits(level: Seq<Seq<u8>>, k: nat)
    requires
        pow2(k) < level.len() <= 2 * pow2(k),
    ensures
        tree_root(level) == node_digest(
            tree_root(level.take(pow2(k) as int)),
            tree_root(level.skip(pow2(k) as int)),
        ),
    decreases k,
{
    let p = pow2(k) as int;
    let left = level.take(p);
    let right = level.skip(p);
    let up = parent_level(level);
    vstd::arithmetic::power2::lemma_pow2_pos(k);
    root_of_parents(level);
    if k == 0 {
        vstd::arithmetic::power2::lemma2_to64();
        assert(level.len() == 2);
        assert(up.len() == 1);
        assert(up[0] == node_digest(level[0], level[1]));
        assert(left[0] == level[0] && right[0] == level[1]);
    } else {
        vstd::arithmetic::power2::lemma_pow2_unfold(k);
        let q = pow2((k - 1) as nat) as int;
        root_splits(up, (k - 1) as nat);
        root_of_parents(left);
        root_of_parents(right);
        assert(parent_level(left) =~= up.take(q)) by {
            assert forall|i: int| 0 <= i < q implies parent_level(left)[i] == up.take(q)[i] by {
                assert(left[2 * i] == level[2 * i] && left[2 * i + 1] == level[2 * i + 1]);
            }
        }
        assert(parent_level(right) =~= up.skip(q)) by {
            assert forall|i: int| 0 <= i < up.len() - q implies parent_level(right)[i] == up.skip(
                q,
            )[i] by {
                assert(right[2 * i] == level[2 * (q + i)]);
                if 2 * i + 1 < right.len() {
                    assert(right[2 * i + 1] == level[2 * (q + i) + 1]);
                }
            }
        }
    }
}

/// The neighbour with which node `index` of a level is joined.
pub open spec fn sibling_of(index: int) -> int {
    if index % 2 == 0 {
        index + 1
    } else {
        index - 1
    }
}

/// The siblings met on the way up from node `index`; `None` where the node has none.
pub open spec fn tree_path(level: Seq<Seq<u8>>, index: int) -> Seq<Option<Seq<u8>>>
    decreases level.len(),
{
    if level.len() <= 1 {
        Seq::empty()
    } else {
        let sibling = sibling_of(index);
        let step = if sibling < level.len() {
            Some(level[sibling])
        } else {
            None
        };
        seq![step] + tree_path(parent_level(level), index / 2)
    }
}

/// One step up: the hash of the parent of a node with hash `hash` at `index`.
pub open spec fn climb_step(hash: Seq<u8>, index: int, step: Option<Seq<u8>>) -> Seq<u8> {
    match step {
        Some(sibling) => if index % 2 == 0 {
            node_digest(hash, sibling)
        } else {
            node_digest(sibling, hash)
        },
        None => hash,
    }
}

/// The hash reached by following `path` up from a node with hash `hash` at `index`.
pub open spec fn climb(hash: Seq<u8>, index: int, path: Seq<Option<Seq<u8>>>) -> Seq<u8>
    decreases path.len(),
{
    if path.len() == 0 {
        hash
    } else {
        climb(climb_step(hash, index, path[0]), index / 2, path.drop_first())
    }
}

/// Following the path of a node leads to the root.
pub proof fn path_leads_to_root(level: Seq<Seq<u8>>, index: int)
    requires
        0 <= index < level.len(),
    ensures
        climb(level[index], index, tree_path(level, index)) == tree_root(level),
    decreases level.len(),
{
    if level.len() > 1 {
        let up = parent_level(level);
        let path = tree_path(level, index);
        assert(path.drop_first() =~= tree_path(up, index / 2));
        assert(climb_step(level[index], index, path[0]) == up[index / 2]);
        path_leads_to_root(up, index / 2);
    }
}

/// A path is no longer than the logarithm of the width.
pub proof fn path_is_short(level: Seq<Seq<u8>>, index: int, depth: nat)
    requires
        level.len() <= vstd::arithmetic::power2::pow2(depth),
    ensures
        tree_path(level, index).len() <= depth,
    decreases depth,
{
    vstd::arithmetic::power2::lemma2_to64();
    if level.len() > 1 {
        if depth > 0 {
            vstd::arithmetic::power2::lemma_pow2_unfold(depth);
            path_is_short(parent_level(level), index / 2, (depth - 1) as nat);
        }
    }
}

/// Width of level `l` of the tree over `n` leaves: each level has half as many nodes, rounded
/// up.
pub open spec fn width_at(n: nat, l: nat) -> nat
    decreases l,
{
    if l == 0 {
        n
    } else {
        width_at(((n + 1) / 2) as nat, (l - 1) as nat)
    }
}

/// Place on level `l` of what stands above node `index`.
pub open spec fn place_at(index: int, l: nat) -> int
    decreases l,
{
    if l == 0 {
        index
    } else {
        place_at(index / 2, (l - 1) as nat)
    }
}

/// A path has a step for each level below the root, and a sibling on exactly those levels on
/// which there is a node beside. Levels past its end have one node.
pub proof fn path_shape(level: Seq<Seq<u8>>, index: int, l: nat)
    requires
        level.len() > 0,
    ensures
        ({
            let path = tree_path(level, index);
            &&& l < path.len() <==> width_at(level.len(), l) > 1
            &&& l < path.len() ==> (path[l as int] is Some <==> sibling_of(place_at(index, l))
                < width_at(level.len(), l))
        }),
    decreases l,
{
    let path = tree_path(level, index);
    if level.len() > 1 {
        if l > 0 {
            let up = parent_level(level);
            path_shape(up, index / 2, (l - 1) as nat);
            assert(path.drop_first() =~= tree_path(up, index / 2));
            if l < path.len() {
                assert(path[l as int] == path.drop_first()[l - 1]);
            }
        }
    } else if l > 0 {
        path_shape(level, index / 2, (l - 1) as nat);
    }
}

/// The three hashed forms never coincide: each starts with a byte of its own.
pub proof fn domains_are_separate(
    sequence: u64,
    mac: Seq<u8>,
    left: Seq<u8>,
    right: Seq<u8>,
    root: Seq<u8>,
    first_sequence: u64,
    count: u32,
)
    ensures
        leaf_input(sequence, mac) != node_input(left, right),
        leaf_input(sequence, mac) != seal_input(root, first_sequence, count),
        node_input(left, right) != seal_input(root, first_sequence, count),
{
    assert(leaf_input(sequence, mac)[0] == 0);
    assert(node_input(left, right)[0] == 1);
    assert(seal_input(root, first_sequence, count)[0] == 2);
}

/// What a leaf is hashed from determines its sequence number and its MAC.
pub proof fn leaf_input_binds(s1: u64, mac1: Seq<u8>, s2: u64, mac2: Seq<u8>)
    requires
        leaf_input(s1, mac1) == leaf_input(s2, mac2),
    ensures
        s1 == s2,
        mac1 == mac2,
{
    wire::le_limits();
    wire::le_round_trip(s1 as nat, 8);
    wire::le_round_trip(s2 as nat, 8);
    let a = leaf_input(s1, mac1);
    let b = leaf_input(s2, mac2);
    assert(a.subrange(1, 9) =~= wire::le_bytes(s1 as nat, 8));
    assert(b.subrange(1, 9) =~= wire::le_bytes(s2 as nat, 8));
    assert(a.skip(9) =~= mac1);
    assert(b.skip(9) =~= mac2);
}

/// What an inner node is hashed from determines its two children.
pub proof fn node_input_binds(l1: Seq<u8>, r1: Seq<u8>, l2: Seq<u8>, r2: Seq<u8>)
    requires
        l1.len() == l2.len(),
        node_input(l1, r1) == node_input(l2, r2),
    ensures
        l1 == l2,
        r1 == r2,
{
    let a = node_input(l1, r1);
    let b = node_input(l2, r2);
    let n = l1.len() as int;
    assert(a.subrange(1, n + 1) =~= l1);
    assert(b.subrange(1, n + 1) =~= l2);
    assert(a.skip(n + 1) =~= r1);
    assert(b.skip(n + 1) =~= r2);
}

/// What a seal covers determines the root and the range of sequence numbers, so a
/// signature cannot be moved to another place in the log.
pub proof fn seal_input_binds(
    root1: Seq<u8>,
    first1: u64,
    count1: u32,
    root2: Seq<u8>,
    first2: u64,
    count2: u32,
)
    requires
        root1.len() == root2.len(),
        seal_input(root1, first1, count1) == seal_input(root2, first2, count2),
    ensures
        root1 == root2,
        first1 == first2,
        count1 == count2,
{
    wire::le_limits();
    wire::le_round_trip(first1 as nat, 8);
    wire::le_round_trip(first2 as nat, 8);
    wire::le_round_trip(count1 as nat, 4);
    wire::le_round_trip(count2 as nat, 4);
    let a = seal_input(root1, first1, count1);
    let b = seal_input(root2, first2, count2);
    let n = root1.len() as int;
    assert(a.subrange(1, n + 1) =~= root1);
    assert(b.subrange(1, n + 1) =~= root2);
    assert(a.subrange(n + 1, n + 9) =~= wire::le_bytes(first1 as nat, 8));
    assert(b.subrange(n + 1, n + 9) =~= wire::le_bytes(first2 as nat, 8));
    assert(a.skip(n + 9) =~= wire::le_bytes(count1 as nat, 4));
    assert(b.skip(n + 9) =~= wire::le_bytes(count2 as nat, 4));
}

/// Signs sealed roots and checks such signatures.
pub trait SegmentSealSigner {
    /// Whether signing `digest` can give `signature`.
    spec fn may_sign(&self, digest: Seq<u8>, signature: Seq<u8>) -> bool;

    /// Whether `signature` is good for `digest`.
    spec fn accepts(&self, digest: Seq<u8>, signature: Seq<u8>) -> bool;

    /// A 64-byte signature over a 32-byte seal digest.
    fn sign_root(&self, digest: &[u8; 32]) -> (signature: [u8; 64])
        ensures
            self.may_sign(digest@, signature@),
    ;

    /// Whether a 64-byte signature over a 32-byte seal digest is good.
    fn verify_root(&self, digest: &[u8; 32], signature: &[u8; 64]) -> (good: bool)
        ensures
            good == self.accepts(digest@, signature@),
    ;
}

/// Seal signer with one shared key: the signature is the keyed digest, padded with zeros.
/// Whoever can check such a signature can also make it.
#[derive(Clone)]
pub struct Blake3SealSigner {
    key: [u8; 32],
}

impl Blake3SealSigner {
    /// The signer's key.
    pub closed spec fn key(&self) -> Seq<u8> {
        self.key@
    }

    /// The one signature that this signer makes and accepts for `digest`.
    pub open spec fn signature_of(&self, digest: Seq<u8>) -> Seq<u8> {
        digest::keyed_blake3_of(self.key(), digest) + Seq::new(32, |i: int| 0u8)
    }

    /// A signer with the given key.
    pub fn new(key: [u8; 32]) -> (signer: Self)
        ensures
            signer.key() == key@,
    {
        Blake3SealSigner { key }
    }

    fn mac(&self, digest: &[u8; 32]) -> (mac: [u8; 32])
        ensures
            mac@ == digest::keyed_blake3_of(self.key(), digest@),
    {
        digest::keyed_hash(&self.key, digest.as_slice())
    }
}

impl SegmentSealSigner for Blake3SealSigner {
    open spec fn may_sign(&self, digest: Seq<u8>, signature: Seq<u8>) -> bool {
        signature == self.signature_of(digest)
    }

    open spec fn accepts(&self, digest: Seq<u8>, signature: Seq<u8>) -> bool {
        signature == self.signature_of(digest)
    }

    fn sign_root(&self, digest: &[u8; 32]) -> (signature: [u8; 64]) {
        let mac = self.mac(digest);
        let mut signature = [0u8;64];
        let mut i: usize = 0;
        while i < 32
            invariant
                i <= 32,
                forall|j: int| 0 <= j < i ==> signature@[j] == mac@[j],
                forall|j: int| i <= j < 64 ==> signature@[j] == 0,
            decreases 32 - i,
        {
            signature[i] = mac[i];
            i += 1;
        }
        assert(signature@ =~= self.signature_of(digest@));
        signature
    }

    fn verify_root(&self, digest: &[u8; 32], signature: &[u8; 64]) -> (good: bool) {
        let expected = self.sign_root(digest);
        digest::same_bytes(expected.as_slice(), signature.as_slice())
    }
}

/// The hash of the leaf of a record with this sequence number and chain MAC.
pub fn leaf_hash(sequence: u64, mac: &[u8; 16]) -> (hash: [u8; 32])
    ensures
        hash@ == leaf_digest(sequence, mac@),
{
    let mut buf: Vec<u8> = Vec::new();
    buf.push(LEAF_DOMAIN);
    wire::put_u64(&mut buf, sequence);
    wire::put_bytes(&mut buf, mac.as_slice());
    assert(buf@ =~= leaf_input(sequence, mac@));
    digest::hash(buf.as_slice())
}

fn node_hash(left: &[u8; 32], right: &[u8; 32]) -> (hash: [u8; 32])
    ensures
        hash@ == node_digest(left@, right@),
{
    let mut buf: Vec<u8> = Vec::new();
    buf.push(NODE_DOMAIN);
    wire::put_bytes(&mut buf, left.as_slice());
    wire::put_bytes(&mut buf, right.as_slice());
    assert(buf@ =~= node_input(left@, right@));
    digest::hash(buf.as_slice())
}

/// The digest that a seal signature covers: root, first sequence number and count.
pub fn seal_digest(root: &[u8; 32], first_sequence: u64, count: u32) -> (digest: [u8; 32])
    ensures
        digest@ == digest::blake3_of(seal_input(root@, first_sequence, count)),
{
    let mut buf: Vec<u8> = Vec::new();
    buf.push(SEAL_DOMAIN);
    wire::put_bytes(&mut buf, root.as_slice());
    wire::put_u64(&mut buf, first_sequence);
    wire::put_u32(&mut buf, count);
    assert(buf@ =~= seal_input(root@, first_sequence, count));
    digest::hash(buf.as_slice())
}

/// A sealed segment, ready to be exported.
#[derive(Debug, Clone, Copy, PartialEq, Eq)]
pub struct SealedSegment {
    /// Merkle root over the chain MACs of the segment's records.
    pub root: [u8; 32],
    /// Sequence number of the first record.
    pub first_sequence: u64,
    /// Number of records.
    pub count: u32,
    /// Signature over the seal digest of root, first sequence number and count.
    pub signature: [u8; 64],
}

impl SealedSegment {
    /// The digest that the signature covers.
    pub open spec fn digest(&self) -> Seq<u8> {
        digest::blake3_of(seal_input(self.root@, self.first_sequence, self.count))
    }
}

/// Whether a sealed segment's signature is good.
pub fn verify_seal<G: SegmentSealSigner>(segment: &SealedSegment, signer: &G) -> (good: bool)
    ensures
        good == signer.accepts(segment.digest(), segment.signature@),
{
    let digest = seal_digest(&segment.root, segment.first_sequence, segment.count);
    signer.verify_root(&digest, &segment.signature)
}

/// A segment sealed with a shared key is accepted by a signer with that key.
pub proof fn shared_key_seal_is_accepted(
    signer: Blake3SealSigner,
    verifier: Blake3SealSigner,
    segment: SealedSegment,
)
    requires
        signer.key() == verifier.key(),
        signer.may_sign(segment.digest(), segment.signature@),
    ensures
        verifier.accepts(segment.digest(), segment.signature@),
{
}

/// Proof that one record is in a sealed segment.
#[derive(Debug, Clone, Copy)]
pub struct MerkleProof {
    /// Sibling hashes from the leaf upward; only the first `depth` count.
    pub siblings: [[u8; 32]; 32],
    /// Whether there is a sibling at each level.
    pub present: [bool; 32],
    /// Number of levels above the leaves.
    pub depth: u8,
    /// Place of the leaf within the segment.
    pub index: u32,
    /// Sequence number of the record.
    pub sequence: u64,
}

impl MerkleProof {
    /// The steps of the proof from level `from` on.
    pub open spec fn steps(&self, from: int) -> Seq<Option<Seq<u8>>> {
        Seq::new(
            (self.depth - from) as nat,
            |i: int|
                if self.present@[from + i] {
                    Some(self.siblings@[from + i]@)
                } else {
                    None
                },
        )
    }

    /// The siblings along the way up.
    pub open spec fn path(&self) -> Seq<Option<Seq<u8>>> {
        self.steps(0)
    }

    /// Levels that the path does not have are marked absent, and where a level is marked
    /// absent its sibling is all zeros.
    pub open spec fn is_clean(&self) -> bool {
        &&& forall|l: int| self.depth <= l < 32 ==> !#[trigger] self.present@[l]
        &&& forall|l: int|
            0 <= l < 32 && !self.present@[l] ==> (#[trigger] self.siblings@[l])@ == Seq::new(
                32,
                |i: int| 0u8,
            )
    }

    /// The root that the proof leads to from a record with this chain MAC.
    pub open spec fn leads_to(&self, chain_mac: Seq<u8>) -> Seq<u8> {
        climb(leaf_digest(self.sequence, chain_mac), self.index as int, self.path())
    }
}

/// Whether `proof` shows that a record with this chain MAC is in the segment with this root.
pub fn verify_inclusion(root: &[u8; 32], chain_mac: &[u8; 16], proof: &MerkleProof) -> (good: bool)
    ensures
        good == (proof.depth <= MAX_MERKLE_DEPTH && proof.leads_to(chain_mac@) == root@),
{
    if proof.depth as usize > MAX_MERKLE_DEPTH {
        return false;
    }
    let depth: usize = proof.depth as usize;
    let mut hash = leaf_hash(proof.sequence, chain_mac);
    let mut index: u32 = proof.index;
    let mut level: usize = 0;
    while level < depth
        invariant
            level <= depth <= 32,
            depth == proof.depth,
            climb(hash@, index as int, proof.steps(level as int)) == proof.leads_to(chain_mac@),
        decreases depth - level,
    {
        let ghost steps = proof.steps(level as int);
        assert(steps.drop_first() =~= proof.steps(level + 1));
        assert(index & 1 == index % 2 && index >> 1 == index / 2) by (bit_vector);
        if proof.present[level] {
            hash = if index & 1 == 0 {
                node_hash(&hash, &proof.siblings[level])
            } else {
                node_hash(&proof.siblings[level], &hash)
            };
        }
        index = index >> 1;
        level += 1;
    }
    digest::same_bytes(hash.as_slice(), root.as_slice())
}

/// Leaves of one segment, at most `S` of them.
#[derive(Clone, Copy)]
pub struct SegmentAccumulator<const S: usize> {
    leaves: [[u8; 16]; S],
    first_sequence: u64,
    len: usize,
}

impl<const S: usize> View for SegmentAccumulator<S> {
    type V = Seq<[u8; 16]>;

    /// The chain MACs taken in so far.
    closed spec fn view(&self) -> Seq<[u8; 16]> {
        self.leaves@.take(self.len as int)
    }
}

impl<const S: usize> SegmentAccumulator<S> {
    /// No more leaves than there is room for.
    pub closed spec fn wf(&self) -> bool {
        self.len <= S
    }

    /// Sequence number of the record of the first leaf.
    pub closed spec fn first(&self) -> u64 {
        self.first_sequence
    }

    /// The sequence number of every leaf fits in 64 bits.
    pub open spec fn numbered(&self) -> bool {
        self.first() + self@.len() <= 0x1_0000_0000_0000_0000
    }

    /// The lowest level of the segment's tree.
    pub open spec fn level(&self) -> Seq<Seq<u8>> {
        leaf_level(self@, self.first())
    }

    /// The root of the segment's tree.
    pub open spec fn root(&self) -> Seq<u8> {
        tree_root(self.level())
    }

    /// There is room for `S` leaves and no more.
    pub proof fn at_most_full(&self)
        requires
            self.wf(),
        ensures
            self@.len() <= S,
    {
    }

    /// An empty accumulator whose first leaf will be that of record `first_sequence`.
    pub fn new(first_sequence: u64) -> (acc: Self)
        ensures
            acc.wf(),
            acc@ == Seq::<[u8; 16]>::empty(),
            acc.first() == first_sequence,
    {
        let acc = SegmentAccumulator {
            leaves: vstd::array::array_fill_for_copy_types([0u8;16]),
            first_sequence,
            len: 0,
        };
        assert(acc@ =~= Seq::<[u8; 16]>::empty());
        acc
    }

    /// Takes in the chain MAC of the next record; `false` where the segment was full, and
    /// the leaf is dropped.
    pub fn push(&mut self, chain_mac: [u8; 16]) -> (taken: bool)
        requires
            old(self).wf(),
        ensures
            final(self).wf(),
            final(self).first() == old(self).first(),
            taken == (old(self)@.len() < S),
            final(self)@ == (if taken {
                old(self)@.push(chain_mac)
            } else {
                old(self)@
            }),
    {
        if self.len >= S {
            return false;
        }
        let at: usize = self.len;
        self.leaves[at] = chain_mac;
        self.len = at + 1;
        assert(self@ =~= old(self)@.push(chain_mac));
        true
    }

    /// Number of leaves.
    pub fn len(&self) -> (n: usize)
        requires
            self.wf(),
        ensures
            n == self@.len(),
    {
        self.len
    }

    /// Whether there is no leaf yet.
    pub fn is_empty(&self) -> (r: bool)
        requires
            self.wf(),
        ensures
            r == (self@.len() == 0),
    {
        self.len == 0
    }

    /// Whether there is no room for another leaf.
    pub fn is_full(&self) -> (r: bool)
        requires
            self.wf(),
        ensures
            r == (self@.len() == S),
    {
        self.len >= S
    }

    /// Sequence number of the first record.
    pub fn first_sequence(&self) -> (first: u64)
        ensures
            first == self.first(),
    {
        self.first_sequence
    }

    fn hashed_leaves(&self) -> (level: Vec<[u8; 32]>)
        requires
            self.wf(),
            self.numbered(),
        ensures
            level@.len() == self@.len(),
            forall|i: int| 0 <= i < level@.len() ==> #[trigger] level@[i]@ == self.level()[i],
    {
        let mut level: Vec<[u8; 32]> = Vec::new();
        let mut i: usize = 0;
        while i < self.len
            invariant
                self.wf(),
                self.numbered(),
                i <= self.len,
                level@.len() == i,
                forall|j: int| 0 <= j < i ==> #[trigger] level@[j]@ == self.level()[j],
            decreases self.len - i,
        {
            let hash = leaf_hash(self.first_sequence + i as u64, &self.leaves[i]);
            level.push(hash);
            i += 1;
        }
        level
    }

    /// The root of the tree over the leaves, if there is one.
    pub fn compute_root(&self) -> (root: Option<[u8; 32]>)
        requires
            self.wf(),
            self.numbered(),
        ensures
            root is Some <==> self@.len() > 0,
            root matches Some(r) ==> r@ == self.root(),
    {
        if self.len == 0 {
            return None;
        }
        let mut level = self.hashed_leaves();
        assert(views(level@) =~= self.level());
        while level.len() > 1
            invariant
                level@.len() > 0,
                tree_root(views(level@)) == self.root(),
            decreases level@.len(),
        {
            let up = next_level(&level);
            level = up;
        }
        Some(level[0])
    }

    /// `p` is the proof that the leaf at `offset` is in the segment.
    pub open spec fn is_proof(&self, p: &MerkleProof, offset: int) -> bool {
        &&& p.index == offset
        &&& p.sequence == self.first() + offset
        &&& p.depth <= MAX_MERKLE_DEPTH
        &&& p.path() == tree_path(self.level(), offset)
        &&& p.is_clean()
    }

    /// There is one proof for each leaf.
    pub proof fn one_proof(&self, p: MerkleProof, q: MerkleProof, offset: int)
        requires
            self.is_proof(&p, offset),
            self.is_proof(&q, offset),
        ensures
            p == q,
    {
        let path = p.path();
        assert(p.depth == path.len() && q.depth == path.len());
        assert forall|l: int| 0 <= l < 32 implies #[trigger] p.present@[l] == q.present@[l] by {
            if l < path.len() {
                assert(p.path()[l] == q.path()[l]);
            }
        }
        assert forall|l: int| 0 <= l < 32 implies #[trigger] p.siblings@[l] == q.siblings@[l] by {
            assert(p.present@[l] == q.present@[l]);
            if l < path.len() {
                assert(p.path()[l] == q.path()[l]);
            }
            assert(p.siblings@[l]@ == q.siblings@[l]@);
            assert(p.siblings@[l] =~= q.siblings@[l]);
        }
        assert(p.present =~= q.present);
        assert(p.siblings =~= q.siblings);
    }

    /// The shape of a proof: as many levels as the tree has below its root, a sibling on those
    /// on which there is a node beside, and first of all the leaf beside.
    pub proof fn proof_shape(&self, p: MerkleProof, offset: int, l: nat)
        requires
            self.is_proof(&p, offset),
            0 <= offset < self@.len(),
            l < 32,
        ensures
            l < p.depth <==> width_at(self@.len(), l) > 1,
            p.present@[l as int] <==> l < p.depth && sibling_of(place_at(offset, l)) < width_at(
                self@.len(),
                l,
            ),
            p.present@[0] ==> p.siblings@[0]@ == leaf_digest(
                (self.first() + sibling_of(offset)) as u64,
                self@[sibling_of(offset)]@,
            ),
    {
        let path = p.path();
        path_shape(self.level(), offset, l);
        path_shape(self.level(), offset, 0);
        assert(p.depth == path.len());
        if l < path.len() {
            assert(path[l as int] is Some <==> p.present@[l as int]);
        }
        if p.present@[0] {
            assert(0 < p.depth);
            assert(path[0] == Some(p.siblings@[0]@));
        }
    }

    /// The proof that the leaf at `offset` is in the segment; `None` past the last leaf.
    pub fn inclusion_proof(&self, offset: usize) -> (proof: Option<MerkleProof>)
        requires
            self.wf(),
            self.numbered(),
            self@.len() <= 0x1_0000_0000,
        ensures
            proof is Some <==> offset < self@.len(),
            proof matches Some(p) ==> self.is_proof(&p, offset as int),
    {
        if offset >= self.len {
            return None;
        }
        let mut siblings = [[0u8;32];32];
        let mut present = [false;32];
        let mut level = self.hashed_leaves();
        let mut index: usize = offset;
        let mut depth: usize = 0;
        let ghost whole = tree_path(self.level(), offset as int);
        proof {
            assert(views(level@) =~= self.level());
            vstd::arithmetic::power2::lemma2_to64();
            path_is_short(self.level(), offset as int, 32);
            assert(whole.skip(0) =~= whole);
        }
        while level.len() > 1
            invariant
                index < level@.len(),
                depth <= whole.len() <= 32,
                whole.skip(depth as int) == tree_path(views(level@), index as int),
                forall|i: int|
                    0 <= i < depth ==> present@[i] == (#[trigger] whole[i] is Some) && (whole[i]
                        is Some ==> siblings@[i]@ == whole[i]->0),
                forall|i: int| depth <= i < 32 ==> !#[trigger] present@[i],
                forall|i: int|
                    0 <= i < 32 && !present@[i] ==> (#[trigger] siblings@[i])@ == Seq::new(
                        32,
                        |j: int| 0u8,
                    ),
            decreases level@.len(),
        {
            let ghost here = tree_path(views(level@), index as int);
            assert(here.len() > 0);
            assert(here[0] == whole[depth as int]);
            let sibling: usize = if index % 2 == 0 {
                index + 1
            } else {
                index - 1
            };
            if sibling < level.len() {
                siblings[depth] = level[sibling];
                present[depth] = true;
            }
            let up = next_level(&level);
            proof {
                assert(here.drop_first() =~= tree_path(views(up@), (index / 2) as int));
                assert(whole.skip(depth + 1) =~= whole.skip(depth as int).drop_first());
            }
            level = up;
            index = index / 2;
            depth += 1;
        }
        assert(whole.skip(depth as int).len() == 0);
        let proof = MerkleProof {
            siblings,
            present,
            depth: depth as u8,
            index: offset as u32,
            sequence: self.first_sequence + offset as u64,
        };
        assert(proof.path() =~= whole);
        Some(proof)
    }

    /// The proof for the record with the given sequence number: that of the leaf at its distance
    /// from the first.
    pub fn proof_for_sequence(&self, sequence: u64) -> (proof: Option<MerkleProof>)
        requires
            self.wf(),
            self.numbered(),
            self@.len() <= 0x1_0000_0000,
        ensures
            proof is Some <==> self.first() <= sequence < self.first() + self@.len(),
            proof matches Some(p) ==> self.is_proof(&p, sequence - self.first()),
    {
        if sequence < self.first_sequence {
            return None;
        }
        let offset: u64 = sequence - self.first_sequence;
        if offset >= self.len as u64 {
            return None;
        }
        self.inclusion_proof(offset as usize)
    }

    /// The chain MAC of the leaf at `offset`.
    pub fn leaf(&self, offset: usize) -> (mac: Option<[u8; 16]>)
        requires
            self.wf(),
        ensures
            mac == (if offset < self@.len() {
                Some(self@[offset as int])
            } else {
                None::<[u8; 16]>
            }),
    {
        if offset >= self.len {
            return None;
        }
        Some(self.leaves[offset])
    }

    /// Computes the root and signs it together with the range of sequence numbers; `None`
    /// where there is no leaf. The count is kept to 32 bits.
    pub fn seal<G: SegmentSealSigner>(&self, signer: &G) -> (sealed: Option<SealedSegment>)
        requires
            self.wf(),
            self.numbered(),
        ensures
            sealed is Some <==> self@.len() > 0,
            sealed matches Some(s) ==> {
                &&& s.root@ == self.root()
                &&& s.first_sequence == self.first()
                &&& s.count == self@.len() % 0x1_0000_0000
                &&& signer.may_sign(s.digest(), s.signature@)
            },
    {
        match self.compute_root() {
            None => None,
            Some(root) => {
                let count: u32 = (self.len as u64 % 0x1_0000_0000) as u32;
                let digest = seal_digest(&root, self.first_sequence, count);
                let signature = signer.sign_root(&digest);
                Some(
                    SealedSegment {
                        root,
                        first_sequence: self.first_sequence,
                        count,
                        signature,
                    },
                )
            },
        }
    }
}

/// Every proof that an accumulator gives for a leaf leads from that leaf's chain MAC to
/// the accumulator's root.
pub proof fn inclusion_proofs_hold<const S: usize>(
    acc: SegmentAccumulator<S>,
    offset: int,
    proof: MerkleProof,
)
    requires
        acc.numbered(),
        0 <= offset < acc@.len(),
        proof.index == offset,
        proof.sequence == acc.first() + offset,
        proof.path() == tree_path(acc.level(), offset),
    ensures
        proof.leads_to(acc@[offset]@) == acc.root(),
{
    path_leads_to_root(acc.level(), offset);
}

/// BLAKE3 maps two different inputs to one digest.
pub open spec fn digests_collide() -> bool {
    exists|x: Seq<u8>, y: Seq<u8>|
        x != y && #[trigger] digest::blake3_of(x) == #[trigger] digest::blake3_of(y)
}

/// Every digest has 32 bytes.
pub open spec fn digests_are_full() -> bool {
    forall|x: Seq<u8>| (#[trigger] digest::blake3_of(x)).len() == 32
}

/// A hash occurs in the tree that stands on `level`.
pub open spec fn in_tree(level: Seq<Seq<u8>>, hash: Seq<u8>) -> bool
    decreases level.len(),
{
    level.contains(hash) || (level.len() > 1 && in_tree(parent_level(level), hash))
}

proof fn root_is_in_tree(level: Seq<Seq<u8>>)
    requires
        level.len() > 0,
    ensures
        in_tree(level, tree_root(level)),
    decreases level.len(),
{
    if level.len() > 1 {
        root_is_in_tree(parent_level(level));
    } else {
        assert(level[0] == tree_root(level));
    }
}

/// A node of the tree above its lowest level stands on two hashes of the tree.
proof fn children_are_in_tree(level: Seq<Seq<u8>>, left: Seq<u8>, right: Seq<u8>)
    requires
        in_tree(level, node_digest(left, right)),
        !digests_collide(),
        digests_are_full(),
        left.len() == 32,
        forall|i: int| 0 <= i < level.len() ==> (#[trigger] level[i]).len() == 32,
    ensures
        level.contains(node_digest(left, right)) || (in_tree(level, left) && in_tree(level, right)),
    decreases level.len(),
{
    let hash = node_digest(left, right);
    if !level.contains(hash) {
        let up = parent_level(level);
        children_are_in_tree(up, left, right);
        if up.contains(hash) {
            let i = choose|i: int| 0 <= i < up.len() && up[i] == hash;
            if 2 * i + 1 < level.len() {
                let l = level[2 * i];
                let r = level[2 * i + 1];
                assert(digest::blake3_of(node_input(l, r)) == digest::blake3_of(
                    node_input(left, right),
                ));
                node_input_binds(l, r, left, right);
            } else {
                assert(level[2 * i] == hash);
            }
        }
    }
}

/// The hash of a leaf occurs only at the lowest level.
proof fn leaf_is_at_bottom(level: Seq<Seq<u8>>, sequence: u64, mac: Seq<u8>)
    requires
        in_tree(level, leaf_digest(sequence, mac)),
        !digests_collide(),
    ensures
        level.contains(leaf_digest(sequence, mac)),
    decreases level.len(),
{
    let hash = leaf_digest(sequence, mac);
    if !level.contains(hash) {
        let up = parent_level(level);
        leaf_is_at_bottom(up, sequence, mac);
        let i = choose|i: int| 0 <= i < up.len() && up[i] == hash;
        if 2 * i + 1 < level.len() {
            let l = level[2 * i];
            let r = level[2 * i + 1];
            domains_are_separate(sequence, mac, l, r, Seq::empty(), 0, 0);
            assert(digest::blake3_of(leaf_input(sequence, mac)) == digest::blake3_of(
                node_input(l, r),
            ));
        } else {
            assert(level[2 * i] == hash);
        }
    }
}

/// What a climb that ends in the tree started from is in the tree.
proof fn climb_starts_in_tree(
    leaves: Seq<[u8; 16]>,
    first: u64,
    hash: Seq<u8>,
    index: int,
    path: Seq<Option<Seq<u8>>>,
)
    requires
        in_tree(leaf_level(leaves, first), climb(hash, index, path)),
        !digests_collide(),
        digests_are_full(),
        hash.len() == 32,
        forall|i: int| 0 <= i < path.len() && #[trigger] path[i] is Some ==> path[i]->0.len() == 32,
    ensures
        in_tree(leaf_level(leaves, first), hash),
    decreases path.len(),
{
    if path.len() > 0 {
        let level = leaf_level(leaves, first);
        let up = climb_step(hash, index, path[0]);
        let rest = path.drop_first();
        assert forall|i: int| 0 <= i < rest.len() && #[trigger] rest[i] is Some implies rest[i]->0.len()
            == 32 by {
            assert(path[i + 1] is Some);
        }
        climb_starts_in_tree(leaves, first, up, index / 2, rest);
        if path[0] is Some {
            let sibling = path[0]->0;
            let (left, right) = if index % 2 == 0 {
                (hash, sibling)
            } else {
                (sibling, hash)
            };
            children_are_in_tree(level, left, right);
            if level.contains(up) {
                let i = choose|i: int| 0 <= i < level.len() && level[i] == up;
                let s = (first + i) as u64;
                let mac = leaves[i]@;
                domains_are_separate(s, mac, left, right, Seq::empty(), 0, 0);
                assert(digest::blake3_of(leaf_input(s, mac)) == digest::blake3_of(
                    node_input(left, right),
                ));
            }
        }
    }
}

/// A proof that leads to the root of a segment is a proof for a record of that segment,
/// whoever made it: the segment holds its chain MAC under its sequence number. Otherwise
/// BLAKE3 maps two different inputs to one digest, or gives a digest that has not 32 bytes.
pub proof fn inclusion_is_sound<const S: usize>(
    acc: SegmentAccumulator<S>,
    proof: MerkleProof,
    mac: Seq<u8>,
)
    requires
        acc.numbered(),
        acc@.len() > 0,
        proof.depth <= MAX_MERKLE_DEPTH,
        proof.leads_to(mac) == acc.root(),
    ensures
        digests_collide() || !digests_are_full() || exists|i: int|
            0 <= i < acc@.len() && proof.sequence == acc.first() + i && mac == (#[trigger] acc@[i])@,
{
    if !digests_collide() && digests_are_full() {
        let level = acc.level();
        let path = proof.path();
        let hash = leaf_digest(proof.sequence, mac);
        root_is_in_tree(level);
        assert forall|i: int| 0 <= i < path.len() && #[trigger] path[i] is Some implies path[i]->0.len()
            == 32 by {
            assert(path[i]->0 == proof.siblings@[i]@);
        }
        climb_starts_in_tree(acc@, acc.first(), hash, proof.index as int, path);
        leaf_is_at_bottom(level, proof.sequence, mac);
        let i = choose|i: int| 0 <= i < level.len() && level[i] == hash;
        let s = (acc.first() + i) as u64;
        assert(digest::blake3_of(leaf_input(s, acc@[i]@)) == digest::blake3_of(
            leaf_input(proof.sequence, mac),
        ));
        leaf_input_binds(s, acc@[i]@, proof.sequence, mac);
        assert(acc@[i]@ == mac);
    }
}

/// Two proofs with one path that lead to one root are proofs for one record: they agree on
/// the sequence number and the chain MAC, or BLAKE3 maps two different inputs to one digest.
pub proof fn inclusion_is_binding(
    first: MerkleProof,
    second: MerkleProof,
    mac1: Seq<u8>,
    mac2: Seq<u8>,
)
    requires
        first.leads_to(mac1) == second.leads_to(mac2),
        first.index == second.index,
        first.path() == second.path(),
    ensures
        (first.sequence == second.sequence && mac1 == mac2) || digests_collide(),
{
    let a = leaf_digest(first.sequence, mac1);
    let b = leaf_digest(second.sequence, mac2);
    if a != b {
        climb_collision(a, b, first.index as int, first.path());
    } else if leaf_input(first.sequence, mac1) == leaf_input(second.sequence, mac2) {
        leaf_input_binds(first.sequence, mac1, second.sequence, mac2);
    }
}

proof fn climb_collision(a: Seq<u8>, b: Seq<u8>, index: int, path: Seq<Option<Seq<u8>>>)
    requires
        a != b,
        climb(a, index, path) == climb(b, index, path),
    ensures
        digests_collide(),
    decreases path.len(),
{
    if path.len() > 0 {
        let up_a = climb_step(a, index, path[0]);
        let up_b = climb_step(b, index, path[0]);
        if up_a != up_b {
            climb_collision(up_a, up_b, index / 2, path.drop_first());
        } else {
            let sibling = path[0]->0;
            if index % 2 == 0 {
                if node_input(a, sibling) == node_input(b, sibling) {
                    assert(node_input(a, sibling).len() == 1 + a.len() + sibling.len());
                    node_input_binds(a, sibling, b, sibling);
                }
                assert(digest::blake3_of(node_input(a, sibling)) == digest::blake3_of(
                    node_input(b, sibling),
                ));
            } else {
                if node_input(sibling, a) == node_input(sibling, b) {
                    node_input_binds(sibling, a, sibling, b);
                }
                assert(digest::blake3_of(node_input(sibling, a)) == digest::blake3_of(
                    node_input(sibling, b),
                ));
            }
        }
    }
}

spec fn views(level: Seq<[u8; 32]>) -> Seq<Seq<u8>> {
    Seq::new(level.len(), |i: int| level[i]@)
}

fn next_level(level: &Vec<[u8; 32]>) -> (up: Vec<[u8; 32]>)
    requires
        level@.len() > 0,
    ensures
        views(up@) == parent_level(views(level@)),
        up@.len() == (level@.len() + 1) / 2,
{
    let mut up: Vec<[u8; 32]> = Vec::new();
    let len: usize = level.len();
    let half: usize = len / 2;
    let mut i: usize = 0;
    while i < half
        invariant
            len == level@.len(),
            half == len / 2,
            i <= half,
            up@.len() == i,
            forall|j: int|
                0 <= j < i ==> #[trigger] up@[j]@ == parent_level(views(level@))[j],
        decreases half - i,
    {
        let hash = node_hash(&level[2 * i], &level[2 * i + 1]);
        up.push(hash);
        i += 1;
    }
    if len % 2 == 1 {
        up.push(level[len - 1]);
    }
    assert(views(up@) =~= parent_level(views(level@)));
    up
}

} // verus!
