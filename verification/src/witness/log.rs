//! Append-only ring of witness records, linked by keyed 128-bit MACs.
//!
//! A record's MAC is the first half of the keyed digest of its content and the MAC of the
//! record before it, so changing, dropping or reordering records breaks the chain for
//! everyone who has the key.
use crate::ring;
use crate::witness::digest;
use crate::witness::record;
use crate::witness::record::WitnessRecord;
use crate::witness::record::WitnessRecordV2;
use crate::witness::seal::SealedSegment;
use crate::witness::seal::SegmentAccumulator;
use crate::witness::seal::SegmentSealSigner;
use crate::wire;
use vstd::prelude::*;

verus! {

/// Context under which chain keys are derived.
pub const CHAIN_KEY_CONTEXT: &'static str = "rvm-witness 2026 v2 chain key";

/// The key material of the default chain key, `rvm-witness-default-chain-key-v2`.
pub open spec fn default_material() -> Seq<u8> {
    seq![
        114u8, 118, 109, 45, 119, 105, 116, 110, 101, 115, 115, 45, 100, 101, 102, 97, 117, 108,
        116, 45, 99, 104, 97, 105, 110, 45, 107, 101, 121, 45, 118, 50,
    ]
}

/// A 32-byte chain key from any key material.
pub fn derive_chain_key(material: &[u8]) -> (key: [u8; 32])
    ensures
        key@ == digest::derived_key_of(CHAIN_KEY_CONTEXT@, material@),
{
    digest::derive_key(CHAIN_KEY_CONTEXT, material)
}

/// The built-in chain key. It is public: a deployment supplies its own with
/// [`WitnessLogV2::with_key`].
pub fn default_chain_key() -> (key: [u8; 32])
    ensures
        key@ == digest::derived_key_of(CHAIN_KEY_CONTEXT@, default_material()),
{
    let material: [u8; 32] = [
        114u8, 118, 109, 45, 119, 105, 116, 110, 101, 115, 115, 45, 100, 101, 102, 97, 117, 108,
        116, 45, 99, 104, 97, 105, 110, 45, 107, 101, 121, 45, 118, 50,
    ];
    assert(material@ =~= default_material());
    derive_chain_key(material.as_slice())
}

/// The chain MAC of a record with this content after one with MAC `prev_mac`.
pub open spec fn chain_mac_of(key: Seq<u8>, content: Seq<u8>, prev_mac: Seq<u8>) -> Seq<u8> {
    digest::keyed_blake3_of(key, content + prev_mac).take(16)
}

/// Computes a chain MAC: the first 16 bytes of the keyed digest of content and previous MAC.
pub fn compute_chain_mac_v2(key: &[u8; 32], content: &[u8], prev_mac: &[u8; 16]) -> (mac: [u8; 16])
    requires
        content@.len() == record::CONTENT_LEN,
    ensures
        mac@ == chain_mac_of(key@, content@, prev_mac@),
{
    let mut buf: Vec<u8> = Vec::new();
    wire::put_bytes(&mut buf, content);
    wire::put_bytes(&mut buf, prev_mac.as_slice());
    assert(buf@ =~= content@ + prev_mac@);
    let hash = digest::keyed_hash(key, buf.as_slice());
    let mut mac = [0u8;16];
    let mut i: usize = 0;
    while i < 16
        invariant
            i <= 16,
            forall|j: int| 0 <= j < i ==> mac@[j] == hash@[j],
        decreases 16 - i,
    {
        mac[i] = hash[i];
        i += 1;
    }
    assert(mac@ =~= hash@.take(16));
    mac
}

/// Equal inputs of the MAC are equal contents after equal MACs: nothing can be moved over
/// the border between the two parts.
pub proof fn mac_input_binds(content1: Seq<u8>, prev1: Seq<u8>, content2: Seq<u8>, prev2: Seq<u8>)
    requires
        content1.len() == record::CONTENT_LEN,
        content2.len() == record::CONTENT_LEN,
        content1 + prev1 == content2 + prev2,
    ensures
        content1 == content2,
        prev1 == prev2,
{
    assert((content1 + prev1).take(44) =~= content1);
    assert((content2 + prev2).take(44) =~= content2);
    assert((content1 + prev1).skip(44) =~= prev1);
    assert((content2 + prev2).skip(44) =~= prev2);
}

/// The MAC at the end of a chain, or the genesis value where there is no record.
pub open spec fn head_of(history: Seq<WitnessRecordV2>, genesis: Seq<u8>) -> Seq<u8> {
    if history.len() == 0 {
        genesis
    } else {
        history.last().chain_mac@
    }
}

/// A sequence of records forms a chain from `genesis` under `key`: numbered from nought,
/// each linked to the one before, each with the MAC of its content and link.
pub open spec fn chained(history: Seq<WitnessRecordV2>, key: Seq<u8>, genesis: Seq<u8>) -> bool {
    forall|i: int| 0 <= i < history.len() ==> linked(history, i, key, genesis)
}

/// Record `i` of a chain is in order.
pub open spec fn linked(
    history: Seq<WitnessRecordV2>,
    i: int,
    key: Seq<u8>,
    genesis: Seq<u8>,
) -> bool {
    &&& history[i].sequence == i
    &&& history[i].version == record::VERSION
    &&& history[i].prev_mac@ == head_of(history.take(i), genesis)
    &&& history[i].chain_mac@ == chain_mac_of(key, history[i].content(), history[i].prev_mac@)
}

/// A ring of the last `N` records of a chain, and the unsealed segment of it. A segment
/// takes at most `SEG` leaves.
pub struct WitnessLogV2<const N: usize, const SEG: usize> {
    records: Vec<WitnessRecordV2>,
    write_pos: usize,
    head_mac: [u8; 16],
    genesis: [u8; 16],
    sequence: u64,
    total_emitted: u64,
    total_overwritten: u64,
    key: [u8; 32],
    segment: SegmentAccumulator<SEG>,
    segment_dropped: u64,
    history: Ghost<Seq<WitnessRecordV2>>,
}

impl<const N: usize, const SEG: usize> WitnessLogV2<N, SEG> {
    /// Every record ever appended, oldest first.
    pub closed spec fn history(&self) -> Seq<WitnessRecordV2> {
        self.history@
    }

    /// The chain key.
    pub closed spec fn key(&self) -> Seq<u8> {
        self.key@
    }

    /// The value that the chain starts from.
    pub closed spec fn start(&self) -> Seq<u8> {
        self.genesis@
    }

    /// The leaves of the unsealed segment.
    pub closed spec fn segment(&self) -> SegmentAccumulator<SEG> {
        self.segment
    }

    /// Number of records whose leaf found no room.
    pub closed spec fn dropped(&self) -> nat {
        self.segment_dropped as nat
    }

    /// The content of a slot of the ring.
    pub closed spec fn slot(&self, i: int) -> WitnessRecordV2 {
        self.records@[i]
    }

    /// The fields agree with the history; the history is a chain; the unsealed segment
    /// holds the MACs of the records from its first sequence number on.
    pub closed spec fn wf(&self) -> bool {
        let total = self.history@.len();
        &&& 0 < N
        &&& 0 < SEG
        &&& self.records@.len() == N
        &&& self.total_emitted == total
        &&& self.sequence == total
        &&& self.write_pos == total as int % N as int
        &&& self.total_overwritten == (if total > N {
            total - N
        } else {
            0
        })
        &&& self.head_mac@ == head_of(self.history@, self.genesis@)
        &&& chained(self.history@, self.key@, self.genesis@)
        &&& forall|j: int|
            0 <= j < total && total - N <= j ==> self.records@[j % N as int] == #[trigger] self.history@[j]
        &&& forall|i: int| total <= i < N ==> (#[trigger] self.records@[i]).is_zeroed()
        &&& self.segment.wf()
        &&& self.segment.first() + self.segment@.len() <= total
        &&& self.segment@.len() < SEG ==> self.segment.first() + self.segment@.len() == total
        &&& forall|i: int|
            0 <= i < self.segment@.len() ==> #[trigger] self.segment@[i]
                == self.history@[self.segment.first() + i].chain_mac
        &&& self.segment_dropped <= total
    }

    /// The records that are still in the ring, oldest first.
    pub open spec fn retained(&self) -> Seq<WitnessRecordV2> {
        let total = self.history().len();
        if total > N {
            self.history().skip(total - N)
        } else {
            self.history()
        }
    }

    /// What every log in use satisfies: its history is a chain from its start under its
    /// key, and leaf `i` of the unsealed segment is the MAC of the record with number
    /// `first + i`.
    pub proof fn log_laws(&self)
        requires
            self.wf(),
        ensures
            chained(self.history(), self.key(), self.start()),
            self.segment().wf(),
            self.segment().numbered(),
            self.segment().first() + self.segment()@.len() <= self.history().len(),
            self.segment()@.len() < SEG ==> self.segment().first() + self.segment()@.len()
                == self.history().len(),
            forall|i: int|
                0 <= i < self.segment()@.len() ==> #[trigger] self.segment()@[i]
                    == self.history()[self.segment().first() + i].chain_mac,
            forall|j: int|
                0 <= j < self.history().len() && self.history().len() - N <= j ==> self.slot(
                    j % N as int,
                ) == #[trigger] self.history()[j],
            forall|i: int|
                self.history().len() <= i < N ==> (#[trigger] self.slot(i)).is_zeroed(),
            self.history().len() <= u64::MAX,
            self.dropped() <= self.history().len(),
    {
    }

    /// An empty log with the built-in, public chain key.
    pub fn new() -> (log: Self)
        requires
            0 < N,
            0 < SEG,
        ensures
            log.wf(),
            log.history() == Seq::<WitnessRecordV2>::empty(),
            log.key() == digest::derived_key_of(CHAIN_KEY_CONTEXT@, default_material()),
            log.start() == Seq::new(16, |i: int| 0u8),
            log.segment()@.len() == 0,
            log.segment().first() == 0,
            log.dropped() == 0,
    {
        Self::with_key(default_chain_key())
    }

    /// An empty log with the given chain key.
    pub fn with_key(key: [u8; 32]) -> (log: Self)
        requires
            0 < N,
            0 < SEG,
        ensures
            log.wf(),
            log.history() == Seq::<WitnessRecordV2>::empty(),
            log.key() == key@,
            log.start() == Seq::new(16, |i: int| 0u8),
            log.segment()@.len() == 0,
            log.segment().first() == 0,
            log.dropped() == 0,
    {
        let genesis = [0u8;16];
        assert(genesis@ =~= Seq::new(16, |i: int| 0u8));
        Self::with_key_and_genesis(key, genesis)
    }

    /// An empty log whose chain starts from `genesis`, which can stand for the head of an
    /// older log.
    pub fn with_key_and_genesis(key: [u8; 32], genesis: [u8; 16]) -> (log: Self)
        requires
            0 < N,
            0 < SEG,
        ensures
            log.wf(),
            log.history() == Seq::<WitnessRecordV2>::empty(),
            log.key() == key@,
            log.start() == genesis@,
            log.segment()@.len() == 0,
            log.segment().first() == 0,
            log.dropped() == 0,
    {
        let mut records: Vec<WitnessRecordV2> = Vec::new();
        while records.len() < N
            invariant
                records@.len() <= N,
                forall|i: int| 0 <= i < records@.len() ==> (#[trigger] records@[i]).is_zeroed(),
            decreases N - records@.len(),
        {
            records.push(WitnessRecordV2::zeroed());
        }
        WitnessLogV2 {
            records,
            write_pos: 0,
            head_mac: genesis,
            genesis,
            sequence: 0,
            total_emitted: 0,
            total_overwritten: 0,
            key,
            segment: SegmentAccumulator::new(0),
            segment_dropped: 0,
            history: Ghost(Seq::empty()),
        }
    }

    /// Numbers, links and stores a record; gives back its sequence number.
    pub fn append(&mut self, record: WitnessRecordV2) -> (seq: u64)
        requires
            old(self).wf(),
            old(self).history().len() < u64::MAX,
        ensures
            final(self).wf(),
            seq == old(self).history().len(),
            final(self).history().len() == old(self).history().len() + 1,
            final(self).history().drop_last() == old(self).history(),
            final(self).history().last().same_event(record),
            final(self).key() == old(self).key(),
            final(self).start() == old(self).start(),
            final(self).segment().first() == old(self).segment().first(),
            final(self).segment()@ == (if old(self).segment()@.len() < SEG {
                old(self).segment()@.push(final(self).history().last().chain_mac)
            } else {
                old(self).segment()@
            }),
            final(self).dropped() == old(self).dropped() + (if old(self).segment()@.len() < SEG {
                0int
            } else {
                1int
            }),
    {
        let ghost before = self.history@;
        let ghost total = before.len() as int;
        let mut stored = record;
        stored.version = record::VERSION;
        stored.sequence = self.sequence;
        stored.prev_mac = self.head_mac;
        let bytes = stored.to_bytes();
        let ghost unsigned = stored;
        proof {
            unsigned.content_len();
        }
        let content = vstd::slice::slice_subrange(bytes.as_slice(), 0, record::CONTENT_LEN);
        assert(content@ =~= bytes@.take(44));
        stored.chain_mac = compute_chain_mac_v2(&self.key, content, &stored.prev_mac);
        assert(stored.content() == unsigned.content());

        let seq: u64 = stored.sequence;
        if self.total_emitted >= N as u64 {
            self.total_overwritten = self.total_overwritten + 1;
        }
        let pos: usize = self.write_pos;
        self.records.set(pos, stored);
        self.write_pos = (pos + 1) % N;
        self.head_mac = stored.chain_mac;
        self.sequence = seq.wrapping_add(1);
        self.total_emitted = self.total_emitted + 1;
        if !self.segment.push(stored.chain_mac) {
            self.segment_dropped = self.segment_dropped + 1;
        }
        self.history = Ghost(before.push(stored));
        proof {
            let after = self.history@;
            assert(after.drop_last() =~= before);
            assert(chained(after, self.key@, self.genesis@)) by {
                assert forall|i: int| 0 <= i < after.len() implies linked(
                    after,
                    i,
                    self.key@,
                    self.genesis@,
                ) by {
                    if i < total {
                        assert(linked(before, i, self.key@, self.genesis@));
                        assert(after.take(i) =~= before.take(i));
                    } else {
                        assert(after.take(i) =~= before);
                    }
                }
            }
            ring::step(total, N as int);
            if total < N {
                vstd::arithmetic::div_mod::lemma_small_mod(total as nat, N as nat);
            }
            assert forall|j: int|
                0 <= j < after.len() && after.len() - N <= j implies self.records@[j % N as int]
                == #[trigger] after[j] by {
                if j < total {
                    ring::apart(j, total, N as int);
                    assert(before[j] == after[j]);
                }
            }
        }
        seq
    }

    /// Appends the event of a record with 32-bit links.
    pub fn append_v1_content(&mut self, record: &WitnessRecord) -> (seq: u64)
        requires
            old(self).wf(),
            old(self).history().len() < u64::MAX,
        ensures
            final(self).wf(),
            seq == old(self).history().len(),
            final(self).history().len() == old(self).history().len() + 1,
            final(self).history().drop_last() == old(self).history(),
            ({
                let r = final(self).history().last();
                &&& r.timestamp_ns == record.timestamp_ns
                &&& r.action_kind == record.action_kind
                &&& r.proof_tier == record.proof_tier
                &&& r.flags == record.flags
                &&& r.actor_partition_id == record.actor_partition_id
                &&& r.target_object_id == record.target_object_id
                &&& r.capability_hash == record.capability_hash
                &&& r.payload == record.payload
            }),
            final(self).key() == old(self).key(),
            final(self).start() == old(self).start(),
            final(self).segment().first() == old(self).segment().first(),
            final(self).segment()@ == (if old(self).segment()@.len() < SEG {
                old(self).segment()@.push(final(self).history().last().chain_mac)
            } else {
                old(self).segment()@
            }),
            final(self).dropped() == old(self).dropped() + (if old(self).segment()@.len() < SEG {
                0int
            } else {
                1int
            }),
    {
        self.append(WitnessRecordV2::from_v1_content(record))
    }

    /// Seals the current segment and starts a new one at the next record. Gives the seal
    /// and the segment's leaves, from which proofs can be made; `None`, and no change,
    /// where no record came in since the last seal.
    pub fn seal_segment<G: SegmentSealSigner>(&mut self, signer: &G) -> (sealed: Option<
        (SealedSegment, SegmentAccumulator<SEG>),
    >)
        requires
            old(self).wf(),
        ensures
            final(self).wf(),
            final(self).history() == old(self).history(),
            final(self).key() == old(self).key(),
            final(self).start() == old(self).start(),
            final(self).dropped() == old(self).dropped(),
            sealed is Some <==> old(self).segment()@.len() > 0,
            sealed is None ==> *final(self) == *old(self),
            sealed matches Some(s) ==> {
                &&& s.1 == old(self).segment()
                &&& s.0.root@ == old(self).segment().root()
                &&& s.0.first_sequence == old(self).segment().first()
                &&& s.0.count == old(self).segment()@.len() % 0x1_0000_0000
                &&& signer.may_sign(s.0.digest(), s.0.signature@)
                &&& final(self).segment()@.len() == 0
                &&& final(self).segment().first() == old(self).history().len()
            },
    {
        if self.segment.is_empty() {
            return None;
        }
        let acc = self.segment;
        match acc.seal(signer) {
            None => None,
            Some(sealed) => {
                self.segment = SegmentAccumulator::new(self.sequence);
                Some((sealed, acc))
            },
        }
    }

    /// The MAC of the newest record, or the genesis value. Anchored elsewhere, it shows
    /// whether the end of the log was cut off.
    pub fn chain_head(&self) -> (head: [u8; 16])
        requires
            self.wf(),
        ensures
            head@ == head_of(self.history(), self.start()),
    {
        self.head_mac
    }

    /// The value that the chain started from.
    pub fn genesis(&self) -> (genesis: [u8; 16])
        ensures
            genesis@ == self.start(),
    {
        self.genesis
    }

    /// The chain key, a secret that verifiers need.
    pub fn chain_key(&self) -> (key: [u8; 32])
        ensures
            key@ == self.key(),
    {
        self.key
    }

    /// Number of leaves in the unsealed segment.
    pub fn segment_len(&self) -> (n: usize)
        requires
            self.wf(),
        ensures
            n == self.segment()@.len(),
    {
        self.segment.len()
    }

    /// Whether the segment has no room left and should be sealed.
    pub fn segment_is_full(&self) -> (full: bool)
        requires
            self.wf(),
        ensures
            full == (self.segment()@.len() == SEG),
    {
        self.segment.is_full()
    }

    /// Number of records appended while the segment was full; only the chain protects them.
    pub fn segment_dropped(&self) -> (n: u64)
        ensures
            n == self.dropped(),
    {
        self.segment_dropped
    }

    /// Number of records ever appended.
    pub fn total_emitted(&self) -> (n: u64)
        requires
            self.wf(),
        ensures
            n == self.history().len(),
    {
        self.total_emitted
    }

    /// Number of records that newer ones have pushed out of the ring.
    pub fn total_overwritten(&self) -> (n: u64)
        requires
            self.wf(),
        ensures
            n == self.history().len() - self.retained().len(),
    {
        self.total_overwritten
    }

    /// Whether at least `watermark` slots are in use.
    pub fn needs_drain(&self, watermark: usize) -> (r: bool)
        requires
            self.wf(),
        ensures
            r == (self.retained().len() >= watermark),
    {
        self.len() >= watermark
    }

    /// Number of records in the ring.
    pub fn len(&self) -> (n: usize)
        requires
            self.wf(),
        ensures
            n == self.retained().len(),
    {
        let total: u64 = self.total_emitted;
        if total >= N as u64 {
            N
        } else {
            total as usize
        }
    }

    /// Whether no record was ever appended.
    pub fn is_empty(&self) -> (r: bool)
        requires
            self.wf(),
        ensures
            r == (self.history().len() == 0),
    {
        self.total_emitted == 0
    }

    /// The record in a slot of the ring; `None` past the ring or while nothing was appended.
    /// A slot not yet written holds a zeroed record.
    pub fn get(&self, ring_index: usize) -> (r: Option<WitnessRecordV2>)
        requires
            self.wf(),
        ensures
            r is Some <==> ring_index < N && self.history().len() > 0,
            r matches Some(x) ==> {
                &&& x == self.slot(ring_index as int)
                &&& self.history().len() <= ring_index ==> x.is_zeroed()
                &&& forall|j: int|
                    0 <= j < self.history().len() && self.history().len() - N <= j && j % N as int
                        == ring_index ==> x == #[trigger] self.history()[j]
            },
    {
        if ring_index >= N {
            return None;
        }
        if self.total_emitted == 0 {
            return None;
        }
        Some(self.records[ring_index])
    }

    /// Copies the newest records to the front of `buf`, oldest of them first, as many as
    /// are there and fit; gives their number.
    pub fn snapshot(&self, buf: &mut [WitnessRecordV2]) -> (copied: usize)
        requires
            self.wf(),
        ensures
            copied == (if old(buf)@.len() < self.retained().len() {
                old(buf)@.len()
            } else {
                self.retained().len()
            }),
            final(buf)@.len() == old(buf)@.len(),
            final(buf)@.take(copied as int) == self.retained().skip(
                self.retained().len() - copied,
            ),
            final(buf)@.skip(copied as int) == old(buf)@.skip(copied as int),
    {
        let ghost total = self.history@.len() as int;
        let available: usize = self.len();
        let to_copy: usize = if buf.len() < available {
            buf.len()
        } else {
            available
        };
        let start: usize = if self.total_emitted >= N as u64 {
            self.write_pos
        } else {
            0
        };
        let ghost newest = self.retained().skip(available - to_copy);
        let ghost first = total - available;
        proof {
            ring::start(total, N as int);
        }
        let mut i: usize = 0;
        while i < to_copy
            invariant
                self.wf(),
                i <= to_copy <= available <= N,
                to_copy <= buf@.len(),
                buf@.len() == old(buf)@.len(),
                start < N,
                total == self.history@.len(),
                available == self.retained().len(),
                newest == self.retained().skip(available - to_copy),
                first == total - available,
                start as int == first % N as int,
                forall|j: int| 0 <= j < i ==> buf@[j] == newest[j],
                forall|j: int| i <= j < buf@.len() ==> buf@[j] == old(buf)@[j],
            decreases to_copy - i,
        {
            let ahead: usize = (available - to_copy) + i;
            let at: usize = if ahead < N - start {
                start + ahead
            } else {
                ahead - (N - start)
            };
            proof {
                ring::ahead(first, ahead as int, N as int);
                assert(self.history@[first + ahead] == newest[i as int]);
            }
            buf[i] = self.records[at];
            i += 1;
        }
        assert(buf@.take(to_copy as int) =~= newest);
        assert(buf@.skip(to_copy as int) =~= old(buf)@.skip(to_copy as int));
        to_copy
    }
}

/// Whoever changes or cuts off a record of a chain without the key is found out: two chains
/// under one key and genesis that agree in the last MAC have the same length and agree in all
/// content, or two different inputs have one MAC.
pub proof fn chains_with_one_head(
    a: Seq<WitnessRecordV2>,
    b: Seq<WitnessRecordV2>,
    key: Seq<u8>,
    genesis: Seq<u8>,
)
    requires
        chained(a, key, genesis),
        chained(b, key, genesis),
        a.len() > 0 <==> b.len() > 0,
        head_of(a, genesis) == head_of(b, genesis),
    ensures
        (a.len() == b.len() && forall|i: int|
            0 <= i < a.len() ==> (#[trigger] a[i]).content() == b[i].content() && a[i].chain_mac@
                == b[i].chain_mac@) || exists|x: Seq<u8>, y: Seq<u8>|
            x != y && #[trigger] digest::keyed_blake3_of(key, x).take(16)
                == #[trigger] digest::keyed_blake3_of(key, y).take(16),
    decreases a.len(),
{
    if a.len() > 0 {
        let n = a.len() - 1;
        let m = b.len() - 1;
        assert(linked(a, n, key, genesis));
        assert(linked(b, m, key, genesis));
        let x = a[n].content() + a[n].prev_mac@;
        let y = b[m].content() + b[m].prev_mac@;
        assert(digest::keyed_blake3_of(key, x).take(16) == digest::keyed_blake3_of(key, y).take(
            16,
        ));
        if x == y {
            a[n].content_len();
            b[m].content_len();
            mac_input_binds(a[n].content(), a[n].prev_mac@, b[m].content(), b[m].prev_mac@);
            record::content_numbers(a[n], b[m]);
            let a0 = a.take(n);
            let b0 = b.take(n);
            prefix_is_chained(a, n, key, genesis);
            prefix_is_chained(b, n, key, genesis);
            chains_with_one_head(a0, b0, key, genesis);
            if forall|i: int|
                0 <= i < a0.len() ==> (#[trigger] a0[i]).content() == b0[i].content()
                    && a0[i].chain_mac@ == b0[i].chain_mac@ {
                assert forall|i: int| 0 <= i < a.len() implies (#[trigger] a[i]).content()
                    == b[i].content() && a[i].chain_mac@ == b[i].chain_mac@ by {
                    if i < n {
                        assert(a0[i] == a[i]);
                    }
                }
            }
        }
    }
}

/// A chain cut off at the end is a chain.
pub proof fn prefix_is_chained(
    history: Seq<WitnessRecordV2>,
    n: int,
    key: Seq<u8>,
    genesis: Seq<u8>,
)
    requires
        chained(history, key, genesis),
        0 <= n <= history.len(),
    ensures
        chained(history.take(n), key, genesis),
{
    let cut = history.take(n);
    assert forall|i: int| 0 <= i < cut.len() implies linked(cut, i, key, genesis) by {
        assert(linked(history, i, key, genesis));
        assert(cut.take(i) =~= history.take(i));
    }
}

} // verus!
