//! Witness records and their canonical bytes.
use crate::wire;
use vstd::prelude::*;

verus! {

/// Length of the part of a record that its chain MAC covers besides the previous MAC.
pub const CONTENT_LEN: usize = 44;

/// Length of what a chain MAC is computed from: the content and the previous MAC.
pub const MAC_INPUT_LEN: usize = 60;

/// Format version of a record with 128-bit links.
pub const VERSION: u8 = 2;

/// A record with 32-bit links, as older emitters build it.
#[derive(Debug, Clone, Copy, PartialEq, Eq)]
pub struct WitnessRecord {
    /// Number of the record in its log.
    pub sequence: u64,
    /// Time of the event.
    pub timestamp_ns: u64,
    /// What happened.
    pub action_kind: u8,
    /// Tier of the proof that allowed it.
    pub proof_tier: u8,
    /// Flags of the event.
    pub flags: u8,
    /// Partition that acted.
    pub actor_partition_id: u32,
    /// Object acted on.
    pub target_object_id: u64,
    /// Truncated hash of the capability used.
    pub capability_hash: u32,
    /// Event data.
    pub payload: [u8; 8],
    /// Folded hash of the record before.
    pub prev_hash: u32,
    /// Folded hash of this record.
    pub record_hash: u32,
}

impl WitnessRecord {
    /// A record with every field zero.
    pub fn zeroed() -> (r: Self)
        ensures
            r.sequence == 0,
            r.timestamp_ns == 0,
            r.action_kind == 0,
            r.proof_tier == 0,
            r.flags == 0,
            r.actor_partition_id == 0,
            r.target_object_id == 0,
            r.capability_hash == 0,
            r.payload@ == Seq::new(8, |i: int| 0u8),
            r.prev_hash == 0,
            r.record_hash == 0,
    {
        let r = WitnessRecord {
            sequence: 0,
            timestamp_ns: 0,
            action_kind: 0,
            proof_tier: 0,
            flags: 0,
            actor_partition_id: 0,
            target_object_id: 0,
            capability_hash: 0,
            payload: [0u8;8],
            prev_hash: 0,
            record_hash: 0,
        };
        assert(r.payload@ =~= Seq::new(8, |i: int| 0u8));
        r
    }
}

/// A record with 128-bit links.
#[derive(Debug, Clone, Copy, PartialEq, Eq)]
pub struct WitnessRecordV2 {
    /// Number of the record in its log.
    pub sequence: u64,
    /// Time of the event.
    pub timestamp_ns: u64,
    /// What happened.
    pub action_kind: u8,
    /// Tier of the proof that allowed it.
    pub proof_tier: u8,
    /// Flags of the event.
    pub flags: u8,
    /// Format version.
    pub version: u8,
    /// Partition that acted.
    pub actor_partition_id: u32,
    /// Object acted on.
    pub target_object_id: u64,
    /// Truncated hash of the capability used.
    pub capability_hash: u32,
    /// Event data.
    pub payload: [u8; 8],
    /// Chain MAC of the record before, or the genesis value.
    pub prev_mac: [u8; 16],
    /// Chain MAC of this record.
    pub chain_mac: [u8; 16],
}

impl WitnessRecordV2 {
    /// The bytes that describe the event and its place in the log.
    pub open spec fn content(&self) -> Seq<u8> {
        wire::le_bytes(self.sequence as nat, 8) + wire::le_bytes(self.timestamp_ns as nat, 8)
            + seq![self.action_kind, self.proof_tier, self.flags, self.version] + wire::le_bytes(
            self.actor_partition_id as nat,
            4,
        ) + wire::le_bytes(self.target_object_id as nat, 8) + wire::le_bytes(
            self.capability_hash as nat,
            4,
        ) + self.payload@
    }

    /// The whole record as bytes.
    pub open spec fn bytes(&self) -> Seq<u8> {
        self.content() + self.prev_mac@ + self.chain_mac@
    }

    /// The same event: every field that the log does not assign is that of `other`.
    pub open spec fn same_event(&self, other: WitnessRecordV2) -> bool {
        &&& self.timestamp_ns == other.timestamp_ns
        &&& self.action_kind == other.action_kind
        &&& self.proof_tier == other.proof_tier
        &&& self.flags == other.flags
        &&& self.actor_partition_id == other.actor_partition_id
        &&& self.target_object_id == other.target_object_id
        &&& self.capability_hash == other.capability_hash
        &&& self.payload == other.payload
    }

    /// The content of every record has the length that the MAC is computed over.
    pub proof fn content_len(&self)
        ensures
            self.content().len() == CONTENT_LEN,
    {
        wire::le_bytes_len(self.sequence as nat, 8);
        wire::le_bytes_len(self.timestamp_ns as nat, 8);
        wire::le_bytes_len(self.actor_partition_id as nat, 4);
        wire::le_bytes_len(self.target_object_id as nat, 8);
        wire::le_bytes_len(self.capability_hash as nat, 4);
    }

    /// Every field zero.
    pub open spec fn is_zeroed(&self) -> bool {
        &&& self.sequence == 0
        &&& self.timestamp_ns == 0
        &&& self.action_kind == 0
        &&& self.proof_tier == 0
        &&& self.flags == 0
        &&& self.version == 0
        &&& self.actor_partition_id == 0
        &&& self.target_object_id == 0
        &&& self.capability_hash == 0
        &&& self.payload@ == Seq::new(8, |i: int| 0u8)
        &&& self.prev_mac@ == Seq::new(16, |i: int| 0u8)
        &&& self.chain_mac@ == Seq::new(16, |i: int| 0u8)
    }

    /// A record with every field zero.
    pub fn zeroed() -> (r: Self)
        ensures
            r.is_zeroed(),
    {
        let r = WitnessRecordV2 {
            sequence: 0,
            timestamp_ns: 0,
            action_kind: 0,
            proof_tier: 0,
            flags: 0,
            version: 0,
            actor_partition_id: 0,
            target_object_id: 0,
            capability_hash: 0,
            payload: [0u8;8],
            prev_mac: [0u8;16],
            chain_mac: [0u8;16],
        };
        assert(r.payload@ =~= Seq::new(8, |i: int| 0u8));
        assert(r.prev_mac@ =~= Seq::new(16, |i: int| 0u8));
        assert(r.chain_mac@ =~= Seq::new(16, |i: int| 0u8));
        r
    }

    /// The event of a record with 32-bit links; what its log had assigned is left out.
    pub fn from_v1_content(record: &WitnessRecord) -> (r: Self)
        ensures
            r.timestamp_ns == record.timestamp_ns,
            r.action_kind == record.action_kind,
            r.proof_tier == record.proof_tier,
            r.flags == record.flags,
            r.actor_partition_id == record.actor_partition_id,
            r.target_object_id == record.target_object_id,
            r.capability_hash == record.capability_hash,
            r.payload == record.payload,
            r.sequence == 0,
            r.version == VERSION,
            r.prev_mac@ == Seq::new(16, |i: int| 0u8),
            r.chain_mac@ == Seq::new(16, |i: int| 0u8),
    {
        let mut r = WitnessRecordV2::zeroed();
        r.timestamp_ns = record.timestamp_ns;
        r.action_kind = record.action_kind;
        r.proof_tier = record.proof_tier;
        r.flags = record.flags;
        r.version = VERSION;
        r.actor_partition_id = record.actor_partition_id;
        r.target_object_id = record.target_object_id;
        r.capability_hash = record.capability_hash;
        r.payload = record.payload;
        r
    }

    /// The canonical bytes: content, previous MAC, own MAC.
    pub fn to_bytes(&self) -> (bytes: Vec<u8>)
        ensures
            bytes@ == self.bytes(),
            bytes@.take(CONTENT_LEN as int) == self.content(),
    {
        let mut buf: Vec<u8> = Vec::new();
        wire::put_u64(&mut buf, self.sequence);
        wire::put_u64(&mut buf, self.timestamp_ns);
        buf.push(self.action_kind);
        buf.push(self.proof_tier);
        buf.push(self.flags);
        buf.push(self.version);
        wire::put_u32(&mut buf, self.actor_partition_id);
        wire::put_u64(&mut buf, self.target_object_id);
        wire::put_u32(&mut buf, self.capability_hash);
        wire::put_bytes(&mut buf, self.payload.as_slice());
        assert(buf@ =~= self.content());
        wire::put_bytes(&mut buf, self.prev_mac.as_slice());
        wire::put_bytes(&mut buf, self.chain_mac.as_slice());
        proof {
            self.content_len();
            assert(buf@ =~= self.bytes());
            assert(buf@.take(CONTENT_LEN as int) =~= self.content());
        }
        buf
    }
}

/// The canonical bytes determine the record: no two records serialise alike.
pub proof fn bytes_determine_record(a: WitnessRecordV2, b: WitnessRecordV2)
    requires
        a.bytes() == b.bytes(),
    ensures
        a.content() == b.content(),
        a.sequence == b.sequence,
        a.version == b.version,
        a.prev_mac@ == b.prev_mac@,
        a.chain_mac@ == b.chain_mac@,
        a.timestamp_ns == b.timestamp_ns,
        a.action_kind == b.action_kind,
        a.proof_tier == b.proof_tier,
        a.flags == b.flags,
        a.actor_partition_id == b.actor_partition_id,
        a.target_object_id == b.target_object_id,
        a.capability_hash == b.capability_hash,
        a.payload@ == b.payload@,
{
    a.content_len();
    b.content_len();
    assert(a.bytes().take(44) =~= a.content());
    assert(b.bytes().take(44) =~= b.content());
    assert(a.bytes().subrange(44, 60) =~= a.prev_mac@);
    assert(b.bytes().subrange(44, 60) =~= b.prev_mac@);
    assert(a.bytes().skip(60) =~= a.chain_mac@);
    assert(b.bytes().skip(60) =~= b.chain_mac@);
    content_fields(a);
    content_fields(b);
}

/// Records with one content have one sequence number.
pub proof fn content_numbers(a: WitnessRecordV2, b: WitnessRecordV2)
    requires
        a.content() == b.content(),
    ensures
        a.sequence == b.sequence,
{
    content_fields(a);
    content_fields(b);
}

/// Where each field stands in the content: numbers with their lowest byte first, one after
/// another.
pub proof fn content_fields(r: WitnessRecordV2)
    ensures
        wire::le_value(r.content().subrange(0, 8)) == r.sequence,
        wire::le_value(r.content().subrange(8, 16)) == r.timestamp_ns,
        r.content()[16] == r.action_kind,
        r.content()[17] == r.proof_tier,
        r.content()[18] == r.flags,
        r.content()[19] == r.version,
        wire::le_value(r.content().subrange(20, 24)) == r.actor_partition_id,
        wire::le_value(r.content().subrange(24, 32)) == r.target_object_id,
        wire::le_value(r.content().subrange(32, 36)) == r.capability_hash,
        r.content().skip(36) == r.payload@,
{
    wire::le_limits();
    wire::le_round_trip(r.sequence as nat, 8);
    wire::le_round_trip(r.timestamp_ns as nat, 8);
    wire::le_round_trip(r.actor_partition_id as nat, 4);
    wire::le_round_trip(r.target_object_id as nat, 8);
    wire::le_round_trip(r.capability_hash as nat, 4);
    let c = r.content();
    assert(c.subrange(0, 8) =~= wire::le_bytes(r.sequence as nat, 8));
    assert(c.subrange(8, 16) =~= wire::le_bytes(r.timestamp_ns as nat, 8));
    assert(c.subrange(20, 24) =~= wire::le_bytes(r.actor_partition_id as nat, 4));
    assert(c.subrange(24, 32) =~= wire::le_bytes(r.target_object_id as nat, 8));
    assert(c.subrange(32, 36) =~= wire::le_bytes(r.capability_hash as nat, 4));
    assert(c.skip(36) =~= r.payload@);
}

} // verus!
