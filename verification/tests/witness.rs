//! Sealed segments and the witness log.
use ruvector::witness::log::{
    compute_chain_mac_v2, default_chain_key, derive_chain_key, WitnessLogV2, CHAIN_KEY_CONTEXT,
};
use ruvector::witness::record::{WitnessRecord, WitnessRecordV2, CONTENT_LEN, MAC_INPUT_LEN, VERSION};
use ruvector::witness::seal::{
    leaf_hash, seal_digest, verify_inclusion, verify_seal, Blake3SealSigner, SegmentAccumulator,
    SegmentSealSigner, DEFAULT_SEGMENT_SIZE, MAX_MERKLE_DEPTH,
};

/// Kinds of events that the tests record.
#[derive(Clone, Copy)]
enum ActionKind {
    PartitionCreate,
    CapabilityGrant,
    RegionMap,
    SchedulerEpoch,
    BootAttestation,
}

fn filled_acc<const S: usize>(n: usize, first_seq: u64) -> SegmentAccumulator<S> {
    let mut acc = SegmentAccumulator::<S>::new(first_seq);
    for i in 0..n {
        let mut mac = [0u8; 16];
        mac[0] = i as u8;
        mac[1] = 0xC3;
        assert!(acc.push(mac));
    }
    acc
}

fn test_signer() -> Blake3SealSigner {
    Blake3SealSigner::new([0x42u8; 32])
}

#[test]
fn root_deterministic_and_content_sensitive() {
    let a = filled_acc::<8>(5, 0);
    let b = filled_acc::<8>(5, 0);
    assert_eq!(a.compute_root(), b.compute_root());

    let mut c = filled_acc::<8>(4, 0);
    let mut mac = [0u8; 16];
    mac[0] = 0xFF;
    c.push(mac);
    assert_ne!(a.compute_root(), c.compute_root());
}

#[test]
fn root_binds_sequence_numbers() {
    let a = filled_acc::<8>(5, 0);
    let b = filled_acc::<8>(5, 100);
    assert_ne!(a.compute_root(), b.compute_root());
}

#[test]
fn empty_segment_has_no_root_or_seal() {
    let acc = SegmentAccumulator::<8>::new(0);
    assert!(acc.compute_root().is_none());
    assert!(acc.seal(&test_signer()).is_none());
}

#[test]
fn seal_and_verify_round_trip() {
    let acc = filled_acc::<8>(7, 10);
    let signer = test_signer();
    let sealed = acc.seal(&signer).unwrap();
    assert_eq!(sealed.first_sequence, 10);
    assert_eq!(sealed.count, 7);
    assert!(verify_seal(&sealed, &signer));
}

#[test]
fn seal_tamper_detected() {
    let acc = filled_acc::<8>(7, 10);
    let signer = test_signer();
    let sealed = acc.seal(&signer).unwrap();

    let mut bad = sealed;
    bad.root[0] ^= 1;
    assert!(!verify_seal(&bad, &signer));

    let mut bad = sealed;
    bad.first_sequence += 1;
    assert!(!verify_seal(&bad, &signer));

    let mut bad = sealed;
    bad.count -= 1;
    assert!(!verify_seal(&bad, &signer));

    let mut bad = sealed;
    bad.signature[5] ^= 0x80;
    assert!(!verify_seal(&bad, &signer));

    assert!(!verify_seal(&sealed, &Blake3SealSigner::new([0x43u8; 32])));
}

#[test]
fn inclusion_proof_verifies_for_every_leaf() {
    for n in [1usize, 2, 3, 5, 7, 8] {
        let acc = filled_acc::<8>(n, 20);
        let root = acc.compute_root().unwrap();
        for i in 0..n {
            let proof = acc.inclusion_proof(i).unwrap();
            let mac = acc.leaf(i).unwrap();
            assert!(verify_inclusion(&root, &mac, &proof), "leaf {i} of {n} failed");
        }
    }
}

#[test]
fn inclusion_proof_tamper_detected() {
    let acc = filled_acc::<8>(6, 0);
    let root = acc.compute_root().unwrap();
    let proof = acc.inclusion_proof(2).unwrap();
    let mac = acc.leaf(2).unwrap();

    let mut bad_mac = mac;
    bad_mac[3] ^= 0xFF;
    assert!(!verify_inclusion(&root, &bad_mac, &proof));

    let mut bad = proof;
    bad.sequence += 1;
    assert!(!verify_inclusion(&root, &mac, &bad));

    let mut bad = proof;
    bad.index ^= 1;
    assert!(!verify_inclusion(&root, &mac, &bad));

    let mut bad = proof;
    bad.siblings[0][0] ^= 1;
    assert!(!verify_inclusion(&root, &mac, &bad));

    let mut bad_root = root;
    bad_root[0] ^= 1;
    assert!(!verify_inclusion(&bad_root, &mac, &proof));
}

#[test]
fn proof_for_sequence_addressing() {
    let acc = filled_acc::<8>(5, 100);
    let root = acc.compute_root().unwrap();
    let proof = acc.proof_for_sequence(103).unwrap();
    assert_eq!(proof.index, 3);
    assert!(verify_inclusion(&root, &acc.leaf(3).unwrap(), &proof));
    assert!(acc.proof_for_sequence(99).is_none());
    assert!(acc.proof_for_sequence(105).is_none());
}

#[test]
fn push_past_capacity_drops() {
    let mut acc = filled_acc::<4>(4, 0);
    assert!(acc.is_full());
    assert!(!acc.push([9u8; 16]));
    assert_eq!(acc.len(), 4);
}

fn make_record(kind: ActionKind, actor: u32, target: u64, ts: u64) -> WitnessRecordV2 {
    let mut r = WitnessRecordV2::zeroed();
    r.action_kind = kind as u8;
    r.actor_partition_id = actor;
    r.target_object_id = target;
    r.timestamp_ns = ts;
    r
}

#[test]
fn append_assigns_sequence_and_macs() {
    let mut log = WitnessLogV2::<16, 256>::new();
    let s0 = log.append(make_record(ActionKind::PartitionCreate, 1, 100, 1000));
    let s1 = log.append(make_record(ActionKind::CapabilityGrant, 1, 200, 2000));
    assert_eq!(s0, 0);
    assert_eq!(s1, 1);

    let r0 = log.get(0).unwrap();
    let r1 = log.get(1).unwrap();
    assert_eq!(r0.version, 2);
    assert_eq!(r0.prev_mac, [0u8; 16]);
    assert_ne!(r0.chain_mac, [0u8; 16]);
    assert_eq!(r1.prev_mac, r0.chain_mac);
    assert_eq!(log.chain_head(), r1.chain_mac);
}

#[test]
fn chain_mac_is_keyed() {
    let mut r = WitnessRecordV2::zeroed();
    r.sequence = 7;
    let bytes = r.to_bytes();
    let content = &bytes[..CONTENT_LEN];
    let m1 = compute_chain_mac_v2(&derive_chain_key(b"key-a"), content, &[0; 16]);
    let m2 = compute_chain_mac_v2(&derive_chain_key(b"key-b"), content, &[0; 16]);
    assert_ne!(m1, m2, "different keys must produce different MACs");
}

#[test]
fn chain_mac_binds_prev() {
    let r = WitnessRecordV2::zeroed();
    let bytes = r.to_bytes();
    let content = &bytes[..CONTENT_LEN];
    let key = default_chain_key();
    let m1 = compute_chain_mac_v2(&key, content, &[0x11; 16]);
    let m2 = compute_chain_mac_v2(&key, content, &[0x22; 16]);
    assert_ne!(m1, m2);
}

#[test]
fn ring_wrap_and_counters() {
    let mut log = WitnessLogV2::<4, 256>::new();
    for i in 0..10u64 {
        log.append(make_record(ActionKind::SchedulerEpoch, 1, i, i * 100));
    }
    assert_eq!(log.total_emitted(), 10);
    assert_eq!(log.len(), 4);
    assert_eq!(log.total_overwritten(), 6);
}

#[test]
fn genesis_anchoring() {
    let key = default_chain_key();
    let genesis = [0xA5u8; 16];
    let mut log = WitnessLogV2::<8, 256>::with_key_and_genesis(key, genesis);
    assert_eq!(log.genesis(), genesis);
    assert_eq!(log.chain_head(), genesis);
    log.append(make_record(ActionKind::BootAttestation, 0, 0, 1));
    assert_eq!(log.get(0).unwrap().prev_mac, genesis);
}

#[test]
fn snapshot_returns_most_recent() {
    let mut log = WitnessLogV2::<16, 256>::new();
    for i in 0..5u64 {
        log.append(make_record(ActionKind::SchedulerEpoch, 1, i, i * 100));
    }
    let mut buf = [WitnessRecordV2::zeroed(); 3];
    let copied = log.snapshot(&mut buf);
    assert_eq!(copied, 3);
    assert_eq!(buf[0].sequence, 2);
    assert_eq!(buf[2].sequence, 4);
}

#[test]
fn append_v1_content_carries_fields() {
    let mut log = WitnessLogV2::<8, 256>::new();
    let mut v1 = WitnessRecord::zeroed();
    v1.action_kind = ActionKind::RegionMap as u8;
    v1.proof_tier = 2;
    v1.actor_partition_id = 9;
    v1.target_object_id = 77;
    v1.capability_hash = 0xBEEF;
    v1.payload = [3; 8];
    v1.timestamp_ns = 123;
    v1.sequence = 999;
    v1.prev_hash = 0xDEAD;
    v1.record_hash = 0xFEED;

    log.append_v1_content(&v1);
    let r = log.get(0).unwrap();
    assert_eq!(r.sequence, 0);
    assert_eq!(r.action_kind, ActionKind::RegionMap as u8);
    assert_eq!(r.actor_partition_id, 9);
    assert_eq!(r.target_object_id, 77);
    assert_eq!(r.capability_hash, 0xBEEF);
    assert_eq!(r.payload, [3; 8]);
}

#[test]
fn segment_tracking() {
    let mut log = WitnessLogV2::<64, 4>::new();
    assert_eq!(log.segment_len(), 0);
    for i in 0..4u64 {
        log.append(make_record(ActionKind::SchedulerEpoch, 1, i, i));
    }
    assert!(log.segment_is_full());
    assert_eq!(log.segment_dropped(), 0);
    log.append(make_record(ActionKind::SchedulerEpoch, 1, 4, 4));
    assert_eq!(log.segment_dropped(), 1);
}

#[test]
fn chain_key_is_derived_with_the_context() {
    assert_eq!(CHAIN_KEY_CONTEXT, "rvm-witness 2026 v2 chain key");
    assert_eq!(derive_chain_key(b"boot"), blake3::derive_key(CHAIN_KEY_CONTEXT, b"boot"));
    assert_eq!(default_chain_key(), derive_chain_key(b"rvm-witness-default-chain-key-v2"));
}

#[test]
fn chain_mac_is_the_truncated_keyed_hash() {
    let content = [7u8; CONTENT_LEN];
    let prev = [9u8; 16];
    let key = [1u8; 32];
    let mut buf = [0u8; MAC_INPUT_LEN];
    buf[..CONTENT_LEN].copy_from_slice(&content);
    buf[CONTENT_LEN..].copy_from_slice(&prev);
    let hash = blake3::keyed_hash(&key, &buf);
    assert_eq!(&compute_chain_mac_v2(&key, &content, &prev)[..], &hash.as_bytes()[..16]);
}

#[test]
fn seal_digest_covers_root_and_range() {
    let root = [5u8; 32];
    let mut buf = vec![2u8];
    buf.extend_from_slice(&root);
    buf.extend_from_slice(&17u64.to_le_bytes());
    buf.extend_from_slice(&3u32.to_le_bytes());
    assert_eq!(&seal_digest(&root, 17, 3), blake3::hash(&buf).as_bytes());
}

#[test]
fn signature_is_the_padded_keyed_hash() {
    let digest = [6u8; 32];
    let signature = test_signer().sign_root(&digest);
    assert_eq!(&signature[..32], blake3::keyed_hash(&[0x42u8; 32], &digest).as_bytes());
    assert_eq!(&signature[32..], &[0u8; 32]);
    assert!(test_signer().verify_root(&digest, &signature));
}

fn hash_of(parts: &[&[u8]]) -> [u8; 32] {
    let mut buf = Vec::new();
    for p in parts {
        buf.extend_from_slice(p);
    }
    *blake3::hash(&buf).as_bytes()
}

#[test]
fn odd_leaf_is_promoted() {
    let acc = filled_acc::<8>(3, 40);
    let leaf = |i: u64| hash_of(&[&[0u8], &(40 + i).to_le_bytes(), &acc.leaf(i as usize).unwrap()]);
    let pair = hash_of(&[&[1u8], &leaf(0), &leaf(1)]);
    let root = hash_of(&[&[1u8], &pair, &leaf(2)]);
    assert_eq!(acc.compute_root(), Some(root));
    let proof = acc.inclusion_proof(2).unwrap();
    assert_eq!(proof.depth, 2);
    assert_eq!(&proof.present[..2], &[false, true]);
    assert_eq!(proof.siblings[1], pair);
}

#[test]
fn proof_deeper_than_allowed_is_refused() {
    let acc = filled_acc::<8>(2, 0);
    let root = acc.compute_root().unwrap();
    let mut proof = acc.inclusion_proof(0).unwrap();
    assert!(verify_inclusion(&root, &acc.leaf(0).unwrap(), &proof));
    proof.depth = MAX_MERKLE_DEPTH as u8 + 1;
    assert!(!verify_inclusion(&root, &acc.leaf(0).unwrap(), &proof));
    assert!(acc.inclusion_proof(2).is_none());
    assert!(acc.leaf(2).is_none());
}

#[test]
fn record_bytes_have_a_fixed_layout() {
    let mut r = WitnessRecordV2::zeroed();
    r.sequence = 0x0102030405060708;
    r.timestamp_ns = 9;
    r.action_kind = 10;
    r.proof_tier = 11;
    r.flags = 12;
    r.version = VERSION;
    r.actor_partition_id = 13;
    r.target_object_id = 14;
    r.capability_hash = 15;
    r.payload = [16; 8];
    r.prev_mac = [17; 16];
    r.chain_mac = [18; 16];
    let bytes = r.to_bytes();
    assert_eq!(bytes.len(), 76);
    assert_eq!(&bytes[..8], &[8, 7, 6, 5, 4, 3, 2, 1]);
    assert_eq!(&bytes[8..16], &9u64.to_le_bytes());
    assert_eq!(&bytes[16..20], &[10, 11, 12, 2]);
    assert_eq!(&bytes[20..24], &13u32.to_le_bytes());
    assert_eq!(&bytes[24..32], &14u64.to_le_bytes());
    assert_eq!(&bytes[32..36], &15u32.to_le_bytes());
    assert_eq!(&bytes[36..44], &[16; 8]);
    assert_eq!(&bytes[44..60], &[17; 16]);
    assert_eq!(&bytes[60..76], &[18; 16]);
}

#[test]
fn sealed_segment_proves_its_records() {
    let mut log = WitnessLogV2::<8, 4>::new();
    assert!(log.seal_segment(&test_signer()).is_none());
    for i in 0..3u64 {
        log.append(make_record(ActionKind::SchedulerEpoch, 1, i, i));
    }
    let (sealed, acc) = log.seal_segment(&test_signer()).unwrap();
    assert!(verify_seal(&sealed, &test_signer()));
    assert_eq!(sealed.count, 3);
    assert_eq!(acc.first_sequence(), 0);
    for i in 0..3usize {
        let mac = log.get(i).unwrap().chain_mac;
        let proof = acc.proof_for_sequence(i as u64).unwrap();
        assert!(verify_inclusion(&sealed.root, &mac, &proof));
    }
    assert_eq!(log.segment_len(), 0);
    log.append(make_record(ActionKind::SchedulerEpoch, 1, 3, 3));
    let (second, _) = log.seal_segment(&test_signer()).unwrap();
    assert_eq!(second.first_sequence, 3);
}

#[test]
fn wrapped_snapshot_is_oldest_first() {
    let mut log = WitnessLogV2::<4, 4>::new();
    assert!(log.is_empty());
    assert!(log.get(0).is_none());
    for i in 0..6u64 {
        log.append(make_record(ActionKind::SchedulerEpoch, 1, i, i));
    }
    let mut buf = [WitnessRecordV2::zeroed(); 8];
    assert_eq!(log.snapshot(&mut buf), 4);
    let order: Vec<u64> = buf[..4].iter().map(|r| r.sequence).collect();
    assert_eq!(order, vec![2, 3, 4, 5]);
    assert!(log.needs_drain(4));
    assert!(!log.needs_drain(5));
    assert!(log.get(4).is_none());
    assert_eq!(DEFAULT_SEGMENT_SIZE, 256);
}

#[test]
fn chain_can_be_recomputed() {
    let key = derive_chain_key(b"replay");
    let mut log = WitnessLogV2::<8, 8>::with_key(key);
    for i in 0..5u64 {
        log.append(make_record(ActionKind::PartitionCreate, 2, i, i));
    }
    assert_eq!(log.chain_key(), key);
    let mut prev = log.genesis();
    for i in 0..5usize {
        let r = log.get(i).unwrap();
        assert_eq!(r.prev_mac, prev);
        assert_eq!(r.chain_mac, compute_chain_mac_v2(&key, &r.to_bytes()[..CONTENT_LEN], &prev));
        prev = r.chain_mac;
    }
    assert_eq!(prev, log.chain_head());
}

#[test]
fn cut_off_chain_has_another_head() {
    let key = derive_chain_key(b"anchor");
    let mut heads: Vec<[u8; 16]> = Vec::new();
    let mut log = WitnessLogV2::<8, 8>::with_key(key);
    heads.push(log.chain_head());
    for i in 0..6u64 {
        log.append(make_record(ActionKind::PartitionCreate, 1, i, i));
        assert!(!heads.contains(&log.chain_head()));
        heads.push(log.chain_head());
    }
}

#[test]
fn shortened_or_lengthened_proof_is_refused() {
    let acc = filled_acc::<8>(7, 3);
    let root = acc.compute_root().unwrap();
    for i in 0..7 {
        let mac = acc.leaf(i).unwrap();
        let proof = acc.inclusion_proof(i).unwrap();
        let mut short = proof;
        short.depth -= 1;
        assert_eq!(verify_inclusion(&root, &mac, &short), !proof.present[short.depth as usize]);
        let mut deep = proof;
        deep.depth = 33;
        assert!(!verify_inclusion(&root, &mac, &deep));
        let mut long = proof;
        long.present[long.depth as usize] = true;
        long.depth += 1;
        assert!(!verify_inclusion(&root, &mac, &long));
    }
}

#[test]
fn unused_entries_of_a_proof_are_empty() {
    let acc = filled_acc::<8>(5, 20);
    let p = acc.inclusion_proof(4).unwrap();
    assert_eq!((p.index, p.sequence, p.depth), (4, 24, 3));
    assert_eq!(&p.present[..3], &[false, false, true]);
    assert!(p.present[3..].iter().all(|x| !x));
    assert_eq!(p.siblings[0], [0u8; 32]);
    assert_eq!(p.siblings[1], [0u8; 32]);
    assert_ne!(p.siblings[2], [0u8; 32]);
    assert!(p.siblings[3..].iter().all(|s| *s == [0u8; 32]));
    for offset in 0..5 {
        let a = acc.inclusion_proof(offset).unwrap();
        let b = acc.proof_for_sequence(20 + offset as u64).unwrap();
        assert_eq!((a.index, a.sequence, a.depth), (b.index, b.sequence, b.depth));
        assert_eq!(a.present, b.present);
        assert_eq!(a.siblings, b.siblings);
    }
    let first = acc.inclusion_proof(0).unwrap();
    assert_eq!(first.siblings[0], leaf_hash(21, &acc.leaf(1).unwrap()));
}
