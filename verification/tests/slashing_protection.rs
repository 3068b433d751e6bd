use bloch_pos_node::slashprot::{
    decode, encode, import_bound, initialize_floor, mismatch_what, Binding, OpenError, Refusal,
    SlashingProtection, Watermarks,
};

const KEY_A: Binding = Binding { validator_pubkey_sha3: [0xA1; 32], genesis_digest: [0x44; 32] };
const KEY_B: Binding = Binding { validator_pubkey_sha3: [0xB2; 32], genesis_digest: [0x44; 32] };
const KEY_A_OTHER_NET: Binding = Binding { validator_pubkey_sha3: [0xA1; 32], genesis_digest: [0x55; 32] };

/// Commit `next` the way a node does: the record first, then the state.
fn commit(sp: &mut SlashingProtection, next: Watermarks) -> Vec<u8> {
    let rec = sp.record_for(&next).expect("record");
    sp.commit(next);
    rec
}

#[test]
fn watermarks_round_trip() {
    for wm in [
        Watermarks::default(),
        Watermarks {
            proposal_slot: Some(0),
            attestation_slot: Some(u64::MAX - 1),
            source_epoch: None,
            target_epoch: Some(7),
        },
    ] {
        assert_eq!(decode(&encode(&wm, None)), Some((wm, None)));
        let b = Binding { validator_pubkey_sha3: [0xAB; 32], genesis_digest: [0xCD; 32] };
        assert_eq!(decode(&encode(&wm, Some(&b))), Some((wm, Some(b))));
    }
}

#[test]
fn a_relabelled_record_is_corrupt_not_a_version_change() {
    let wm = Watermarks { proposal_slot: Some(9), ..Default::default() };
    let mut v1 = encode(&wm, None);
    v1[..8].copy_from_slice(b"BPOSSLP2");
    assert_eq!(decode(&v1), None);
    let mut v2 = encode(&wm, Some(&KEY_A));
    v2[..8].copy_from_slice(b"BPOSSLP1");
    assert_eq!(decode(&v2), None);
    let mut v2 = encode(&wm, Some(&KEY_A));
    v2[12 + 32] ^= 1;
    assert_eq!(decode(&v2), None);
}

#[test]
fn a_restart_refuses_to_re_sign_an_already_signed_slot() {
    let mut sp = SlashingProtection::open_with(None, None).expect("open");
    let next = sp.guard_attestation(5, 1, 2).expect("first");
    commit(&mut sp, next);
    let next = sp.guard_proposal(5).expect("first");
    let record = commit(&mut sp, next);

    let sp = SlashingProtection::open_with(Some(&record), None).expect("reopen");
    assert_eq!(sp.watermarks().attestation_slot, Some(5), "the watermark survived");
    assert!(matches!(sp.guard_attestation(5, 1, 2), Err(Refusal::AttestationSlot { slot: 5, watermark: 5 })));
    assert!(matches!(sp.guard_proposal(5), Err(Refusal::Proposal { slot: 5, watermark: 5 })));
    assert!(sp.guard_attestation(6, 2, 3).is_ok());
    assert!(sp.guard_proposal(6).is_ok());
}

#[test]
fn a_second_vote_in_one_target_epoch_is_refused() {
    let mut sp = SlashingProtection::open_with(None, None).unwrap();
    let next = sp.guard_attestation(8, 1, 2).unwrap();
    commit(&mut sp, next);
    let r = sp.guard_attestation(9, 1, 2);
    assert!(matches!(r, Err(Refusal::DoubleVote { target_epoch: 2, watermark: 2 })), "{r:?}");
}

#[test]
fn a_vote_whose_source_goes_backwards_is_refused() {
    let mut sp = SlashingProtection::open_with(None, None).unwrap();
    let next = sp.guard_attestation(8, 4, 5).unwrap();
    commit(&mut sp, next);
    let r = sp.guard_attestation(9, 2, 9);
    assert!(matches!(r, Err(Refusal::SurroundVote { source_epoch: 2, watermark: 4 })), "{r:?}");
}

#[test]
fn a_corrupt_watermark_file_refuses_to_open() {
    let mut sp = SlashingProtection::open_with(None, None).unwrap();
    let next = sp.guard_proposal(3).unwrap();
    let mut bytes = commit(&mut sp, next);
    bytes[20] ^= 0xFF;
    assert!(matches!(SlashingProtection::open_with(Some(&bytes), None), Err(OpenError::Corrupt)));
}

#[test]
fn a_watermark_file_bound_to_another_identity_is_refused_naming_the_mismatch() {
    let mut sp = SlashingProtection::open_with(None, Some(KEY_A)).expect("fresh, bound");
    assert_eq!(sp.binding(), Some(KEY_A));
    let next = sp.guard_proposal(5).unwrap();
    let raw = commit(&mut sp, next);
    assert_eq!(&raw[..8], b"BPOSSLP2");

    match SlashingProtection::open_with(Some(&raw), Some(KEY_B)) {
        Err(OpenError::Mismatch { file, mine }) => {
            assert!(mismatch_what(&file, &mine).contains("DIFFERENT VALIDATOR KEY"));
        }
        _ => panic!("B must be refused"),
    }
    match SlashingProtection::open_with(Some(&raw), Some(KEY_A_OTHER_NET)) {
        Err(OpenError::Mismatch { file, mine }) => {
            assert!(mismatch_what(&file, &mine).contains("DIFFERENT NETWORK"));
        }
        _ => panic!("other net refused"),
    }
    let sp = SlashingProtection::open_with(Some(&raw), Some(KEY_A)).expect("the owner reopens it");
    assert_eq!(sp.watermarks().proposal_slot, Some(5));
}

#[test]
fn a_legacy_unbound_record_is_adopted_and_bound_on_its_next_commit() {
    let legacy = Watermarks {
        proposal_slot: Some(100),
        attestation_slot: Some(101),
        source_epoch: Some(2),
        target_epoch: Some(3),
    };
    let file = encode(&legacy, None);
    let mut sp = SlashingProtection::open_with(Some(&file), Some(KEY_A)).expect("legacy file adopted");
    assert_eq!(sp.watermarks(), legacy);
    assert_eq!(sp.binding(), Some(KEY_A));
    assert!(sp.guard_attestation(101, 2, 3).is_err());
    let next = sp.guard_attestation(102, 3, 4).expect("a later duty commits");
    let raw = commit(&mut sp, next);
    assert_eq!(&raw[..8], b"BPOSSLP2", "the commit upgraded the record");
    assert!(SlashingProtection::open_with(Some(&raw), Some(KEY_B)).is_err());
    assert!(SlashingProtection::open_with(Some(&raw), Some(KEY_A)).is_ok());
}

#[test]
fn an_unbound_open_preserves_an_existing_binding() {
    let mut sp = SlashingProtection::open_with(None, Some(KEY_A)).unwrap();
    let next = sp.guard_proposal(1).unwrap();
    let raw = commit(&mut sp, next);
    let mut sp = SlashingProtection::open_with(Some(&raw), None).expect("unbound open of a bound file");
    assert_eq!(sp.binding(), Some(KEY_A));
    let next = sp.guard_proposal(2).unwrap();
    let raw = commit(&mut sp, next);
    assert!(SlashingProtection::open_with(Some(&raw), Some(KEY_B)).is_err(), "binding survived");
    assert_eq!(
        SlashingProtection::open_with(Some(&raw), Some(KEY_A)).unwrap().watermarks().proposal_slot,
        Some(2)
    );
}

#[test]
fn audit_recovery_is_bound_monotone_and_durable() {
    let source = SlashingProtection::open_with(None, Some(KEY_A)).unwrap();
    let (floor, rec) = initialize_floor(&source, 97).unwrap();
    let backup = bloch_pos_node::slashprot::record_bytes(&floor, Some(KEY_A), rec).unwrap();

    let fresh_b = SlashingProtection::open_with(None, Some(KEY_B)).unwrap();
    assert!(import_bound(&fresh_b, KEY_B, &backup).is_err());
    let mut bad = backup.clone();
    bad.push(0);
    let mut dest = SlashingProtection::open_with(None, Some(KEY_A)).unwrap();
    assert!(import_bound(&dest, KEY_A, &bad).is_err());
    let (merged, _) = import_bound(&dest, KEY_A, &backup).unwrap();
    assert_eq!(merged.proposal_slot, Some(96));
    dest.commit(merged);
    let (raised, _) = initialize_floor(&dest, 193).unwrap();
    dest.commit(raised);
    let (merged, _) = import_bound(&dest, KEY_A, &backup).unwrap();
    assert_eq!(merged.proposal_slot, Some(192));
    assert_eq!(merged.source_epoch, Some(6));
    dest.commit(merged);
    assert!(dest.guard_proposal(192).is_err());
    assert!(dest.guard_attestation(193, 0, 1).is_err());
    assert!(initialize_floor(&dest, 0).is_err());
    assert!(initialize_floor(&dest, u64::MAX).is_err());
}

#[test]
fn a_watermark_refusal_names_the_offence() {
    assert_eq!(
        Refusal::Proposal { slot: 5, watermark: 6 }.message(),
        "slashing protection: refusing to propose for slot 5; slot 6 is already signed (a second block here is a proposer offence)"
    );
    assert_eq!(
        Refusal::AttestationSlot { slot: 0, watermark: 12 }.message(),
        "slashing protection: refusing to attest at slot 0; slot 12 is already signed"
    );
    assert_eq!(
        Refusal::DoubleVote { target_epoch: 4, watermark: 4 }.message(),
        "slashing protection: refusing to attest to target epoch 4; target epoch 4 is already signed (double vote)"
    );
    assert_eq!(
        Refusal::SurroundVote { source_epoch: 2, watermark: 3 }.message(),
        "slashing protection: refusing to attest from source epoch 2; source epoch 3 is already signed (surround vote)"
    );
    assert_eq!(
        Refusal::Recommit { epoch: 10, generation: 2, reason: "invalid epoch or generation" }.message(),
        "slashing protection: refusing RANDAO recommit at epoch 10, generation 2: invalid epoch or generation"
    );
    assert_eq!(
        Refusal::Io("read-only file system".to_string()).message(),
        "slashing protection: refusing to sign because the watermark could not be made durable: read-only file system"
    );
}
