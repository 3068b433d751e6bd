use bloch_pos_node::signing_history::{BindError, GuardError, Interchange, SigningHistory, INTERCHANGE_HEADER};

const NET: [u8; 32] = [7u8; 32];
const KEY: &[u8] = b"a stand-in hybrid pubkey";

fn fresh() -> SigningHistory {
    SigningHistory::create_bound(&NET, KEY)
}

#[test]
fn the_parser_is_strict_about_what_a_protection_file_must_say() {
    let ok = format!(
        "{INTERCHANGE_HEADER}\n# a comment\nnetwork: unbound\npubkey: 00ff\n\
         highest-proposed-slot: none\nmax-source-epoch: none\nmax-target-epoch: none\n"
    );
    SigningHistory::parse_interchange(&ok).expect("minimal valid file");

    for bad in [
        "".to_string(),
        "not-the-header v9\nnetwork: unbound\n".to_string(),
        format!(
            "{INTERCHANGE_HEADER}\nnetwork: unbound\nhighest-proposed-slot: none\n\
             max-source-epoch: none\nmax-target-epoch: none\n"
        ),
        format!(
            "{INTERCHANGE_HEADER}\nnetwork: unbound\npubkey: 00ff\n\
             highest-proposed-slot: none\nmax-source-epoch: 3\nmax-target-epoch: none\n"
        ),
        format!(
            "{INTERCHANGE_HEADER}\nnetwork: unbound\npubkey: 00ff\n\
             highest-proposed-slot: none\nmax-source-epoch: 5\nmax-target-epoch: 5\n"
        ),
        format!(
            "{INTERCHANGE_HEADER}\nnetwork: unbound\npubkey: 00ff\nsurprise: 1\n\
             highest-proposed-slot: none\nmax-source-epoch: none\nmax-target-epoch: none\n"
        ),
    ] {
        assert!(SigningHistory::parse_interchange(&bad).is_err(), "must refuse: {bad:?}");
    }
}

#[test]
fn a_second_proposal_for_the_same_or_a_lower_slot_is_refused() {
    let mut h = fresh();
    h.record_proposal(10).expect("first proposal at slot 10");
    assert!(matches!(h.record_proposal(10), Err(GuardError::Refused(_))));
    assert!(matches!(h.record_proposal(9), Err(GuardError::Refused(_))));
    h.record_proposal(11).expect("slot 11 is above the watermark");
}

#[test]
fn surround_and_double_votes_are_refused_in_both_directions() {
    let mut h = fresh();
    h.record_attestation(2, 5).expect("first vote (2 → 5)");
    assert!(matches!(h.record_attestation(3, 5), Err(GuardError::Refused(_))));
    assert!(matches!(h.record_attestation(1, 6), Err(GuardError::Refused(_))));
    assert!(matches!(h.record_attestation(3, 4), Err(GuardError::Refused(_))));
    assert!(matches!(h.record_attestation(6, 6), Err(GuardError::Refused(_))));
    h.record_attestation(2, 6).expect("(2 → 6) extends the chain");
    h.record_attestation(5, 7).expect("(5 → 7) after justification moved");
}

#[test]
fn crash_after_record_before_sign_misses_the_duty_instead_of_double_signing() {
    let mut h = fresh();
    h.record_proposal(42).expect("record slot 42");
    h.record_attestation(3, 9).expect("record vote (3 → 9)");
    let bytes = h.encode();
    let mut h = SigningHistory::decode(&bytes).expect("reopen after the crash");
    assert_eq!(h.highest_proposed_slot(), Some(42));
    assert_eq!(h.attestation_watermark(), Some((3, 9)));
    assert!(matches!(h.record_proposal(42), Err(GuardError::Refused(_))));
    assert!(matches!(h.record_attestation(3, 9), Err(GuardError::Refused(_))));
    h.record_proposal(43).expect("the next slot signs normally");
    h.record_attestation(3, 10).expect("the next target too");
}

#[test]
fn a_missing_store_is_not_found_and_garbage_is_invalid_never_fresh() {
    assert!(SigningHistory::decode(b"BADMAGIC and then some").is_err(), "bad magic");
    let bytes = fresh().encode();
    assert!(SigningHistory::decode(&bytes[..6]).is_err(), "truncated");
    assert!(SigningHistory::decode(&bytes[..bytes.len() - 1]).is_err(), "truncated body");
    assert!(SigningHistory::decode(&[]).is_err());
}

#[test]
fn create_refuses_to_overwrite_and_bind_refuses_foreign_key_or_network() {
    let mut h = SigningHistory::create_unbound(KEY);
    assert_eq!(h.bind(&NET, b"another key"), Err(BindError::ForeignKey));
    assert_eq!(h.bind(&NET, KEY), Ok(true), "an unbound history binds now");
    assert_eq!(h.bind(&NET, KEY), Ok(false), "already bound");
    assert_eq!(h.bind(&[9u8; 32], KEY), Err(BindError::ForeignNetwork));
}

#[test]
fn export_parses_back_to_the_same_record() {
    let mut h = fresh();
    h.record_proposal(77).expect("record");
    h.record_attestation(4, 8).expect("record");
    let text = h.export_text();
    let rec = SigningHistory::parse_interchange(&text).expect("parse own export");
    assert_eq!(
        rec,
        Interchange {
            network: Some(NET),
            pubkey: KEY.to_vec(),
            highest_proposed_slot: Some(77),
            attestation: Some((4, 8)),
        }
    );
    let rec2 = SigningHistory::parse_interchange(&fresh().export_text()).expect("parse");
    assert_eq!(rec2.highest_proposed_slot, None);
    assert_eq!(rec2.attestation, None);
}

#[test]
fn import_merges_upward_only_and_refuses_foreign_records() {
    let mut h = fresh();
    h.record_proposal(50).expect("record");
    h.record_attestation(5, 9).expect("record");
    h.merge_interchange(&Interchange {
        network: Some(NET),
        pubkey: KEY.to_vec(),
        highest_proposed_slot: Some(40),
        attestation: Some((3, 7)),
    })
    .expect("merging an older record is a no-op, not an error");
    assert_eq!(h.highest_proposed_slot(), Some(50));
    assert_eq!(h.attestation_watermark(), Some((5, 9)));
    h.merge_interchange(&Interchange {
        network: Some(NET),
        pubkey: KEY.to_vec(),
        highest_proposed_slot: Some(60),
        attestation: Some((6, 11)),
    })
    .expect("merging a newer record");
    let mut h = SigningHistory::decode(&h.encode()).expect("reopen");
    assert_eq!(h.highest_proposed_slot(), Some(60));
    assert_eq!(h.attestation_watermark(), Some((6, 11)));
    assert!(matches!(
        h.merge_interchange(&Interchange {
            network: Some(NET),
            pubkey: b"not this validator".to_vec(),
            highest_proposed_slot: None,
            attestation: None,
        }),
        Err(GuardError::Refused(_))
    ));
    assert!(matches!(
        h.merge_interchange(&Interchange {
            network: Some([9u8; 32]),
            pubkey: KEY.to_vec(),
            highest_proposed_slot: None,
            attestation: None,
        }),
        Err(GuardError::Refused(_))
    ));
}

#[test]
fn a_restored_snapshot_refuses_every_duty_signed_before_the_snapshot() {
    let mut h = fresh();
    h.record_proposal(100).expect("sign slot 100");
    h.record_attestation(10, 12).expect("sign vote (10 → 12)");
    let snapshot = h.encode();
    h.record_proposal(101).expect("sign slot 101 after the snapshot");
    let mut r = SigningHistory::decode(&snapshot).expect("boot from the snapshot");
    assert!(matches!(r.record_proposal(100), Err(GuardError::Refused(_))));
    assert!(matches!(r.record_proposal(99), Err(GuardError::Refused(_))));
    assert!(matches!(r.record_attestation(10, 12), Err(GuardError::Refused(_))));
    assert!(matches!(r.record_attestation(9, 13), Err(GuardError::Refused(_))));
    r.record_proposal(101).expect("the post-snapshot slot is not covered");
}

#[test]
fn a_guard_error_says_why_nothing_was_signed() {
    assert_eq!(
        GuardError::Refused("slot 4 is not above 9".to_string()).message(),
        "slashing protection refused to sign: slot 4 is not above 9"
    );
    assert_eq!(
        GuardError::Io("disk full".to_string()).message(),
        "slashing protection could not record the signature before releasing it (disk full); refusing to sign, because a signature the store cannot remember is a signature a restart can repeat"
    );
}
