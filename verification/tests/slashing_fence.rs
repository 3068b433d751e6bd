use bloch_pos_node::slashdb::{DecodeError, Marks, Refusal, SlashingProtection, COMPACT_AFTER, RECORD_LEN};

const NET: [u8; 32] = [0x44; 32];
const KEY_A: &[u8] = b"validator A public key";
const KEY_B: &[u8] = b"validator B public key";

/// A fence and the bytes of its log, appended to as a node would.
struct Fence {
    fence: SlashingProtection,
    log: Vec<u8>,
}

impl Fence {
    fn open(log: Vec<u8>, key: &[u8]) -> Result<Fence, (u64, DecodeError)> {
        let fence = SlashingProtection::open(if log.is_empty() { None } else { Some(&log) }, key, &NET)?;
        Ok(Fence { fence, log })
    }

    fn commit(&mut self, next: Marks) {
        let rec = self.fence.record(&next);
        self.log.extend_from_slice(&rec);
        if self.fence.commit(next) {
            self.log = self.fence.record(&self.fence.marks());
            self.fence.compacted();
        }
    }

    fn attest(&mut self, slot: u64, source: u64, target: u64) -> Result<(), Refusal> {
        let next = self.fence.attest_with(slot, source, target)?;
        self.commit(next);
        Ok(())
    }

    fn import(&mut self, other: Marks) {
        if let Some(next) = self.fence.import(other) {
            self.commit(next);
        }
    }
}

#[test]
fn a_fence_from_another_validator_is_refused_by_name() {
    let mut a = Fence::open(Vec::new(), KEY_A).unwrap();
    a.attest(900, 27, 28).unwrap();
    let err = Fence::open(a.log.clone(), KEY_B).err().expect("must refuse another validator's fence");
    assert_eq!(err, (0, DecodeError::Owner));
    assert!(err.1.describe().contains("DIFFERENT validator"));
    let other_net = [0x55u8; 32];
    let err = SlashingProtection::open(Some(&a.log), KEY_A, &other_net).err().unwrap();
    assert_eq!(err.1, DecodeError::Network);
    assert!(err.1.describe().contains("different network"));
}

#[test]
fn importing_a_fence_only_ever_raises_it() {
    let mut fence = Fence::open(Vec::new(), KEY_A).unwrap();
    fence.attest(100, 2, 3).unwrap();
    fence.import(Marks { has_attested: true, attested_slot: 50, source_epoch: 1, target_epoch: 1, ..Default::default() });
    assert_eq!(fence.fence.marks().attested_slot, 100, "a stale import must not lower the floor");
    assert_eq!(fence.fence.marks().target_epoch, 3);
    assert_eq!(fence.fence.records(), 1, "a stale import writes nothing");
    fence.import(Marks {
        has_attested: true,
        attested_slot: 400,
        source_epoch: 11,
        target_epoch: 12,
        has_proposed: true,
        proposed_slot: 399,
    });
    assert_eq!(fence.fence.marks().attested_slot, 400);
    assert_eq!(fence.fence.marks().proposed_slot, 399);
    assert!(matches!(fence.attest(300, 11, 12), Err(Refusal::AttestSlotRegression { .. })));
    let reopened = Fence::open(fence.log.clone(), KEY_A).unwrap();
    assert_eq!(reopened.fence.marks().attested_slot, 400);
}

#[test]
fn a_torn_trailing_record_is_dropped_and_a_corrupt_middle_one_refuses() {
    let mut fence = Fence::open(Vec::new(), KEY_A).unwrap();
    fence.attest(10, 0, 1).unwrap();
    fence.attest(42, 1, 2).unwrap();
    let mut bytes = fence.log.clone();
    assert_eq!(bytes.len(), 2 * RECORD_LEN);
    let last = bytes.len() - 1;
    bytes[last] ^= 0xFF;
    let torn = Fence::open(bytes.clone(), KEY_A).expect("torn tail is ok");
    assert_eq!(torn.fence.marks().attested_slot, 10, "falls back to the last durable record");

    let short = Fence::open(bytes[..RECORD_LEN + 7].to_vec(), KEY_A).expect("short tail is ok");
    assert_eq!(short.fence.marks().attested_slot, 10);

    let mut good = Fence::open(fence.log.clone(), KEY_A).unwrap();
    good.attest(99, 2, 3).unwrap();
    let mut all = good.log.clone();
    all[0] ^= 0xFF;
    let err = Fence::open(all, KEY_A).err().expect("a corrupt non-trailing record must refuse to start");
    assert_eq!(err, (0, DecodeError::Magic));
}

#[test]
fn compaction_preserves_the_maxima() {
    let mut fence = Fence::open(Vec::new(), KEY_A).unwrap();
    let votes = COMPACT_AFTER + 5;
    for slot in 1..=votes {
        fence.attest(slot, 0, slot).unwrap();
    }
    assert!(fence.log.len() <= 6 * RECORD_LEN, "the log was compacted, {} bytes", fence.log.len());
    assert_eq!(COMPACT_AFTER, 4_096, "the value a node actually runs with");
    let top = fence.fence.marks();
    let reopened = Fence::open(fence.log.clone(), KEY_A).unwrap();
    assert_eq!(reopened.fence.marks(), top, "compaction preserved every maximum");
}

#[test]
fn the_fence_refuses_repeats_and_regressions() {
    let mut fence = Fence::open(Vec::new(), KEY_A).unwrap();
    fence.attest(8, 1, 2).unwrap();
    assert!(matches!(fence.attest(8, 1, 3), Err(Refusal::AttestSlotRegression { slot: 8, highest: 8 })));
    assert!(matches!(fence.attest(9, 1, 2), Err(Refusal::DoubleVote { target: 2, highest: 2 })));
    assert!(matches!(fence.attest(9, 0, 3), Err(Refusal::SurroundVote { source: 0, lowest: 1 })));
    let next = fence.fence.propose_with(5).unwrap();
    fence.commit(next);
    assert!(matches!(fence.fence.propose_with(5), Err(Refusal::ProposeSlotRegression { slot: 5, highest: 5 })));
    assert!(fence.fence.propose_with(6).is_ok());
}

#[test]
fn the_owner_binding_is_a_digest_of_the_public_key() {
    let a = SlashingProtection::owner_of(KEY_A);
    assert_eq!(a, SlashingProtection::owner_of(KEY_A));
    assert_ne!(a, SlashingProtection::owner_of(KEY_B));
    assert_ne!(&a[..], &KEY_A[..KEY_A.len().min(32)]);
}

#[test]
fn the_fence_reads_no_clock() {
    let mut fence = Fence::open(Vec::new(), KEY_A).unwrap();
    fence.attest(1_000, 30, 31).expect("first");
    for slot in [1_000u64, 999, 500, 0] {
        let r = fence.attest(slot, 30, 31);
        assert!(
            matches!(r, Err(Refusal::AttestSlotRegression { .. })),
            "slot {slot} must be refused regardless of wall time, got {r:?}"
        );
    }
    assert!(matches!(fence.attest(1_001, 30, 31), Err(Refusal::DoubleVote { .. })));
    assert!(matches!(fence.attest(1_002, 29, 32), Err(Refusal::SurroundVote { .. })));
    fence.attest(1_002, 30, 32).expect("an honest next-epoch vote is allowed");
}

#[test]
fn a_refusal_names_the_offence_it_prevented() {
    assert_eq!(
        Refusal::DoubleVote { target: 31, highest: 31 }.message(),
        "refusing to attest target epoch 31: already voted target epoch 31 (this would be a DoubleVote)"
    );
    assert_eq!(
        Refusal::SurroundVote { source: 29, lowest: 30 }.message(),
        "refusing to attest source epoch 29: already voted from source epoch 30 (this would be a SurroundVote)"
    );
    assert_eq!(
        Refusal::ProposeSlotRegression { slot: 7, highest: 9 }.message(),
        "refusing to propose slot 7: already proposed slot 9 (this would be a ProposerEquivocation)"
    );
    let m = Refusal::AttestSlotRegression { slot: 999, highest: 1_000 }.message();
    assert!(m.starts_with("refusing to attest slot 999: this validator has already attested slot 1000. "));
    assert!(m.ends_with("fix the clock; the fence will not"));
    assert_eq!(
        Refusal::Io("disk full".to_string()).message(),
        "refusing to sign: the slashing-protection record could not be made durable (disk full). Signing without it is the offence this fence exists to prevent"
    );
}
