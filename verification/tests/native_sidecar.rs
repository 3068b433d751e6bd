use bloch_pos_node::native_snapshot::{
    check_binding, decode_record, encode_record, SnapshotBinding, BAD_SIZE, CHECKSUM_MISMATCH,
    EXCEEDS_LIMIT, HEADER_BYTES, LENGTH_MISMATCH, OTHER_GENESIS, ROOT_CONTRADICTION, SCHEMA_MISMATCH,
    SLOT_CONTRADICTION,
};

const MAX: usize = 1 << 20;

fn binding() -> SnapshotBinding {
    SnapshotBinding { genesis: [1; 32], head: [2; 32], root: [3; 32], slot: 77 }
}

#[test]
fn durable_sidecar_roundtrips_binding_and_payload() {
    for payload in [vec![], vec![9u8; 1], vec![0xA5; 4097]] {
        let rec = encode_record(&binding(), &payload, MAX).unwrap();
        assert_eq!(rec.len(), HEADER_BYTES + payload.len());
        assert_eq!(&rec[..8], b"BPOSNAT1");
        let (b, p) = decode_record(&rec, MAX).unwrap();
        assert_eq!(b, binding());
        assert_eq!(p, payload);
    }
}

#[test]
fn a_payload_over_the_limit_is_refused_both_ways() {
    assert_eq!(encode_record(&binding(), &[0u8; 11], 10), Err(EXCEEDS_LIMIT));
    let rec = encode_record(&binding(), &[0u8; 11], 11).unwrap();
    assert_eq!(decode_record(&rec, 10), Err(BAD_SIZE));
}

#[test]
fn corrupt_truncated_trailing_and_forged_length_files_are_refused() {
    let rec = encode_record(&binding(), &[7u8; 40], MAX).unwrap();
    assert_eq!(decode_record(&rec[..100], MAX), Err(BAD_SIZE));

    let mut bad = rec.clone();
    bad[0] ^= 1;
    assert_eq!(decode_record(&bad, MAX), Err(SCHEMA_MISMATCH));

    let mut bad = rec.clone();
    bad.push(0);
    assert_eq!(decode_record(&bad, MAX), Err(LENGTH_MISMATCH));

    let mut bad = rec.clone();
    bad[116..120].copy_from_slice(&41u32.to_le_bytes());
    assert_eq!(decode_record(&bad, MAX), Err(LENGTH_MISMATCH));

    let mut bad = rec.clone();
    let last = bad.len() - 1;
    bad[last] ^= 1;
    assert_eq!(decode_record(&bad, MAX), Err(CHECKSUM_MISMATCH));

    let mut bad = rec.clone();
    bad[108] ^= 1;
    assert_eq!(decode_record(&bad, MAX), Err(CHECKSUM_MISMATCH), "the checksum covers the binding");
}

#[test]
fn stale_head_is_a_cache_miss_but_same_head_root_and_genesis_mismatch_fail() {
    let want = binding();
    assert_eq!(check_binding(&want, &want), Ok(true));
    assert_eq!(check_binding(&SnapshotBinding { head: [9; 32], ..want }, &want), Ok(false));
    assert_eq!(check_binding(&SnapshotBinding { genesis: [9; 32], ..want }, &want), Err(OTHER_GENESIS));
    assert_eq!(check_binding(&SnapshotBinding { slot: 78, ..want }, &want), Err(SLOT_CONTRADICTION));
    assert_eq!(check_binding(&SnapshotBinding { root: [9; 32], ..want }, &want), Err(ROOT_CONTRADICTION));
    assert_eq!(
        check_binding(&SnapshotBinding { genesis: [9; 32], head: [9; 32], ..want }, &want),
        Err(OTHER_GENESIS),
        "another network is refused before staleness is considered"
    );
}
