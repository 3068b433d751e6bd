use sha3::{Digest, Sha3_256};
use bloch_pos_node::state_sync::{
    decode_request, decode_response, decode_snapshot_file, encode_request, encode_response,
    encode_snapshot_file, manifest_of, served_chunk, snapshots_dir, Download, StateSyncRequest, StateSyncResponse,
    MAX_STATE_CHUNKS, STATE_CHUNK_LEN,
};

fn sha3(b: &[u8]) -> [u8; 32] {
    Sha3_256::digest(b).into()
}

fn wire_round_trip_req(req: StateSyncRequest) {
    let bytes = encode_request(&req);
    assert_eq!(decode_request(&bytes).unwrap(), req);
    let mut junk = bytes.clone();
    junk.push(0);
    assert!(decode_request(&junk).is_err(), "encode(x) ‖ junk must not decode");
}

#[test]
fn requests_round_trip_strictly() {
    wire_round_trip_req(StateSyncRequest::Manifest { state_root: [7; 32] });
    wire_round_trip_req(StateSyncRequest::Chunk { state_root: [9; 32], index: 41 });
}

#[test]
fn responses_round_trip_strictly() {
    for resp in [
        StateSyncResponse::Manifest {
            state_root: [1; 32],
            total_len: STATE_CHUNK_LEN as u64 + 5,
            chunk_len: STATE_CHUNK_LEN,
            chunk_hashes: vec![[2; 32], [3; 32]],
        },
        StateSyncResponse::Chunk { state_root: [4; 32], index: 1, bytes: vec![5; 17] },
        StateSyncResponse::Unavailable { state_root: [6; 32] },
    ] {
        let bytes = encode_response(&resp);
        assert_eq!(decode_response(&bytes).unwrap(), resp);
        let mut junk = bytes.clone();
        junk.push(0);
        assert!(decode_response(&junk).is_err());
    }
}

#[test]
fn manifest_over_the_chunk_cap_is_refused() {
    let resp = StateSyncResponse::Manifest {
        state_root: [1; 32],
        total_len: 0,
        chunk_len: STATE_CHUNK_LEN,
        chunk_hashes: vec![],
    };
    let mut bytes = encode_response(&resp);
    let at = 45;
    bytes[at..at + 4].copy_from_slice(&(MAX_STATE_CHUNKS + 1).to_le_bytes());
    assert!(decode_response(&bytes).is_err());
}

#[test]
fn impossible_manifests_are_refused() {
    let m = StateSyncResponse::Manifest {
        state_root: [1; 32],
        total_len: STATE_CHUNK_LEN as u64 * 3,
        chunk_len: STATE_CHUNK_LEN,
        chunk_hashes: vec![[0; 32]; 2],
    };
    assert!(Download::from_manifest(&m).is_err());
    let m = StateSyncResponse::Manifest {
        state_root: [1; 32],
        total_len: 10,
        chunk_len: 1024,
        chunk_hashes: vec![[0; 32]],
    };
    assert!(Download::from_manifest(&m).is_err());
    assert!(Download::from_manifest(&StateSyncResponse::Unavailable { state_root: [1; 32] }).is_err());
}

#[test]
fn download_resumes_and_verifies_chunks() {
    let file: Vec<u8> = (0..(2 * STATE_CHUNK_LEN as usize + 1234)).map(|i| (i % 251) as u8).collect();
    let chunks: Vec<&[u8]> = file.chunks(STATE_CHUNK_LEN as usize).collect();
    let manifest = manifest_of(&file, [0xAB; 32]);
    match &manifest {
        StateSyncResponse::Manifest { chunk_hashes, total_len, .. } => {
            assert_eq!(*total_len, file.len() as u64);
            assert_eq!(chunk_hashes.len(), 3);
            assert_eq!(chunk_hashes[1], sha3(chunks[1]));
        }
        _ => panic!("a manifest"),
    }

    let mut d = Download::from_manifest(&manifest).unwrap();
    assert_eq!(d.state_root(), [0xAB; 32]);
    assert_eq!(d.missing(10), vec![0, 1, 2]);
    assert!(!d.chunk_acceptable(0, &vec![0u8; STATE_CHUNK_LEN as usize]));
    assert!(!d.chunk_acceptable(2, chunks[0]));
    assert!(!d.chunk_acceptable(9, chunks[0]));
    assert!(d.chunk_acceptable(0, chunks[0]));
    d.mark_held(0);
    assert!(!d.chunk_acceptable(0, chunks[0]), "a held chunk is not taken twice");
    assert!(d.chunk_acceptable(2, chunks[2]));
    d.mark_held(2);
    assert!(!d.complete());
    assert_eq!(d.missing(10), vec![1]);
    assert_eq!(d.chunk_span(2), (2 * STATE_CHUNK_LEN as u64, 1234));
    assert!(d.chunk_acceptable(1, chunks[1]));
    d.mark_held(1);
    assert!(d.complete());
    assert_eq!(d.done_count(), (3, 3));
}

#[test]
fn snapshot_files_round_trip_and_refuse_trailing_bytes() {
    let bytes = encode_snapshot_file(&[1, 2, 3], &[9; 40]);
    let (env, body) = decode_snapshot_file(&bytes).unwrap();
    assert_eq!(env, vec![1, 2, 3]);
    assert_eq!(body, vec![9; 40]);
    let mut junk = bytes.clone();
    junk.push(0);
    assert!(decode_snapshot_file(&junk).is_err());
    assert!(decode_snapshot_file(&bytes[..bytes.len() - 1]).is_err());
}

#[test]
fn snapshots_live_under_the_data_dir() {
    assert_eq!(snapshots_dir("/var/lib/bloch"), "/var/lib/bloch/snapshots");
    assert_eq!(snapshots_dir("/var/lib/bloch/"), "/var/lib/bloch/snapshots");
}

#[test]
fn a_chunk_request_reads_its_span_and_nothing_past_the_end() {
    let total = 2 * STATE_CHUNK_LEN as u64 + 1234;
    assert_eq!(served_chunk(total, 0), Some((0, STATE_CHUNK_LEN as u64)));
    assert_eq!(served_chunk(total, 1), Some((STATE_CHUNK_LEN as u64, STATE_CHUNK_LEN as u64)));
    assert_eq!(served_chunk(total, 2), Some((2 * STATE_CHUNK_LEN as u64, 1234)));
    assert_eq!(served_chunk(total, 3), None);
    assert_eq!(served_chunk(total, u32::MAX), None);
    assert_eq!(served_chunk(0, 0), None);
}

#[test]
fn served_chunks_pass_the_download_check_and_reassemble_the_file() {
    let file: Vec<u8> = (0..(STATE_CHUNK_LEN as usize + 77)).map(|i| (i % 13) as u8).collect();
    let manifest = manifest_of(&file, [3; 32]);
    let mut d = Download::from_manifest(&manifest).unwrap();
    let mut assembled = Vec::new();
    let mut index = 0u32;
    while let Some((offset, len)) = served_chunk(file.len() as u64, index) {
        let bytes = &file[offset as usize..(offset + len) as usize];
        assert!(d.chunk_acceptable(index, bytes), "chunk {index} as served must be taken");
        d.mark_held(index);
        assembled.extend_from_slice(bytes);
        index += 1;
    }
    assert_eq!(index, 2);
    assert!(d.complete());
    assert_eq!(assembled, file);
}

#[test]
fn a_refused_state_sync_frame_names_its_fault() {
    let reason = |r: Result<StateSyncRequest, bloch_pos_node::codec::DecodeErr>| r.err().unwrap().reason();
    assert_eq!(reason(decode_request(&[])), "truncated input");
    assert_eq!(reason(decode_request(&[1, 0])), "truncated input");
    assert_eq!(reason(decode_request(&[9])), "unknown state-sync request tag");
    let mut long = encode_request(&StateSyncRequest::Chunk { state_root: [1; 32], index: 3 });
    long.push(0);
    assert_eq!(reason(decode_request(&long)), "trailing bytes");

    let reason = |r: Result<StateSyncResponse, bloch_pos_node::codec::DecodeErr>| r.err().unwrap().reason();
    assert_eq!(reason(decode_response(&[])), "truncated input");
    assert_eq!(reason(decode_response(&[4])), "unknown state-sync response tag");
    let mut chunk = vec![2u8];
    chunk.extend_from_slice(&[0; 36]);
    chunk.extend_from_slice(&(STATE_CHUNK_LEN + 1).to_le_bytes());
    assert_eq!(reason(decode_response(&chunk)), "chunk over the chunk length");
    let mut unavailable = encode_response(&StateSyncResponse::Unavailable { state_root: [5; 32] });
    unavailable.push(0);
    assert_eq!(reason(decode_response(&unavailable)), "trailing bytes");

    let reason = |r: Result<(Vec<u8>, Vec<u8>), bloch_pos_node::codec::DecodeErr>| r.err().unwrap().reason();
    assert_eq!(reason(decode_snapshot_file(b"short")), "not a bloch-pos state snapshot");
    let good = encode_snapshot_file(&[1, 2], &[3; 4]);
    let mut version = good.clone();
    version[8] = 2;
    assert_eq!(reason(decode_snapshot_file(&version)), "unknown snapshot file version");
    assert_eq!(reason(decode_snapshot_file(&good[..20])), "truncated snapshot file");
    let mut body = good.clone();
    body.push(0);
    assert_eq!(reason(decode_snapshot_file(&body)), "snapshot body length mismatch");
}
