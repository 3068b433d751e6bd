use bloch_pos_node::p2p::{
    decode_sync_request, decode_sync_response, encode_sync_request, encode_sync_response,
    next_page_after, sync_targets, PageChase, Requests, SyncRequest, SyncResponse, MAX_PAGES_WITHOUT_PROGRESS,
    MAX_SYNC_BLOCKS, MAX_WAITING_PEERS, SYNC_FANOUT,
};

#[test]
fn outbound_sync_waiting_queue_is_unique_bounded_and_forgotten_on_disconnect() {
    let mut requests = Requests::new();
    let peers: Vec<u64> = (0..MAX_WAITING_PEERS as u64).map(|k| 1_000 + k).collect();
    for peer in &peers {
        assert!(requests.enqueue(*peer, 100));
    }
    assert!(!requests.enqueue(999_999, 0));
    assert!(requests.enqueue(peers[0], 50));
    assert!(requests.enqueue(peers[0], 200));
    assert_eq!(requests.waiting().len(), MAX_WAITING_PEERS);
    assert_eq!(requests.waiting().first(), Some(&(peers[0], 50)));
    requests.forget(peers[0]);
    assert_eq!(requests.waiting().len(), MAX_WAITING_PEERS - 1);
    assert!(requests.enqueue(999_998, 0));
    for peer in peers.iter().skip(1) {
        requests.forget(*peer);
    }
    assert_eq!(requests.waiting().len(), 1);
}

#[test]
fn outbound_sync_fifo_serves_waiting_peer_before_responsive_peer_reacquires() {
    let mut requests = Requests::new();
    let peers: Vec<u64> = vec![11, 12, 13, 14];
    for peer in &peers {
        assert!(requests.enqueue(*peer, 10));
    }
    let mut sent = Vec::new();
    let mut next_id = 1u64;
    while let Some((peer, after)) = requests.dispatch_next() {
        assert!(requests.start(peer, next_id));
        next_id += 1;
        sent.push((peer, after));
    }
    assert_eq!(sent, vec![(11, 10), (12, 10), (13, 10)]);
    let done = requests.active_request(13).unwrap();
    assert!(requests.finish(13, done));
    assert!(requests.enqueue(13, 138));
    sent.clear();
    while let Some((peer, after)) = requests.dispatch_next() {
        assert!(requests.start(peer, next_id));
        next_id += 1;
        sent.push((peer, after));
    }
    assert_eq!(sent, vec![(14, 10)]);
    assert_eq!(requests.waiting().first(), Some(&(13, 138)));
    requests.forget(11);
    sent.clear();
    while let Some((peer, after)) = requests.dispatch_next() {
        assert!(requests.start(peer, next_id));
        next_id += 1;
        sent.push((peer, after));
    }
    assert_eq!(sent, vec![(13, 138)]);
    assert_eq!(requests.active_len(), SYNC_FANOUT);
}

#[test]
fn outbound_sync_shared_window_refuses_duplicate_and_releases_exact_request() {
    // Request ids come from the transport, one per request sent.
    let mut next_request: u64 = 1000;
    let mut send = || {
        next_request += 1;
        next_request
    };
    let mut requests = Requests::new();
    let peers: Vec<u64> = (0..=SYNC_FANOUT as u64).map(|i| 0xA000 + i).collect();
    for peer in peers.iter().take(SYNC_FANOUT) {
        assert!(requests.may_start(*peer));
        assert!(requests.start(*peer, send()));
    }
    // A refused start is asked first, so nothing is ever sent for it.
    assert!(!requests.may_start(peers[0]), "duplicate must not enqueue another substream");
    assert!(!requests.start(peers[0], 1));
    assert!(!requests.may_start(peers[SYNC_FANOUT]), "full window must not call send");
    assert!(!requests.start(peers[SYNC_FANOUT], 2));
    let first = requests.active_request(peers[0]).unwrap();
    let unrelated = send();
    assert!(!requests.finish(peers[0], unrelated));
    assert!(!requests.finish(peers[1], first));
    assert_eq!(requests.active_len(), SYNC_FANOUT);
    assert!(requests.finish(peers[0], first));
    assert!(!requests.finish(peers[0], first));
    assert!(requests.may_start(peers[SYNC_FANOUT]));
    assert!(requests.start(peers[SYNC_FANOUT], send()));
    assert_eq!(requests.active_len(), SYNC_FANOUT);
}

#[test]
fn outbound_sync_reconnect_late_failure_cannot_release_new_generation() {
    let mut requests = Requests::new();
    let peer = 77u64;
    assert!(requests.start(peer, 1));
    let old = requests.active_request(peer).unwrap();
    requests.forget(peer);
    assert_eq!(requests.active_len(), 0);
    assert!(requests.start(peer, 2));
    let current = requests.active_request(peer).unwrap();
    assert_ne!(current, old);
    assert!(!requests.finish(peer, old));
    assert!(requests.contains(peer));
    assert!(requests.finish(peer, current));
    assert_eq!(requests.active_len(), 0);
}

#[test]
fn sync_frames_round_trip() {
    let req = SyncRequest::GetBlocks { after_slot: 4242, limit: 64 };
    assert_eq!(decode_sync_request(&encode_sync_request(&req)).unwrap(), req);

    let resp = SyncResponse::Blocks { envelopes: vec![vec![1, 2, 3], vec![], vec![9; 100]] };
    assert_eq!(decode_sync_response(&encode_sync_response(&resp)).unwrap(), resp);
}

#[test]
fn sync_frames_reject_trailing_bytes() {
    let mut b = encode_sync_request(&SyncRequest::GetBlocks { after_slot: 1, limit: 1 });
    b.push(0);
    assert!(decode_sync_request(&b).is_err(), "encode(x) ‖ junk must not decode");

    let mut b = encode_sync_response(&SyncResponse::Blocks { envelopes: vec![vec![7]] });
    b.push(0);
    assert!(decode_sync_response(&b).is_err());
}

#[test]
fn sync_response_block_cap_is_enforced_on_decode() {
    let mut b = vec![0x01u8];
    b.extend_from_slice(&((MAX_SYNC_BLOCKS as u32) + 1).to_le_bytes());
    assert!(decode_sync_response(&b).is_err());
}

#[test]
fn a_full_page_is_chased_from_its_highest_slot_and_a_short_one_is_not() {
    let mut chase = PageChase::new();
    let slots: Vec<u64> = (1..=MAX_SYNC_BLOCKS as u64).rev().collect();
    assert_eq!(next_page_after(MAX_SYNC_BLOCKS, &slots, &mut chase, 0), Some(MAX_SYNC_BLOCKS as u64));
    assert_eq!(chase.pages_since_progress, 1);
    assert_eq!(next_page_after(MAX_SYNC_BLOCKS - 1, &slots, &mut chase, 0), None);
    assert_eq!(next_page_after(MAX_SYNC_BLOCKS, &vec![0; 3], &mut chase, 0), None);
    assert_eq!(chase.pages_since_progress, 1);
}

#[test]
fn chasing_without_progress_stops_at_the_allowance_and_resumes_on_progress() {
    let mut chase = PageChase::new();
    let mut granted = 0;
    for _ in 0..(2 * MAX_PAGES_WITHOUT_PROGRESS) {
        if chase.may_chase_page(0) {
            granted += 1;
        }
    }
    assert_eq!(granted, MAX_PAGES_WITHOUT_PROGRESS);
    assert!(!chase.may_chase_page(0));
    assert!(chase.may_chase_page(1), "an advanced head buys a fresh allowance");
    assert_eq!(chase.pages_since_progress, 1);
}

#[test]
fn get_blocks_goes_to_the_highest_heads_then_the_smallest_ids() {
    let peers: Vec<(u64, Vec<u8>)> = vec![
        (5, vec![1]),
        (9, vec![2]),
        (9, vec![1, 7]),
        (1, vec![0]),
        (9, vec![1]),
    ];
    assert_eq!(sync_targets(&peers), vec![4, 2, 1]);
    assert_eq!(sync_targets(&peers[..2].to_vec()), vec![1, 0]);
    assert_eq!(sync_targets(&Vec::new()), Vec::<usize>::new());
    let tied: Vec<(u64, Vec<u8>)> = vec![(3, vec![4]); 5];
    assert_eq!(sync_targets(&tied), vec![0, 1, 2], "equal keys keep their order");
}

#[test]
fn a_refused_sync_frame_names_its_fault() {
    let reason = |r: Result<SyncRequest, bloch_pos_node::codec::DecodeErr>| r.err().unwrap().reason();
    assert_eq!(reason(decode_sync_request(&[])), "truncated input");
    assert_eq!(reason(decode_sync_request(&[2, 0])), "unknown sync request tag");
    assert_eq!(reason(decode_sync_request(&[1, 0, 0])), "truncated input");
    let mut long = encode_sync_request(&SyncRequest::GetBlocks { after_slot: 1, limit: 2 });
    long.push(9);
    assert_eq!(reason(decode_sync_request(&long)), "trailing bytes");

    let reason = |r: Result<SyncResponse, bloch_pos_node::codec::DecodeErr>| r.err().unwrap().reason();
    assert_eq!(reason(decode_sync_response(&[])), "truncated input");
    assert_eq!(reason(decode_sync_response(&[7])), "unknown sync response tag");
    assert_eq!(reason(decode_sync_response(&[1, 0])), "truncated input");
    let over = [1u8, 129, 0, 0, 0];
    assert_eq!(reason(decode_sync_response(&over)), "sync response over the block cap");
    assert_eq!(reason(decode_sync_response(&[1, 1, 0, 0, 0, 5, 0])), "truncated input");
    assert_eq!(reason(decode_sync_response(&[1, 0, 0, 0, 0, 0])), "trailing bytes");
}
