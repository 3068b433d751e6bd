use bloch_pos_node::store::{
    frame_prefix, meta_matches, meta_record, replay_frame, ENVELOPE_OVER_LIMIT, FRAME_LENGTH_OVERFLOW,
    FRAME_OVER_CAP,
    all_zero, damaged_tail, idx_count, index_precheck, index_start_after, may_remove_tail, repair_plan,
    tail_frame, tail_truncation, FrameAction, IdxEntry, LogInspection, PageBytes, PageScan, ScanStop,
    SlotSearch, Start, EMPTY_DAMAGED_TAIL, NOT_REMOVABLE, NO_DAMAGED_TAIL, OVERLAPS_INDEX, OVERSIZED_FRAME,
    SHORT_BODY, SHORT_PREFIX,
};

/// A log of frames with the given payload lengths.
fn log_of(lens: &[u32]) -> Vec<u8> {
    let mut out = Vec::new();
    for (k, len) in lens.iter().enumerate() {
        out.extend_from_slice(&len.to_le_bytes());
        out.extend(std::iter::repeat(k as u8 + 1).take(*len as usize));
    }
    out
}

/// The open-time walk over a whole log, as the store runs it.
fn walk(log: &[u8]) -> Result<u64, &'static str> {
    let length = log.len() as u64;
    let mut at = 0u64;
    while length - at >= 4 {
        let p = at as usize;
        let size = u32::from_le_bytes([log[p], log[p + 1], log[p + 2], log[p + 3]]);
        match tail_frame(at, length, size)? {
            Some(end) => at = end,
            None => break,
        }
    }
    Ok(at)
}

/// The inspection over a whole log, with every payload decoding unless it
/// starts with 0xEE.
fn inspect(log: &[u8]) -> LogInspection {
    let mut r = LogInspection::start(log.len() as u64);
    while r.wants_frame() {
        if !r.prefix_fits() {
            break;
        }
        let p = r.valid_prefix_bytes as usize;
        let size = u32::from_le_bytes([log[p], log[p + 1], log[p + 2], log[p + 3]]);
        if !r.frame_fits(size) {
            break;
        }
        if size > 0 && log[p + 4] == 0xEE {
            r.undecodable("bad tag");
        } else {
            r.decoded(size);
        }
    }
    r
}

#[test]
fn index_records_round_trip() {
    let e = IdxEntry { slot: 41290, offset: 1 << 40, len: 777 };
    let b = e.encode();
    assert_eq!(b.len(), 20);
    assert_eq!(IdxEntry::decode(&b), e);
    assert_eq!(e.end(), (1 << 40) + 4 + 777);
    assert_eq!(IdxEntry { slot: 0, offset: u64::MAX - 2, len: 9 }.end(), u64::MAX, "a wrapping entry saturates");
    assert_eq!(idx_count(7), 0);
    assert_eq!(idx_count(8 + 20 * 3 + 5), 3);
}

#[test]
fn restart_repairs_torn_tail_before_accepting_new_blocks() {
    let mut log = log_of(&[10, 20]);
    let whole = log.len() as u64;
    assert_eq!(walk(&log), Ok(whole));
    assert_eq!(tail_truncation(whole, whole, None), Ok(None));
    log.extend_from_slice(&50u32.to_le_bytes());
    log.extend_from_slice(&[1, 2, 3]);
    let at = walk(&log).unwrap();
    assert_eq!(at, whole);
    assert_eq!(tail_truncation(at, log.len() as u64, None), Ok(Some(whole)));
    assert_eq!(tail_truncation(at, log.len() as u64, Some(whole)), Ok(Some(whole)));
}

#[test]
fn recovery_never_truncates_indexed_history_after_length_corruption() {
    let mut log = log_of(&[10, 20, 30]);
    let indexed_end = log.len() as u64;
    log[14..18].copy_from_slice(&4000u32.to_le_bytes());
    let at = walk(&log).unwrap();
    assert_eq!(at, 14);
    assert_eq!(tail_truncation(at, log.len() as u64, Some(indexed_end)), Err(OVERLAPS_INDEX));
    log[0..4].copy_from_slice(&(9_000_000u32).to_le_bytes());
    assert_eq!(walk(&log), Err(OVERSIZED_FRAME));
}

#[test]
fn audit_log_diagnostic_is_bounded_and_does_not_repair_or_hide_corruption() {
    let log = log_of(&[5, 6]);
    let r = inspect(&log);
    assert_eq!(r, LogInspection { log_bytes: 19, decoded_frames: 2, valid_prefix_bytes: 19, issue: None });

    let mut torn = log.clone();
    torn.extend_from_slice(&[1, 0]);
    let r = inspect(&torn);
    assert_eq!(r.valid_prefix_bytes, 19);
    assert_eq!(r.issue.as_deref(), Some(SHORT_PREFIX));

    let mut short_body = log.clone();
    short_body.extend_from_slice(&100u32.to_le_bytes());
    short_body.extend_from_slice(&[0; 10]);
    let r = inspect(&short_body);
    assert_eq!(r.issue.as_deref(), Some(SHORT_BODY));
    assert_eq!(r.decoded_frames, 2);

    let mut bad = log.clone();
    bad.extend_from_slice(&2u32.to_le_bytes());
    bad.extend_from_slice(&[0xEE, 0]);
    let r = inspect(&bad);
    assert_eq!(
        r.issue.as_deref(),
        Some("invalid envelope: bad tag; preserve the original log and restore from a verified backup")
    );
    assert_eq!(r.valid_prefix_bytes, 19);
}

#[test]
fn offline_tail_repair_backs_up_only_confirmed_incomplete_or_zero_suffixes() {
    let mut log = log_of(&[5]);
    log.extend_from_slice(&100u32.to_le_bytes());
    log.extend_from_slice(&[0; 3]);
    let r = inspect(&log);
    assert_eq!(
        damaged_tail(&r, 3).unwrap_err(),
        "confirmed prefix 3 does not match freshly inspected prefix 9"
    );
    assert_eq!(damaged_tail(&r, 9), Ok(true));
    assert_eq!(may_remove_tail(true, false), Ok(()));

    let clean = inspect(&log_of(&[5]));
    assert_eq!(damaged_tail(&clean, 9).unwrap_err(), NO_DAMAGED_TAIL);

    let mut zeros = log_of(&[5]);
    zeros.extend_from_slice(&[1, 0, 0, 0, 0xEE]);
    let r = inspect(&zeros);
    assert_eq!(damaged_tail(&r, 9), Ok(false));
    assert!(!all_zero(&zeros[9..]));
    assert_eq!(may_remove_tail(false, all_zero(&zeros[9..])), Err(NOT_REMOVABLE));
    assert!(all_zero(&[0; 64]));
    assert_eq!(may_remove_tail(false, true), Ok(()));

    let odd = LogInspection { log_bytes: 9, decoded_frames: 1, valid_prefix_bytes: 9, issue: Some("x".into()) };
    assert_eq!(damaged_tail(&odd, 9).unwrap_err(), EMPTY_DAMAGED_TAIL);
}

/// The whole index search, as `blocks_after` runs it over an index held as
/// entries.
fn start_of(entries: &[IdxEntry], after: u64, log_len: u64) -> Option<Start> {
    let n = entries.len() as u64;
    let covered = entries.last().map(|e| e.end()).unwrap_or(0);
    if let Ok(s) = index_precheck(n, covered, log_len) {
        return s;
    }
    let mut search = SlotSearch::new(n, after);
    while let Some(m) = search.probe() {
        search.observe(entries[m as usize].slot);
    }
    let lo = search.lo;
    let neighbour = if lo > 0 { Some(entries[lo as usize - 1].slot) } else { None };
    let hit = entries.get(lo as usize).copied();
    index_start_after(lo, n, covered, log_len, after, neighbour, hit)
}

fn entries_for(slots: &[u64]) -> Vec<IdxEntry> {
    let mut at = 0;
    slots
        .iter()
        .map(|s| {
            let e = IdxEntry { slot: *s, offset: at, len: 10 };
            at += 14;
            e
        })
        .collect()
}

#[test]
fn serving_past_the_tip_touches_no_frames() {
    let idx = entries_for(&[1, 2, 5, 9]);
    let log_len = 4 * 14;
    assert_eq!(start_of(&idx, u64::MAX, log_len), Some(Start::Nothing));
    assert_eq!(start_of(&idx, 9, log_len), Some(Start::Nothing));
    assert_eq!(start_of(&idx, 9, log_len + 14), Some(Start::At { offset: log_len, expect_slot: None }));
}

#[test]
fn the_search_finds_the_first_frame_past_the_window() {
    let idx = entries_for(&[1, 2, 5, 9, 12]);
    let log_len = 5 * 14;
    assert_eq!(start_of(&idx, 0, log_len), Some(Start::At { offset: 0, expect_slot: Some(1) }));
    assert_eq!(start_of(&idx, 2, log_len), Some(Start::At { offset: 28, expect_slot: Some(5) }));
    assert_eq!(start_of(&idx, 4, log_len), Some(Start::At { offset: 28, expect_slot: Some(5) }));
    assert_eq!(start_of(&idx, 11, log_len), Some(Start::At { offset: 56, expect_slot: Some(12) }));
}

#[test]
fn a_missing_or_bad_magic_index_never_reopens_the_full_scan() {
    assert_eq!(index_precheck(0, 0, 100), Ok(None));
    assert_eq!(index_precheck(0, 0, 0), Ok(Some(Start::At { offset: 0, expect_slot: None })));
    let idx = entries_for(&[1, 2]);
    assert_eq!(start_of(&idx, 0, 20), None, "an index past the log is not used");
}

#[test]
fn partial_buffered_index_record_is_truncated_and_rebuilt() {
    let p = repair_plan(8 + 40 + 7, true, Some(28), 28);
    assert_eq!(p.trim_to, Some(48));
    assert!(!p.reset);
    assert_eq!(p.scan_from, None);
    let p = repair_plan(8 + 40, true, Some(28), 100);
    assert_eq!(p.scan_from, Some(28), "an index behind the log is extended");
    let p = repair_plan(8 + 40, true, Some(280), 100);
    assert!(p.reset, "an index ahead of the log is distrusted");
    assert_eq!(p.scan_from, Some(0));
    let p = repair_plan(8 + 40, false, None, 100);
    assert!(p.reset);
    assert_eq!(p.trim_to, None);
    let p = repair_plan(3, true, None, 0);
    assert!(p.reset);
    assert_eq!(p.scan_from, None);
}

fn budget(max: usize, per_frame: usize, first_must_fit: bool) -> PageBytes {
    PageBytes { max, per_frame, first_must_fit }
}

#[test]
fn p2p_real_cap_first_oversized_is_empty_but_generic_wrapper_still_serves_it() {
    let mut p2p = PageScan::new(None, 0, 10, 100, budget(50, 4, true), 8);
    assert_eq!(p2p.on_length(60), Ok(()));
    assert_eq!(p2p.on_header(60, Some(1)), Ok(FrameAction::Stop));
    let mut generic = PageScan::new(None, 0, 10, 100, budget(50, 0, false), 8);
    assert_eq!(generic.on_length(60), Ok(()));
    assert_eq!(generic.on_header(60, Some(1)), Ok(FrameAction::Take));
    generic.took();
    assert_eq!(generic.on_header(10, Some(2)), Ok(FrameAction::Stop));
}

#[test]
fn a_lying_index_fails_boundedly_until_restart_rebuilds_it() {
    let mut scan = PageScan::new(Some(5), 0, 10, 100, budget(1000, 0, false), 8);
    assert_eq!(scan.on_length(9_000_000), Err(ScanStop::IndexMismatch));
    let mut scan = PageScan::new(Some(5), 0, 10, 100, budget(1000, 0, false), 8);
    assert_eq!(scan.on_length(20), Ok(()));
    assert_eq!(scan.on_header(20, Some(6)), Err(ScanStop::IndexMismatch));
    let mut scan = PageScan::new(Some(5), 0, 10, 100, budget(1000, 0, false), 8);
    assert_eq!(scan.on_length(20), Ok(()));
    assert_eq!(scan.on_header(20, Some(5)), Ok(FrameAction::Take));
    assert_eq!(scan.expect, None, "the claim is checked once");
    assert_eq!(scan.on_header(20, None), Err(ScanStop::Refused("undecodable header in block log".into())));
}

#[test]
fn an_excessive_unindexed_tail_fails_at_the_scan_bound() {
    let mut scan = PageScan::new(None, 1000, 10, 3, budget(1000, 0, false), 8);
    for slot in 0..3 {
        assert_eq!(scan.on_length(20), Ok(()));
        assert_eq!(scan.on_header(20, Some(slot)), Ok(FrameAction::Skip));
    }
    assert_eq!(
        scan.on_length(20),
        Err(ScanStop::Refused(
            "unindexed block-log tail exceeds the 3-frame serving bound; restart to rebuild the derived index".into()
        ))
    );
    let mut short = PageScan::new(None, 0, 10, 3, budget(1000, 0, false), 8);
    assert_eq!(short.on_length(4), Err(ScanStop::Refused("log frame shorter than a header".into())));
}

#[test]
fn a_data_dir_is_bound_to_one_network_and_schema() {
    let genesis = [0x77u8; 32];
    let meta = meta_record(4, &genesis);
    assert_eq!(&meta[..8], b"BPOSMETA");
    assert_eq!(&meta[8..12], &4u32.to_le_bytes());
    assert_eq!(&meta[12..], &genesis);
    assert!(meta_matches(&meta, 4, &genesis));
    assert!(!meta_matches(&meta, 3, &genesis), "another schema is refused");
    assert!(!meta_matches(&meta, 4, &[0x78; 32]), "another network is refused");
    assert!(!meta_matches(&meta[..43], 4, &genesis));
    let mut longer = meta.clone();
    longer.push(0);
    assert!(!meta_matches(&longer, 4, &genesis));
    assert!(!meta_matches(b"something else entirely.....................", 4, &genesis));
}

#[test]
fn an_append_refuses_an_oversized_payload_before_writing_and_takes_the_exact_limit() {
    let cap = bloch_pos_node::codec::MAX_FIELD_LEN;
    assert_eq!(frame_prefix(0), Ok((4, 0)));
    assert_eq!(frame_prefix(cap), Ok((cap + 4, cap as u32)));
    assert_eq!(frame_prefix(cap + 1), Err(ENVELOPE_OVER_LIMIT));
}

#[test]
fn replay_takes_whole_frames_drops_a_torn_tail_and_refuses_an_oversized_length() {
    let cap = bloch_pos_node::codec::MAX_FIELD_LEN as u32;
    assert_eq!(replay_frame(0, 20, 16), Ok(Some(20)));
    assert_eq!(replay_frame(0, 20, 17), Ok(None));
    assert_eq!(replay_frame(10, 14, 0), Ok(Some(14)));
    assert_eq!(replay_frame(0, 4, cap + 1), Err(FRAME_OVER_CAP));
    assert_eq!(replay_frame(u64::MAX - 4, u64::MAX, 5), Err(FRAME_LENGTH_OVERFLOW));
}

/// The caller's page loop over frames given as (payload length, slot).
fn serve(mut scan: PageScan, frames: &[(u32, Option<u64>)]) -> Result<Vec<(u32, Option<u64>)>, ScanStop> {
    let mut out = Vec::new();
    for &(len, slot) in frames {
        if !scan.wants_frame() {
            break;
        }
        scan.on_length(len)?;
        match scan.on_header(len, slot)? {
            FrameAction::Take => {
                out.push((len, slot));
                scan.took();
            }
            FrameAction::Skip => {}
            FrameAction::Stop => break,
        }
    }
    Ok(out)
}

#[test]
fn a_page_serves_the_frames_past_its_window_in_log_order_up_to_its_limit() {
    let frames = [(10, Some(3)), (12, Some(4)), (9, Some(7)), (20, Some(5)), (11, Some(9)), (8, Some(2))];
    let scan = PageScan::new(Some(3), 3, 3, 100, budget(10_000, 0, false), 8);
    assert_eq!(serve(scan, &frames).unwrap(), vec![(12, Some(4)), (9, Some(7)), (20, Some(5))]);
    let scan = PageScan::new(None, 4, 10, 100, budget(10_000, 0, false), 8);
    assert_eq!(serve(scan, &frames).unwrap(), vec![(9, Some(7)), (20, Some(5)), (11, Some(9))]);
}

#[test]
fn a_page_served_from_the_index_search_is_the_whole_log_page() {
    let frames = [(10, Some(1)), (11, Some(3)), (12, Some(5)), (13, Some(7)), (14, Some(9))];
    let mut search = SlotSearch::new(frames.len() as u64, 4);
    while let Some(m) = search.probe() {
        search.observe(frames[m as usize].1.unwrap());
    }
    assert_eq!(search.lo, 2);
    let from_index = PageScan::new(frames[2].1, 4, 2, 100, budget(10_000, 0, false), 8);
    let whole_log = PageScan::new(None, 4, 2, 100, budget(10_000, 0, false), 8);
    let page = serve(from_index, &frames[2..]).unwrap();
    assert_eq!(page, vec![(12, Some(5)), (13, Some(7))]);
    assert_eq!(page, serve(whole_log, &frames).unwrap());
}
