//! The block log's decisions. The log is a sequence of frames, each a
//! little-endian `u32` length and that many payload bytes; a crash leaves at
//! most one incomplete trailing frame. Beside it, `blocks.idx` records each
//! frame's slot and offset so a page is found by binary search.
//!
//! The index is derived state: every way it can be wrong ends in a rebuild
//! at the next open or in a bounded refusal, never in serving a frame the
//! log does not hold. The files are read and written by the caller; what to
//! do with what was read is decided here, one step at a time.
use vstd::prelude::*;
use crate::bytes::{le32, le64, lemma_le32_roundtrip, lemma_le64_roundtrip, push_u32, push_u64, read_u32, read_u64};
use crate::codec::{u32_at, u64_at, MAX_FIELD_LEN};
use crate::text::{decimal, push_decimal_u64, push_str, string_of};

verus! {

broadcast use vstd::std_specs::vec::group_vec_axioms;

/// One index record: slot, offset, payload length.
pub const IDX_ENTRY_LEN: u64 = 20;

/// Complete frames one request may inspect beyond the last index record.
pub const MAX_UNINDEXED_TAIL_SCAN_FRAMES: usize = 4096;

pub const OVERSIZED_FRAME: &'static str = "oversized block log frame; refusing automatic repair";
pub const LENGTH_OVERFLOW: &'static str = "block log length overflow";
pub const OVERLAPS_INDEX: &'static str = "incomplete frame overlaps indexed history; refusing automatic log truncation";
pub const SHORT_PREFIX: &'static str = "incomplete trailing length prefix";
pub const OVER_CAP: &'static str = "frame length exceeds codec cap; cannot infer a safe truncation";
pub const SHORT_BODY: &'static str = "incomplete frame body; may be a torn append or corrupted length, not permission to truncate";
pub const NO_DAMAGED_TAIL: &'static str = "block log has no damaged tail";
pub const EMPTY_DAMAGED_TAIL: &'static str = "inspection did not identify a non-empty damaged tail";
pub const NOT_REMOVABLE: &'static str = "refusing repair: suffix is not an incomplete frame or an all-zero power-loss tail";
pub const FRAME_OVER_CAP: &'static str = "log frame over cap";
pub const FRAME_TOO_SHORT: &'static str = "log frame shorter than a header";
pub const BAD_HEADER: &'static str = "undecodable header in block log";
pub const FRAME_LENGTH_OVERFLOW: &'static str = "log frame length overflow";
pub const ENVELOPE_OVER_LIMIT: &'static str = "block envelope exceeds the existing 8 MiB log frame limit";

// ── The index record ────────────────────────────────────────────────────────

/// Where a frame is: the slot it carries, the offset of its length prefix,
/// its payload length.
#[derive(Clone, Copy, Debug, PartialEq, Eq)]
pub struct IdxEntry {
    pub slot: u64,
    pub offset: u64,
    pub len: u32,
}

pub open spec fn idx_bytes(e: IdxEntry) -> Seq<u8> {
    le64(e.slot) + le64(e.offset) + le32(e.len)
}

/// `a + b`, or `u64::MAX` when that does not fit.
pub open spec fn sat_add(a: int, b: int) -> int {
    if a + b > u64::MAX {
        u64::MAX as int
    } else {
        a + b
    }
}

/// First byte after the frame an entry points at, saturating: a corrupt
/// entry that would wrap reads as past any log.
pub open spec fn entry_end(e: IdxEntry) -> u64 {
    sat_add(sat_add(e.offset as int, 4), e.len as int) as u64
}

impl IdxEntry {
    pub fn encode(&self) -> (r: Vec<u8>)
        ensures
            r@ == idx_bytes(*self),
            r@.len() == 20,
    {
        let mut out: Vec<u8> = Vec::new();
        push_u64(&mut out, self.slot);
        push_u64(&mut out, self.offset);
        push_u32(&mut out, self.len);
        proof {
            lemma_le64_roundtrip(self.slot);
            lemma_le64_roundtrip(self.offset);
            lemma_le32_roundtrip(self.len);
            assert(out@ =~= idx_bytes(*self));
        }
        out
    }

    pub fn decode(b: &[u8]) -> (r: IdxEntry)
        requires
            b@.len() == 20,
        ensures
            r.slot == u64_at(b@, 0),
            r.offset == u64_at(b@, 8),
            r.len == u32_at(b@, 16),
    {
        IdxEntry { slot: read_u64(b, 0), offset: read_u64(b, 8), len: read_u32(b, 16) }
    }

    /// First byte after this frame.
    pub fn end(&self) -> (r: u64)
        ensures
            r == entry_end(*self),
    {
        self.offset.saturating_add(4).saturating_add(self.len as u64)
    }
}

/// An index record reads back as the entry written.
pub proof fn lemma_entry_round_trip(e: IdxEntry)
    ensures
        u64_at(idx_bytes(e), 0) == e.slot,
        u64_at(idx_bytes(e), 8) == e.offset,
        u32_at(idx_bytes(e), 16) == e.len,
{
    let b = idx_bytes(e);
    lemma_le64_roundtrip(e.slot);
    lemma_le64_roundtrip(e.offset);
    lemma_le32_roundtrip(e.len);
    assert(b.subrange(0, 8) =~= le64(e.slot));
    assert(b.subrange(8, 16) =~= le64(e.offset));
    assert(b.subrange(16, 20) =~= le32(e.len));
}

/// Records in an index file of `idx_len` bytes (its magic is not one).
pub fn idx_count(idx_len: u64) -> (r: u64)
    ensures
        r == (if idx_len < 8 {
            0
        } else {
            (idx_len - 8) / 20
        }),
{
    if idx_len < 8 {
        0
    } else {
        (idx_len - 8) / IDX_ENTRY_LEN
    }
}

// ── Bringing the index in line with the log ─────────────────────────────────

/// What to do to an index file before the unindexed tail is scanned into it.
#[derive(Clone, Copy, Debug, PartialEq, Eq)]
pub struct IndexPlan {
    /// Cut a torn trailing record off, to this length.
    pub trim_to: Option<u64>,
    /// Distrust the file: empty it and write the magic afresh.
    pub reset: bool,
    /// Scan the log from here and append a record per complete frame.
    pub scan_from: Option<u64>,
}

/// The plan for an index of `idx_len` bytes whose magic is `magic_ok`,
/// whose last complete record (if any) ends the frame at `last_end`, beside
/// a log of `log_len` bytes. An index that describes more log than exists
/// is distrusted and rebuilt.
pub fn repair_plan(idx_len: u64, magic_ok: bool, last_end: Option<u64>, log_len: u64) -> (r: IndexPlan)
    ensures
        ({
            let usable = idx_len >= 8 && magic_ok;
            let n = if idx_len < 8 {
                0
            } else {
                (idx_len - 8) / 20
            };
            let exact = 8 + n * 20;
            let trusted = usable && !(n > 0 && (last_end matches Some(e) && e > log_len));
            let covered = if trusted && n > 0 && last_end is Some {
                last_end->Some_0
            } else {
                0
            };
            &&& r.trim_to == (if usable && exact != idx_len {
                Some(exact as u64)
            } else {
                None
            })
            &&& r.reset == !trusted
            &&& r.scan_from == (if covered < log_len {
                Some(covered as u64)
            } else {
                None
            })
        }),
{
    let usable = idx_len >= 8 && magic_ok;
    let n = idx_count(idx_len);
    let mut trim_to: Option<u64> = None;
    let mut trusted = usable;
    let mut covered: u64 = 0;
    if usable {
        assert(n * 20 <= idx_len - 8) by (nonlinear_arith)
            requires
                n == (idx_len - 8) / 20,
                idx_len >= 8,
        ;
        let exact = 8 + n * IDX_ENTRY_LEN;
        if exact != idx_len {
            trim_to = Some(exact);
        }
        if n > 0 {
            match last_end {
                Some(e) => {
                    if e > log_len {
                        trusted = false;
                    } else {
                        covered = e;
                    }
                },
                None => {},
            }
        }
    }
    IndexPlan {
        trim_to,
        reset: !trusted,
        scan_from: if covered < log_len {
            Some(covered)
        } else {
            None
        },
    }
}

// ── Finding where a page starts ─────────────────────────────────────────────

/// Where an answer should start reading.
#[derive(Clone, Copy, Debug, PartialEq, Eq)]
pub enum Start {
    /// The index covers the whole log and nothing in it is past the window:
    /// the answer is empty and the log is never opened.
    Nothing,
    /// Seek here. `expect_slot` is what the index says the frame there
    /// carries; a mismatch means the index lies.
    At { offset: u64, expect_slot: Option<u64> },
}

/// What an index of `n` records says before its records are searched,
/// given its last record's end `covered` (read when `n > 0`). `Err(())`:
/// search the records; `Ok(None)`: no usable index; `Ok(Some(s))`: start.
pub fn index_precheck(n: u64, covered: u64, log_len: u64) -> (r: Result<Option<Start>, ()>)
    ensures
        r == (if n == 0 {
            if log_len != 0 {
                Ok::<Option<Start>, ()>(None)
            } else {
                Ok(Some(Start::At { offset: 0, expect_slot: None }))
            }
        } else if covered > log_len {
            Ok(None)
        } else {
            Err(())
        }),
{
    if n == 0 {
        if log_len != 0 {
            Ok(None)
        } else {
            Ok(Some(Start::At { offset: 0, expect_slot: None }))
        }
    } else if covered > log_len {
        Ok(None)
    } else {
        Err(())
    }
}

/// The binary search for the first record whose slot is past the window,
/// one probe at a time: the caller reads the record `probe` names and
/// hands its slot to `observe`.
#[derive(Clone, Copy, Debug, PartialEq, Eq)]
pub struct SlotSearch {
    pub lo: u64,
    pub hi: u64,
    pub n: u64,
    pub after_slot: u64,
}

/// The record a search probes next.
pub open spec fn mid_of(lo: u64, hi: u64) -> u64 {
    (lo + (hi - lo) / 2) as u64
}

impl SlotSearch {
    pub open spec fn wf(&self) -> bool {
        self.lo <= self.hi <= self.n
    }

    /// Everything before `lo` is at or below the window and `hi` (unless it
    /// is `n`) is past it, for the slots `s` the index holds.
    pub open spec fn brackets(&self, s: Seq<u64>) -> bool {
        &&& s.len() == self.n
        &&& self.lo > 0 ==> s[self.lo - 1] <= self.after_slot
        &&& self.hi < self.n ==> s[self.hi as int] > self.after_slot
    }

    pub fn new(n: u64, after_slot: u64) -> (r: SlotSearch)
        ensures
            r.wf(),
            r.lo == 0,
            r.hi == n,
            r.n == n,
            r.after_slot == after_slot,
    {
        SlotSearch { lo: 0, hi: n, n, after_slot }
    }

    /// The record to read next, or `None` when the search is over and `lo`
    /// is its answer.
    pub fn probe(&self) -> (r: Option<u64>)
        requires
            self.wf(),
        ensures
            r == (if self.lo < self.hi {
                Some(mid_of(self.lo, self.hi))
            } else {
                None::<u64>
            }),
            r matches Some(m) ==> self.lo <= m < self.hi,
    {
        if self.lo < self.hi {
            Some(self.lo + (self.hi - self.lo) / 2)
        } else {
            None
        }
    }

    /// The probed record carries `slot`.
    pub fn observe(&mut self, slot: u64)
        requires
            old(self).wf(),
            old(self).lo < old(self).hi,
        ensures
            final(self).wf(),
            final(self).n == old(self).n,
            final(self).after_slot == old(self).after_slot,
            ({
                let m = mid_of(old(self).lo, old(self).hi);
                if slot > old(self).after_slot {
                    final(self).lo == old(self).lo && final(self).hi == m
                } else {
                    final(self).lo == m + 1 && final(self).hi == old(self).hi
                }
            }),
            final(self).hi - final(self).lo < old(self).hi - old(self).lo,
    {
        let mid = self.lo + (self.hi - self.lo) / 2;
        if slot > self.after_slot {
            self.hi = mid;
        } else {
            self.lo = mid + 1;
        }
    }
}

/// Each observation keeps the bracket: whatever order the index's slots are
/// in, the search ends at a record past the window (or at `n`) whose
/// predecessor is not. So the neighbour check after it never refuses an
/// index it read consistently.
pub proof fn lemma_search_keeps_bracket(st: SlotSearch, s: Seq<u64>, next: SlotSearch)
    requires
        st.wf(),
        st.brackets(s),
        st.lo < st.hi,
        next.n == st.n,
        next.after_slot == st.after_slot,
        ({
            let m = mid_of(st.lo, st.hi);
            if s[m as int] > st.after_slot {
                next.lo == st.lo && next.hi == m
            } else {
                next.lo == m + 1 && next.hi == st.hi
            }
        }),
    ensures
        next.wf(),
        next.brackets(s),
{
}

/// Over a sorted index, the bracket at the end of a search pins its answer:
/// the first record past the window.
pub proof fn lemma_sorted_search_finds_first(st: SlotSearch, s: Seq<u64>)
    requires
        st.wf(),
        st.brackets(s),
        st.lo == st.hi,
        forall|i: int, j: int| 0 <= i <= j < s.len() ==> s[i] <= s[j],
    ensures
        forall|i: int| 0 <= i < st.lo ==> s[i] <= st.after_slot,
        forall|i: int| st.lo <= i < s.len() ==> s[i] > st.after_slot,
{
}

/// Where to start once the search is over at `lo`. `neighbour` is the slot
/// of record `lo - 1` (read when `lo > 0`), `hit` the record `lo` (read when
/// `lo < n`). An index out of order, or pointing past the log, is not used.
pub fn index_start_after(
    lo: u64,
    n: u64,
    covered: u64,
    log_len: u64,
    after_slot: u64,
    neighbour: Option<u64>,
    hit: Option<IdxEntry>,
) -> (r: Option<Start>)
    ensures
        r == (if lo >= n {
            if covered < log_len {
                Some(Start::At { offset: covered, expect_slot: None })
            } else {
                Some(Start::Nothing)
            }
        } else if lo > 0 && (neighbour matches Some(p) && p > after_slot) {
            None
        } else {
            match hit {
                Some(h) => if h.offset >= log_len {
                    None
                } else {
                    Some(Start::At { offset: h.offset, expect_slot: Some(h.slot) })
                },
                None => None,
            }
        }),
{
    if lo >= n {
        return Some(
            if covered < log_len {
                Start::At { offset: covered, expect_slot: None }
            } else {
                Start::Nothing
            },
        );
    }
    if lo > 0 {
        match neighbour {
            Some(p) => {
                if p > after_slot {
                    return None;
                }
            },
            None => {},
        }
    }
    match hit {
        Some(h) => {
            if h.offset >= log_len {
                None
            } else {
                Some(Start::At { offset: h.offset, expect_slot: Some(h.slot) })
            }
        },
        None => None,
    }
}

// ── Opening: the incomplete trailing frame ──────────────────────────────────

/// One frame of the open-time walk, at `at` in a log of `length` bytes,
/// whose length prefix says `size`: `Ok(Some(end))` to move on to the next
/// frame, `Ok(None)` when this frame is incomplete and the walk stops.
pub fn tail_frame(at: u64, length: u64, size: u32) -> (r: Result<Option<u64>, &'static str>)
    requires
        at <= length,
        length - at >= 4,
    ensures
        r == (if size > MAX_FIELD_LEN {
            Err::<Option<u64>, &'static str>(OVERSIZED_FRAME)
        } else if at + 4 + size > u64::MAX {
            Err(LENGTH_OVERFLOW)
        } else if at + 4 + size > length {
            Ok(None)
        } else {
            Ok(Some((at + 4 + size) as u64))
        }),
{
    if size as usize > MAX_FIELD_LEN {
        return Err(OVERSIZED_FRAME);
    }
    let end = match at.checked_add(4) {
        Some(x) => x.checked_add(size as u64),
        None => None,
    };
    match end {
        None => Err(LENGTH_OVERFLOW),
        Some(end) => if end > length {
            Ok(None)
        } else {
            Ok(Some(end))
        },
    }
}

/// What to do once the walk stopped at `at` in a log of `length` bytes:
/// `Ok(Some(at))` cut the incomplete tail off there, `Ok(None)` nothing to
/// cut. `indexed_end` is where the last frame of a valid, non-empty index
/// ends: a tail that overlaps indexed history is not cut, since the length
/// prefix before it may be what is damaged.
pub fn tail_truncation(at: u64, length: u64, indexed_end: Option<u64>) -> (r: Result<Option<u64>, &'static str>)
    ensures
        r == (if at == length {
            Ok::<Option<u64>, &'static str>(None)
        } else if indexed_end matches Some(e) && e > at {
            Err(OVERLAPS_INDEX)
        } else {
            Ok(Some(at))
        }),
{
    if at == length {
        return Ok(None);
    }
    match indexed_end {
        Some(e) => {
            if e > at {
                return Err(OVERLAPS_INDEX);
            }
        },
        None => {},
    }
    Ok(Some(at))
}

// ── The data directory's identity ───────────────────────────────────────────

pub open spec fn meta_magic() -> Seq<u8> {
    seq![0x42u8, 0x50, 0x4F, 0x53, 0x4D, 0x45, 0x54, 0x41]
}

/// `meta.bin`: `"BPOSMETA"`, the header version, the genesis digest.
pub open spec fn meta_spec(version: u32, genesis: Seq<u8>) -> Seq<u8> {
    meta_magic() + le32(version) + genesis
}

/// The record that binds a data directory to one network and schema.
pub fn meta_record(version: u32, genesis: &[u8; 32]) -> (r: Vec<u8>)
    ensures
        r@ == meta_spec(version, genesis@),
{
    let mut out: Vec<u8> = Vec::new();
    out.push(0x42u8);
    out.push(0x50u8);
    out.push(0x4Fu8);
    out.push(0x53u8);
    out.push(0x4Du8);
    out.push(0x45u8);
    out.push(0x54u8);
    out.push(0x41u8);
    push_u32(&mut out, version);
    let mut i: usize = 0;
    while i < 32
        invariant
            i <= 32,
            out@ == meta_magic() + le32(version) + genesis@.subrange(0, i as int),
        decreases 32 - i,
    {
        out.push(genesis[i]);
        i = i + 1;
        proof {
            assert(out@ =~= meta_magic() + le32(version) + genesis@.subrange(0, i as int));
        }
    }
    proof {
        assert(genesis@.subrange(0, 32) =~= genesis@);
    }
    out
}

/// Whether `bytes` is exactly the record of `version` and `genesis`: a
/// directory written for any other network or schema is refused, never
/// migrated.
pub fn meta_matches(bytes: &[u8], version: u32, genesis: &[u8; 32]) -> (r: bool)
    ensures
        r == (bytes@ == meta_spec(version, genesis@)),
{
    let want = meta_record(version, genesis);
    if bytes.len() != want.len() {
        proof {
            assert(bytes@.len() != meta_spec(version, genesis@).len());
        }
        return false;
    }
    let mut i: usize = 0;
    while i < bytes.len()
        invariant
            i <= bytes@.len(),
            bytes@.len() == want@.len(),
            want@ == meta_spec(version, genesis@),
            bytes@.subrange(0, i as int) == want@.subrange(0, i as int),
        decreases bytes.len() - i,
    {
        if bytes[i] != want[i] {
            proof {
                assert(bytes@[i as int] != want@[i as int]);
            }
            return false;
        }
        i = i + 1;
        proof {
            assert(bytes@.subrange(0, i as int) =~= want@.subrange(0, i as int));
        }
    }
    proof {
        assert(bytes@ =~= bytes@.subrange(0, i as int));
        assert(want@ =~= want@.subrange(0, i as int));
    }
    true
}

/// A data directory's record names one network and schema only: two
/// records are the same bytes only for the same version and genesis.
pub proof fn lemma_meta_binds_one_network(v1: u32, g1: Seq<u8>, v2: u32, g2: Seq<u8>)
    requires
        meta_spec(v1, g1) == meta_spec(v2, g2),
    ensures
        v1 == v2,
        g1 == g2,
{
    let a = meta_spec(v1, g1);
    lemma_le32_roundtrip(v1);
    lemma_le32_roundtrip(v2);
    assert(a.subrange(8, 12) =~= le32(v1));
    assert(meta_spec(v2, g2).subrange(8, 12) =~= le32(v2));
    assert(a.subrange(12, a.len() as int) =~= g1);
    assert(meta_spec(v2, g2).subrange(12, a.len() as int) =~= g2);
}

// ── Writing and replaying frames ────────────────────────────────────────────

/// The preflight of an append: a payload of `payload_len` bytes becomes a
/// frame of `4 + payload_len` bytes with that length prefix, or is refused
/// before anything reaches the log.
pub fn frame_prefix(payload_len: usize) -> (r: Result<(usize, u32), &'static str>)
    ensures
        r == (if payload_len > MAX_FIELD_LEN {
            Err::<(usize, u32), &'static str>(ENVELOPE_OVER_LIMIT)
        } else {
            Ok(((4 + payload_len) as usize, payload_len as u32))
        }),
{
    if payload_len > MAX_FIELD_LEN {
        return Err(ENVELOPE_OVER_LIMIT);
    }
    Ok((4 + payload_len, payload_len as u32))
}

/// One frame of a whole-log replay, at `at` in a log of `length` bytes,
/// whose length prefix says `size`: `Ok(Some(end))` to decode it and move
/// on, `Ok(None)` when it is a truncated trailing frame that replay drops.
pub fn replay_frame(at: u64, length: u64, size: u32) -> (r: Result<Option<u64>, &'static str>)
    requires
        at <= length,
        length - at >= 4,
    ensures
        r == (if size > MAX_FIELD_LEN {
            Err::<Option<u64>, &'static str>(FRAME_OVER_CAP)
        } else if at + 4 + size > u64::MAX {
            Err(FRAME_LENGTH_OVERFLOW)
        } else if at + 4 + size > length {
            Ok(None)
        } else {
            Ok(Some((at + 4 + size) as u64))
        }),
{
    match tail_frame(at, length, size) {
        Ok(step) => Ok(step),
        Err(_) => if size as usize > MAX_FIELD_LEN {
            Err(FRAME_OVER_CAP)
        } else {
            Err(FRAME_LENGTH_OVERFLOW)
        },
    }
}

// ── Inspection and operator-confirmed repair ────────────────────────────────

/// A framing diagnosis of a log: how much of it is a run of decodable
/// frames, and what stopped the run. A decoded frame is not proof of valid
/// consensus execution.
#[derive(Clone, Debug, PartialEq, Eq)]
pub struct LogInspection {
    pub log_bytes: u64,
    pub decoded_frames: u64,
    pub valid_prefix_bytes: u64,
    pub issue: Option<String>,
}

/// What an operator-confirmed repair did.
#[derive(Clone, Copy, Debug, PartialEq, Eq)]
pub struct LogRepair {
    pub original_bytes: u64,
    pub retained_bytes: u64,
    pub backup_bytes: u64,
}

pub open spec fn opt_text(o: Option<String>) -> Option<Seq<char>> {
    match o {
        Some(s) => Some(s@),
        None => None,
    }
}

pub open spec fn invalid_envelope_issue(error: Seq<char>) -> Seq<char> {
    "invalid envelope: "@ + error + "; preserve the original log and restore from a verified backup"@
}

impl LogInspection {
    pub open spec fn wf(&self) -> bool {
        self.valid_prefix_bytes <= self.log_bytes
    }

    /// Nothing inspected yet of a log of `log_bytes` bytes.
    pub fn start(log_bytes: u64) -> (r: LogInspection)
        ensures
            r.wf(),
            r == (LogInspection { log_bytes, decoded_frames: 0, valid_prefix_bytes: 0, issue: None }),
    {
        LogInspection { log_bytes, decoded_frames: 0, valid_prefix_bytes: 0, issue: None }
    }

    /// Is there another frame to read?
    pub fn wants_frame(&self) -> (r: bool)
        ensures
            r == (self.issue is None && self.valid_prefix_bytes < self.log_bytes),
    {
        self.issue.is_none() && self.valid_prefix_bytes < self.log_bytes
    }

    /// Before the next length prefix is read: `false` (and the issue
    /// recorded) when fewer than four bytes are left for it.
    pub fn prefix_fits(&mut self) -> (r: bool)
        requires
            old(self).wf(),
        ensures
            final(self).wf(),
            r == (old(self).log_bytes - old(self).valid_prefix_bytes >= 4),
            final(self).log_bytes == old(self).log_bytes,
            final(self).decoded_frames == old(self).decoded_frames,
            final(self).valid_prefix_bytes == old(self).valid_prefix_bytes,
            opt_text(final(self).issue) == (if r {
                opt_text(old(self).issue)
            } else {
                Some(SHORT_PREFIX@)
            }),
    {
        if self.log_bytes - self.valid_prefix_bytes < 4 {
            self.issue = Some(string_of(SHORT_PREFIX));
            false
        } else {
            true
        }
    }

    /// The next frame's length prefix says `size`: `true` to read and
    /// decode its payload, `false` (and the issue recorded) when the length
    /// is over the cap or runs past the end of the log.
    pub fn frame_fits(&mut self, size: u32) -> (r: bool)
        requires
            old(self).wf(),
            old(self).log_bytes - old(self).valid_prefix_bytes >= 4,
        ensures
            final(self).wf(),
            ({
                let remaining = old(self).log_bytes - old(self).valid_prefix_bytes;
                &&& r == (size <= MAX_FIELD_LEN && size <= remaining - 4)
                &&& opt_text(final(self).issue) == (if size > MAX_FIELD_LEN {
                    Some(OVER_CAP@)
                } else if size > remaining - 4 {
                    Some(SHORT_BODY@)
                } else {
                    opt_text(old(self).issue)
                })
            }),
            final(self).log_bytes == old(self).log_bytes,
            final(self).decoded_frames == old(self).decoded_frames,
            final(self).valid_prefix_bytes == old(self).valid_prefix_bytes,
    {
        let remaining = self.log_bytes - self.valid_prefix_bytes;
        if size as usize > MAX_FIELD_LEN {
            self.issue = Some(string_of(OVER_CAP));
            false
        } else if size as u64 > remaining - 4 {
            self.issue = Some(string_of(SHORT_BODY));
            false
        } else {
            true
        }
    }

    /// The frame of `size` bytes whose length `frame_fits` accepted decoded.
    pub fn decoded(&mut self, size: u32)
        requires
            old(self).wf(),
            old(self).log_bytes - old(self).valid_prefix_bytes >= 4 + size,
        ensures
            final(self).wf(),
            final(self).valid_prefix_bytes == old(self).valid_prefix_bytes + 4 + size,
            final(self).decoded_frames == sat_add(old(self).decoded_frames as int, 1),
            final(self).log_bytes == old(self).log_bytes,
            final(self).issue == old(self).issue,
    {
        self.valid_prefix_bytes = self.valid_prefix_bytes + 4 + size as u64;
        self.decoded_frames = self.decoded_frames.saturating_add(1);
    }

    /// The frame did not decode, for the reason `error`.
    pub fn undecodable(&mut self, error: &str)
        requires
            old(self).wf(),
        ensures
            final(self).wf(),
            opt_text(final(self).issue) == Some(invalid_envelope_issue(error@)),
            final(self).log_bytes == old(self).log_bytes,
            final(self).decoded_frames == old(self).decoded_frames,
            final(self).valid_prefix_bytes == old(self).valid_prefix_bytes,
    {
        let mut m = string_of("invalid envelope: ");
        push_str(&mut m, error);
        push_str(&mut m, "; preserve the original log and restore from a verified backup");
        self.issue = Some(m);
    }
}

/// An inspection that read every frame it could ends with an issue or with
/// the whole log as its valid prefix.
pub proof fn lemma_inspection_ends_covered(r: LogInspection)
    requires
        r.wf(),
        !(r.issue is None && r.valid_prefix_bytes < r.log_bytes),
    ensures
        r.issue is None ==> r.valid_prefix_bytes == r.log_bytes,
{
}

pub open spec fn starts_with(s: Seq<char>, p: Seq<char>) -> bool {
    s.len() >= p.len() && s.subrange(0, p.len() as int) == p
}

/// A damaged tail whose damage is structural: a length prefix or a body
/// that the log ends before.
pub open spec fn structurally_incomplete(issue: Seq<char>) -> bool {
    issue == SHORT_PREFIX@ || starts_with(issue, "incomplete frame body;"@)
}

pub open spec fn prefix_mismatch(expected: u64, found: u64) -> Seq<char> {
    "confirmed prefix "@ + decimal(expected as nat) + " does not match freshly inspected prefix "@
        + decimal(found as nat)
}

fn starts_with_str(s: &str, p: &str) -> (r: bool)
    ensures
        r == starts_with(s@, p@),
{
    let a = crate::text::chars_of(s);
    let b = crate::text::chars_of(p);
    if a.len() < b.len() {
        return false;
    }
    let mut i: usize = 0;
    while i < b.len()
        invariant
            i <= b@.len(),
            b@.len() <= a@.len(),
            a@ == s@,
            b@ == p@,
            forall|k: int| 0 <= k < i ==> a@[k] == b@[k],
        decreases b.len() - i,
    {
        if a[i] != b[i] {
            proof {
                assert(a@.subrange(0, b@.len() as int)[i as int] != b@[i as int]);
            }
            return false;
        }
        i = i + 1;
    }
    proof {
        assert(a@.subrange(0, b@.len() as int) =~= b@);
    }
    true
}

fn same_str(s: &str, p: &str) -> (r: bool)
    ensures
        r == (s@ == p@),
{
    let r = starts_with_str(s, p) && starts_with_str(p, s);
    proof {
        assert(s@.subrange(0, s@.len() as int) =~= s@);
        assert(p@.subrange(0, p@.len() as int) =~= p@);
    }
    r
}

/// The names of the files the store keeps in its data directory.
pub open spec fn store_managed(name: Seq<char>) -> bool {
    ||| name == "blocks.log"@
    ||| name == "blocks.idx"@
    ||| name == "meta.bin"@
    ||| name == "LOCK"@
}

/// Whether `name` is one of the store's own files: a repair backup may not
/// take such a name inside the data directory.
pub fn is_store_managed(name: &str) -> (r: bool)
    ensures
        r == store_managed(name@),
{
    same_str(name, "blocks.log") || same_str(name, "blocks.idx") || same_str(name, "meta.bin") || same_str(
        name,
        "LOCK",
    )
}

/// May the operator's confirmed repair of the tail after `expected_prefix`
/// go ahead, on a fresh inspection `report`? On `Ok`, whether the damage is
/// structural; an all-zero power-loss tail may be removed too, which
/// [`may_remove_tail`] decides once the tail has been read.
pub fn damaged_tail(report: &LogInspection, expected_prefix: u64) -> (r: Result<bool, String>)
    ensures
        report.valid_prefix_bytes != expected_prefix ==> (r matches Err(m) && m@ == prefix_mismatch(
            expected_prefix,
            report.valid_prefix_bytes,
        )),
        report.valid_prefix_bytes == expected_prefix ==> match report.issue {
            None => r matches Err(m) && m@ == NO_DAMAGED_TAIL@,
            Some(issue) => if expected_prefix >= report.log_bytes {
                r matches Err(m) && m@ == EMPTY_DAMAGED_TAIL@
            } else {
                r == Ok::<bool, String>(structurally_incomplete(issue@))
            },
        },
{
    if report.valid_prefix_bytes != expected_prefix {
        let mut m = string_of("confirmed prefix ");
        push_decimal_u64(&mut m, expected_prefix);
        push_str(&mut m, " does not match freshly inspected prefix ");
        push_decimal_u64(&mut m, report.valid_prefix_bytes);
        return Err(m);
    }
    match &report.issue {
        None => Err(string_of(NO_DAMAGED_TAIL)),
        Some(issue) => {
            if expected_prefix >= report.log_bytes {
                return Err(string_of(EMPTY_DAMAGED_TAIL));
            }
            let structural = crate::text::string_of(issue.as_str()) == string_of(SHORT_PREFIX)
                || starts_with_str(issue.as_str(), "incomplete frame body;");
            Ok(structural)
        },
    }
}

/// Are all these tail bytes zero?
pub fn all_zero(b: &[u8]) -> (r: bool)
    ensures
        r == (forall|i: int| 0 <= i < b@.len() ==> b@[i] == 0),
{
    let mut i: usize = 0;
    while i < b.len()
        invariant
            i <= b@.len(),
            forall|k: int| 0 <= k < i ==> b@[k] == 0,
        decreases b.len() - i,
    {
        if b[i] != 0 {
            return false;
        }
        i = i + 1;
    }
    true
}

/// The removable suffix is an incomplete frame or entirely zero-filled.
pub fn may_remove_tail(structural: bool, tail_all_zero: bool) -> (r: Result<(), &'static str>)
    ensures
        r == (if structural || tail_all_zero {
            Ok::<(), &'static str>(())
        } else {
            Err(NOT_REMOVABLE)
        }),
{
    if !structural && !tail_all_zero {
        Err(NOT_REMOVABLE)
    } else {
        Ok(())
    }
}

// ── Serving a page ──────────────────────────────────────────────────────────

/// The byte budget of one page.
#[derive(Clone, Copy, Debug, PartialEq, Eq)]
pub struct PageBytes {
    /// Bytes a page may hold.
    pub max: usize,
    /// Framing charged per frame on top of its payload.
    pub per_frame: usize,
    /// Whether even the first frame must fit; otherwise one oversized first
    /// frame is served alone.
    pub first_must_fit: bool,
}

/// Why a scan stopped without a page.
#[derive(Clone, Debug, PartialEq, Eq)]
pub enum ScanStop {
    /// The index sent the scan to a frame that does not carry the slot it
    /// claimed: the index is not describing this log.
    IndexMismatch,
    /// The log itself is not readable as frames here.
    Refused(String),
}

/// What to do with a frame whose header was read.
#[derive(Clone, Copy, Debug, PartialEq, Eq)]
pub enum FrameAction {
    /// Past the window and within the budget: read the body and serve it.
    Take,
    /// At or below the window: skip the body unread.
    Skip,
    /// Past the window but over the budget: the page is complete.
    Stop,
}

/// A page scan in progress: the frames are read by the caller, one length
/// prefix and one header at a time.
#[derive(Clone, Debug, PartialEq, Eq)]
pub struct PageScan {
    /// The slot the index says the first frame carries; checked once.
    pub expect: Option<u64>,
    /// Whether this scan started past the last index record.
    pub unindexed_tail: bool,
    pub unindexed_frames: usize,
    /// Frames served so far.
    pub taken: usize,
    /// Budget spent so far.
    pub page_bytes: usize,
    pub after_slot: u64,
    pub limit: usize,
    pub max_unindexed: usize,
    pub page: PageBytes,
    /// Bytes of a block header.
    pub header_len: usize,
}

/// A scan step's outcome, its refusal taken as text (`None` for an index
/// mismatch).
pub open spec fn scan_view<T>(r: Result<T, ScanStop>) -> Result<T, Option<Seq<char>>> {
    match r {
        Ok(v) => Ok(v),
        Err(ScanStop::IndexMismatch) => Err(None),
        Err(ScanStop::Refused(m)) => Err(Some(m@)),
    }
}

pub open spec fn sat_usize(a: int, b: int) -> int {
    if a + b > usize::MAX {
        usize::MAX as int
    } else {
        a + b
    }
}

pub open spec fn tail_bound_message(max: usize) -> Seq<char> {
    "unindexed block-log tail exceeds the "@ + decimal(max as nat)
        + "-frame serving bound; restart to rebuild the derived index"@
}

/// The scan after the length prefix `len` was read, or why it stops: the
/// state [`PageScan::on_length`] leaves.
pub open spec fn after_length(sc: PageScan, len: u32) -> Result<PageScan, Option<Seq<char>>> {
    if sc.unindexed_tail && sc.unindexed_frames >= sc.max_unindexed {
        Err(Some(tail_bound_message(sc.max_unindexed)))
    } else if len > MAX_FIELD_LEN {
        if sc.expect is Some {
            Err(None)
        } else {
            Err(Some(FRAME_OVER_CAP@))
        }
    } else if len < sc.header_len {
        if sc.expect is Some {
            Err(None)
        } else {
            Err(Some(FRAME_TOO_SHORT@))
        }
    } else {
        Ok(PageScan { unindexed_frames: sat_usize(sc.unindexed_frames as int, 1) as usize, ..sc })
    }
}

/// What to do with the frame whose header carries `slot`, and the scan
/// after it, or why it stops: what [`PageScan::on_header`] answers.
pub open spec fn after_header(sc: PageScan, len: u32, slot: Option<u64>) -> Result<
    (FrameAction, PageScan),
    Option<Seq<char>>,
> {
    match slot {
        None => if sc.expect is Some {
            Err(None)
        } else {
            Err(Some(BAD_HEADER@))
        },
        Some(s) => if sc.expect matches Some(want) && s != want {
            Err(None)
        } else {
            let next = sat_usize(sat_usize(sc.page_bytes as int, len as int), sc.page.per_frame as int);
            if s <= sc.after_slot {
                Ok((FrameAction::Skip, PageScan { expect: None, ..sc }))
            } else if (sc.page.first_must_fit || sc.taken > 0) && next > sc.page.max {
                Ok((FrameAction::Stop, PageScan { expect: None, ..sc }))
            } else {
                Ok((FrameAction::Take, PageScan { expect: None, page_bytes: next as usize, ..sc }))
            }
        },
    }
}

/// A log frame as the scan sees it: its payload length and the slot its
/// header carries (`None`: the header did not decode).
pub type FrameHead = (u32, Option<u64>);

/// A whole page scan over the frames from where it starts: the frames it
/// serves, in log order, or why it stops. Each frame is read as the steps
/// are taken: length prefix, header, then the body when it is taken.
pub open spec fn scan_spec(sc: PageScan, frames: Seq<FrameHead>) -> Result<Seq<FrameHead>, Option<Seq<char>>>
    decreases frames.len(),
{
    if frames.len() == 0 || sc.taken >= sc.limit {
        Ok(Seq::empty())
    } else {
        match after_length(sc, frames[0].0) {
            Err(e) => Err(e),
            Ok(s1) => match after_header(s1, frames[0].0, frames[0].1) {
                Err(e) => Err(e),
                Ok((FrameAction::Stop, _)) => Ok(Seq::empty()),
                Ok((FrameAction::Skip, s2)) => scan_spec(s2, frames.drop_first()),
                Ok((FrameAction::Take, s2)) => match scan_spec(
                    PageScan { taken: (s2.taken + 1) as usize, ..s2 },
                    frames.drop_first(),
                ) {
                    Err(e) => Err(e),
                    Ok(rest) => Ok(seq![frames[0]] + rest),
                },
            },
        }
    }
}

/// The frames past `after`, in log order.
pub open spec fn qualifying(frames: Seq<FrameHead>, after: u64) -> Seq<FrameHead>
    decreases frames.len(),
{
    if frames.len() == 0 {
        Seq::empty()
    } else {
        let rest = qualifying(frames.drop_first(), after);
        if frames[0].1 matches Some(s) && s > after {
            seq![frames[0]] + rest
        } else {
            rest
        }
    }
}

/// What serving every frame past `after` charges against the page budget.
pub open spec fn page_cost(frames: Seq<FrameHead>, after: u64, per_frame: usize) -> nat
    decreases frames.len(),
{
    if frames.len() == 0 {
        0
    } else {
        let rest = page_cost(frames.drop_first(), after, per_frame);
        if frames[0].1 matches Some(s) && s > after {
            (frames[0].0 as nat) + (per_frame as nat) + rest
        } else {
            rest
        }
    }
}

/// The first `n` items of `s`, or all of them when there are fewer.
pub open spec fn first_n<T>(s: Seq<T>, n: int) -> Seq<T> {
    if n >= s.len() {
        s
    } else {
        s.take(n)
    }
}

/// A page serves the frames past its window, in log order, up to its
/// limit: on a log whose frames are whole and decode, whose first frame is
/// the one the index named, within the unindexed-tail bound and the page
/// budget, the scan serves exactly the first `limit` qualifying frames.
pub proof fn lemma_scan_serves_the_qualifying_frames(sc: PageScan, frames: Seq<FrameHead>)
    requires
        sc.taken <= sc.limit,
        forall|i: int|
            0 <= i < frames.len() ==> sc.header_len <= (#[trigger] frames[i]).0 <= MAX_FIELD_LEN
                && frames[i].1 is Some,
        sc.expect matches Some(w) ==> frames.len() > 0 && frames[0].1 == Some(w),
        sc.unindexed_tail ==> sc.unindexed_frames + frames.len() <= sc.max_unindexed,
        sc.page_bytes + page_cost(frames, sc.after_slot, sc.page.per_frame) <= sc.page.max,
    ensures
        scan_spec(sc, frames) == Ok::<Seq<FrameHead>, Option<Seq<char>>>(
            first_n(qualifying(frames, sc.after_slot), sc.limit - sc.taken),
        ),
    decreases frames.len(),
{
    let q = qualifying(frames, sc.after_slot);
    if frames.len() == 0 {
        assert(q =~= Seq::<FrameHead>::empty());
    } else if sc.taken >= sc.limit {
        assert(first_n(q, 0) =~= Seq::<FrameHead>::empty());
    } else {
        let f = frames[0];
        let rest = frames.drop_first();
        assert(f == frames[0]);
        let s1 = PageScan { unindexed_frames: sat_usize(sc.unindexed_frames as int, 1) as usize, ..sc };
        assert(after_length(sc, f.0) == Ok::<PageScan, Option<Seq<char>>>(s1));
        let s = f.1->Some_0;
        let s2 = PageScan { expect: None, ..s1 };
        assert forall|i: int| 0 <= i < rest.len() implies sc.header_len <= (#[trigger] rest[i]).0 <= MAX_FIELD_LEN
            && rest[i].1 is Some by {
            assert(rest[i] == frames[i + 1]);
        }
        if s <= sc.after_slot {
            assert(after_header(s1, f.0, f.1) == Ok::<(FrameAction, PageScan), Option<Seq<char>>>(
                (FrameAction::Skip, s2),
            ));
            lemma_scan_serves_the_qualifying_frames(s2, rest);
        } else {
            let next = sc.page_bytes + f.0 + sc.page.per_frame;
            assert(next <= sc.page.max);
            let s3 = PageScan { expect: None, page_bytes: next as usize, ..s1 };
            assert(after_header(s1, f.0, f.1) == Ok::<(FrameAction, PageScan), Option<Seq<char>>>(
                (FrameAction::Take, s3),
            ));
            let s4 = PageScan { taken: (s3.taken + 1) as usize, ..s3 };
            lemma_scan_serves_the_qualifying_frames(s4, rest);
            let qr = qualifying(rest, sc.after_slot);
            assert(q == seq![f] + qr);
            let n = sc.limit - sc.taken;
            assert(first_n(q, n) =~= seq![f] + first_n(qr, n - 1));
        }
    }
}

/// Whether a frame is served by a page past `after`.
pub open spec fn qualifies(f: FrameHead, after: u64) -> bool {
    f.1 matches Some(s) && s > after
}

/// Frames none of which is past the window add nothing to a page.
proof fn lemma_skipped_prefix(frames: Seq<FrameHead>, k: int, after: u64, per_frame: usize)
    requires
        0 <= k <= frames.len(),
        forall|i: int| 0 <= i < k ==> !qualifies(#[trigger] frames[i], after),
    ensures
        qualifying(frames.subrange(k, frames.len() as int), after) == qualifying(frames, after),
        page_cost(frames.subrange(k, frames.len() as int), after, per_frame) == page_cost(frames, after, per_frame),
    decreases k,
{
    if k == 0 {
        assert(frames.subrange(0, frames.len() as int) =~= frames);
    } else {
        lemma_skipped_prefix(frames, k - 1, after, per_frame);
        let longer = frames.subrange(k - 1, frames.len() as int);
        assert(longer.drop_first() =~= frames.subrange(k, frames.len() as int));
        assert(longer[0] == frames[k - 1]);
        assert(!qualifies(frames[k - 1], after));
    }
}

/// The slots the frames carry, one per frame.
pub open spec fn slots_of(frames: Seq<FrameHead>) -> Seq<u64> {
    Seq::new(frames.len(), |i: int| frames[i].1->Some_0)
}

/// A page served from where the index search ends is the page a scan of the
/// whole log would serve: on a log whose frames are whole, decode and carry
/// slots in increasing order, indexed one record per frame, a search over
/// the index that has ended at `lo`, and a scan started at frame `lo`
/// expecting that frame's slot (or, past the last record, at the end), the
/// page is the first `limit` frames past the window, in log order, within
/// the page budget.
pub proof fn lemma_indexed_page_is_the_whole_log_page(frames: Seq<FrameHead>, st: SlotSearch, sc: PageScan)
    requires
        forall|i: int|
            0 <= i < frames.len() ==> sc.header_len <= (#[trigger] frames[i]).0 <= MAX_FIELD_LEN
                && frames[i].1 is Some,
        forall|i: int, j: int| 0 <= i <= j < frames.len() ==> slots_of(frames)[i] <= slots_of(frames)[j],
        st.wf(),
        st.brackets(slots_of(frames)),
        st.lo == st.hi,
        sc.after_slot == st.after_slot,
        sc.expect == (if st.lo < st.n {
            frames[st.lo as int].1
        } else {
            None
        }),
        sc.unindexed_tail == (sc.expect is None),
        sc.unindexed_frames == 0,
        sc.taken == 0,
        sc.page_bytes == 0,
        page_cost(frames, sc.after_slot, sc.page.per_frame) <= sc.page.max,
    ensures
        scan_spec(sc, frames.subrange(st.lo as int, frames.len() as int)) == Ok::<
            Seq<FrameHead>,
            Option<Seq<char>>,
        >(first_n(qualifying(frames, sc.after_slot), sc.limit as int)),
{
    let s = slots_of(frames);
    lemma_sorted_search_finds_first(st, s);
    let lo = st.lo as int;
    assert forall|i: int| 0 <= i < lo implies !qualifies(#[trigger] frames[i], sc.after_slot) by {
        assert(s[i] <= st.after_slot);
    }
    lemma_skipped_prefix(frames, lo, sc.after_slot, sc.page.per_frame);
    let rest = frames.subrange(lo, frames.len() as int);
    assert forall|i: int| 0 <= i < rest.len() implies sc.header_len <= (#[trigger] rest[i]).0 <= MAX_FIELD_LEN
        && rest[i].1 is Some by {
        assert(rest[i] == frames[lo + i]);
    }
    if lo < frames.len() {
        assert(rest[0] == frames[lo]);
    }
    lemma_scan_serves_the_qualifying_frames(sc, rest);
}

impl PageScan {
    pub fn new(
        expect_slot: Option<u64>,
        after_slot: u64,
        limit: usize,
        max_unindexed: usize,
        page: PageBytes,
        header_len: usize,
    ) -> (r: PageScan)
        ensures
            r == (PageScan {
                expect: expect_slot,
                unindexed_tail: expect_slot is None,
                unindexed_frames: 0,
                taken: 0,
                page_bytes: 0,
                after_slot,
                limit,
                max_unindexed,
                page,
                header_len,
            }),
    {
        PageScan {
            expect: expect_slot,
            unindexed_tail: expect_slot.is_none(),
            unindexed_frames: 0,
            taken: 0,
            page_bytes: 0,
            after_slot,
            limit,
            max_unindexed,
            page,
            header_len,
        }
    }

    /// Is there room in the page for another frame?
    pub fn wants_frame(&self) -> (r: bool)
        ensures
            r == (self.taken < self.limit),
    {
        self.taken < self.limit
    }

    /// The next frame's length prefix says `len`: `Ok` to read its header.
    /// A scan of the unindexed tail is bounded in frames; a length the log
    /// could not hold means the index lied about where a frame starts, or,
    /// without an index claim, that the log is damaged.
    pub fn on_length(&mut self, len: u32) -> (r: Result<(), ScanStop>)
        ensures
            match after_length(*old(self), len) {
                Ok(next) => r is Ok && *final(self) == next,
                Err(e) => scan_view(r) == Err::<(), Option<Seq<char>>>(e),
            },
            final(self).expect == old(self).expect,
            final(self).taken == old(self).taken,
            final(self).page_bytes == old(self).page_bytes,
            final(self).unindexed_tail == old(self).unindexed_tail,
            final(self).after_slot == old(self).after_slot,
            final(self).limit == old(self).limit,
            final(self).max_unindexed == old(self).max_unindexed,
            final(self).page == old(self).page,
            final(self).header_len == old(self).header_len,
            if old(self).unindexed_tail && old(self).unindexed_frames >= old(self).max_unindexed {
                r matches Err(ScanStop::Refused(m)) && m@ == tail_bound_message(old(self).max_unindexed)
            } else {
                &&& final(self).unindexed_frames == sat_usize(old(self).unindexed_frames as int, 1)
                &&& scan_view(r) == (if len > MAX_FIELD_LEN {
                    if old(self).expect is Some {
                        Err(None)
                    } else {
                        Err(Some(FRAME_OVER_CAP@))
                    }
                } else if len < old(self).header_len {
                    if old(self).expect is Some {
                        Err(None)
                    } else {
                        Err(Some(FRAME_TOO_SHORT@))
                    }
                } else {
                    Ok::<(), Option<Seq<char>>>(())
                })
            },
    {
        if self.unindexed_tail && self.unindexed_frames >= self.max_unindexed {
            let mut m = string_of("unindexed block-log tail exceeds the ");
            push_decimal_u64(&mut m, self.max_unindexed as u64);
            push_str(&mut m, "-frame serving bound; restart to rebuild the derived index");
            return Err(ScanStop::Refused(m));
        }
        self.unindexed_frames = self.unindexed_frames.saturating_add(1);
        if len as usize > MAX_FIELD_LEN {
            if self.expect.is_some() {
                return Err(ScanStop::IndexMismatch);
            }
            return Err(ScanStop::Refused(string_of(FRAME_OVER_CAP)));
        }
        if (len as usize) < self.header_len {
            if self.expect.is_some() {
                return Err(ScanStop::IndexMismatch);
            }
            return Err(ScanStop::Refused(string_of(FRAME_TOO_SHORT)));
        }
        Ok(())
    }

    /// The header of the frame of payload length `len` carries `slot`
    /// (`None`: it did not decode). The index's claim is checked against the
    /// first header, once; after that the log's own order rules.
    pub fn on_header(&mut self, len: u32, slot: Option<u64>) -> (r: Result<FrameAction, ScanStop>)
        ensures
            match after_header(*old(self), len, slot) {
                Ok((action, next)) => r == Ok::<FrameAction, ScanStop>(action) && *final(self) == next,
                Err(e) => scan_view(r) == Err::<FrameAction, Option<Seq<char>>>(e),
            },
            final(self).unindexed_frames == old(self).unindexed_frames,
            final(self).taken == old(self).taken,
            final(self).unindexed_tail == old(self).unindexed_tail,
            final(self).after_slot == old(self).after_slot,
            final(self).limit == old(self).limit,
            final(self).max_unindexed == old(self).max_unindexed,
            final(self).page == old(self).page,
            final(self).header_len == old(self).header_len,
            match slot {
                None => scan_view(r) == (if old(self).expect is Some {
                    Err::<FrameAction, Option<Seq<char>>>(None)
                } else {
                    Err(Some(BAD_HEADER@))
                }),
                Some(s) => if old(self).expect matches Some(want) && s != want {
                    r == Err::<FrameAction, ScanStop>(ScanStop::IndexMismatch)
                } else {
                    let next = sat_usize(sat_usize(old(self).page_bytes as int, len as int), old(self).page.per_frame as int);
                    &&& final(self).expect is None
                    &&& if s <= old(self).after_slot {
                        r == Ok::<FrameAction, ScanStop>(FrameAction::Skip) && final(self).page_bytes == old(self).page_bytes
                    } else if (old(self).page.first_must_fit || old(self).taken > 0) && next > old(self).page.max {
                        r == Ok::<FrameAction, ScanStop>(FrameAction::Stop) && final(self).page_bytes == old(self).page_bytes
                    } else {
                        r == Ok::<FrameAction, ScanStop>(FrameAction::Take) && final(self).page_bytes == next
                    }
                },
            },
    {
        let s = match slot {
            None => {
                if self.expect.is_some() {
                    return Err(ScanStop::IndexMismatch);
                }
                return Err(ScanStop::Refused(string_of(BAD_HEADER)));
            },
            Some(s) => s,
        };
        match self.expect {
            Some(want) => {
                if s != want {
                    return Err(ScanStop::IndexMismatch);
                }
            },
            None => {},
        }
        self.expect = None;
        if s > self.after_slot {
            let next = self.page_bytes.saturating_add(len as usize).saturating_add(self.page.per_frame);
            if (self.page.first_must_fit || self.taken > 0) && next > self.page.max {
                return Ok(FrameAction::Stop);
            }
            self.page_bytes = next;
            Ok(FrameAction::Take)
        } else {
            Ok(FrameAction::Skip)
        }
    }

    /// The frame `on_header` said to take was read in full and served.
    pub fn took(&mut self)
        requires
            old(self).taken < usize::MAX,
        ensures
            *final(self) == (PageScan { taken: (old(self).taken + 1) as usize, ..*old(self) }),
    {
        self.taken = self.taken + 1;
    }
}

} // verus!
