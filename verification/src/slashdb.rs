//! The slashing fence: the highest thing this validator has ever signed, as
//! far as durable local state knows, and the decision of whether a duty may
//! be signed.
//!
//! The fence is an append-only log of fixed-size snapshot records. Its value
//! is the field-wise maximum over every valid record, which no torn trailing
//! write can lower. A checksum failure anywhere but in the last record is a
//! refusal, never a skip.
use vstd::prelude::*;
use crate::bytes::{
    le32, le64, lemma_le32_roundtrip, lemma_le64_roundtrip, push_all, push_u32, push_u64, range_eq,
    read_u32, read_u64,
};
use crate::codec::{u32_at, u64_at};
use crate::digest::{sha3, sha3_256};
use crate::text::{decimal, push_decimal_u64, push_str};
use crate::bytes::{copy_range, read_h32};

verus! {

broadcast use vstd::std_specs::vec::group_vec_axioms;

/// One snapshot record, on disk.
pub const RECORD_LEN: usize = 120;

/// Records tolerated before the log is compacted to a single one.
pub const COMPACT_AFTER: u64 = 4096;

pub const FENCE_FILE: &'static str = "slashing-protection.bin";
pub const LOCK_FILE: &'static str = "LOCK";

/// The highest thing this validator has ever signed. Monotone in every field.
#[derive(Clone, Copy, Debug, PartialEq, Eq, Structural)]
pub struct Marks {
    pub has_attested: bool,
    /// Highest slot attested.
    pub attested_slot: u64,
    /// Highest source epoch ever voted; refusing to go below it forbids a
    /// surrounding vote.
    pub source_epoch: u64,
    /// Highest target epoch ever voted; refusing to repeat or go below it
    /// forbids a double vote.
    pub target_epoch: u64,
    pub has_proposed: bool,
    /// Highest slot proposed.
    pub proposed_slot: u64,
}

impl Default for Marks {
    fn default() -> (r: Marks)
        ensures
            r == Marks::zero(),
    {
        Marks {
            has_attested: false,
            attested_slot: 0,
            source_epoch: 0,
            target_epoch: 0,
            has_proposed: false,
            proposed_slot: 0,
        }
    }
}

pub open spec fn max64(a: u64, b: u64) -> u64 {
    if a >= b {
        a
    } else {
        b
    }
}

/// `a` raised to at least `b`, field by field; a kind `b` never signed moves
/// nothing.
pub open spec fn raised(a: Marks, b: Marks) -> Marks {
    let att = if b.has_attested {
        Marks {
            has_attested: true,
            attested_slot: max64(a.attested_slot, b.attested_slot),
            source_epoch: max64(a.source_epoch, b.source_epoch),
            target_epoch: max64(a.target_epoch, b.target_epoch),
            ..a
        }
    } else {
        a
    };
    if b.has_proposed {
        Marks { has_proposed: true, proposed_slot: max64(a.proposed_slot, b.proposed_slot), ..att }
    } else {
        att
    }
}

/// `a` protects at least as much as `b`.
pub open spec fn covers(a: Marks, b: Marks) -> bool {
    &&& b.has_attested ==> a.has_attested && a.attested_slot >= b.attested_slot && a.source_epoch
        >= b.source_epoch && a.target_epoch >= b.target_epoch
    &&& b.has_proposed ==> a.has_proposed && a.proposed_slot >= b.proposed_slot
}

impl Marks {
    pub open spec fn zero() -> Marks {
        Marks {
            has_attested: false,
            attested_slot: 0,
            source_epoch: 0,
            target_epoch: 0,
            has_proposed: false,
            proposed_slot: 0,
        }
    }

    /// Raise every field to at least `other`'s.
    pub fn raise_to(&mut self, other: &Marks)
        ensures
            *final(self) == raised(*old(self), *other),
    {
        if other.has_attested {
            self.has_attested = true;
            self.attested_slot = if self.attested_slot >= other.attested_slot {
                self.attested_slot
            } else {
                other.attested_slot
            };
            self.source_epoch = if self.source_epoch >= other.source_epoch {
                self.source_epoch
            } else {
                other.source_epoch
            };
            self.target_epoch = if self.target_epoch >= other.target_epoch {
                self.target_epoch
            } else {
                other.target_epoch
            };
        }
        if other.has_proposed {
            self.has_proposed = true;
            self.proposed_slot = if self.proposed_slot >= other.proposed_slot {
                self.proposed_slot
            } else {
                other.proposed_slot
            };
        }
    }
}

/// Raising only ever adds protection, covers what it was raised to, and
/// raising twice by the same marks changes nothing more.
pub proof fn lemma_raise_is_monotone(a: Marks, b: Marks)
    ensures
        covers(raised(a, b), a),
        covers(raised(a, b), b),
        raised(raised(a, b), b) == raised(a, b),
        covers(a, b) ==> covers(raised(a, b), a) && covers(a, raised(a, b)),
{
}

// ── Refusals ────────────────────────────────────────────────────────────────

/// Why a duty was refused. Every variant names the offence it prevented.
#[derive(Debug)]
pub enum Refusal {
    /// A repeat of, or a step back below, a slot already attested.
    AttestSlotRegression { slot: u64, highest: u64 },
    /// A second vote for a target epoch already voted.
    DoubleVote { target: u64, highest: u64 },
    /// A span that would surround one already signed.
    SurroundVote { source: u64, lowest: u64 },
    /// A second block for a slot already proposed.
    ProposeSlotRegression { slot: u64, highest: u64 },
    /// The fence could not be made durable; not signing is the safe side.
    Io(String),
}

/// What a refusal tells the operator.
pub open spec fn refusal_text(r: Refusal) -> Seq<char> {
    match r {
        Refusal::AttestSlotRegression { slot, highest } => "refusing to attest slot "@ + decimal(slot as nat)
            + ": this validator has already attested slot "@ + decimal(highest as nat)
            + ". Signing again would be an equivocation. If the clock stepped backwards, fix the clock; the fence will not"@,
        Refusal::DoubleVote { target, highest } => "refusing to attest target epoch "@ + decimal(target as nat)
            + ": already voted target epoch "@ + decimal(highest as nat) + " (this would be a DoubleVote)"@,
        Refusal::SurroundVote { source, lowest } => "refusing to attest source epoch "@ + decimal(source as nat)
            + ": already voted from source epoch "@ + decimal(lowest as nat) + " (this would be a SurroundVote)"@,
        Refusal::ProposeSlotRegression { slot, highest } => "refusing to propose slot "@ + decimal(slot as nat)
            + ": already proposed slot "@ + decimal(highest as nat) + " (this would be a ProposerEquivocation)"@,
        Refusal::Io(e) => "refusing to sign: the slashing-protection record could not be made durable ("@ + e@
            + "). Signing without it is the offence this fence exists to prevent"@,
    }
}

impl Refusal {
    /// The refusal in words, naming the offence it prevented.
    pub fn message(&self) -> (r: String)
        ensures
            r@ == refusal_text(*self),
    {
        let mut out = String::new();
        match self {
            Refusal::AttestSlotRegression { slot, highest } => {
                push_str(&mut out, "refusing to attest slot ");
                push_decimal_u64(&mut out, *slot);
                push_str(&mut out, ": this validator has already attested slot ");
                push_decimal_u64(&mut out, *highest);
                push_str(
                    &mut out,
                    ". Signing again would be an equivocation. If the clock stepped backwards, fix the clock; the fence will not",
                );
            },
            Refusal::DoubleVote { target, highest } => {
                push_str(&mut out, "refusing to attest target epoch ");
                push_decimal_u64(&mut out, *target);
                push_str(&mut out, ": already voted target epoch ");
                push_decimal_u64(&mut out, *highest);
                push_str(&mut out, " (this would be a DoubleVote)");
            },
            Refusal::SurroundVote { source, lowest } => {
                push_str(&mut out, "refusing to attest source epoch ");
                push_decimal_u64(&mut out, *source);
                push_str(&mut out, ": already voted from source epoch ");
                push_decimal_u64(&mut out, *lowest);
                push_str(&mut out, " (this would be a SurroundVote)");
            },
            Refusal::ProposeSlotRegression { slot, highest } => {
                push_str(&mut out, "refusing to propose slot ");
                push_decimal_u64(&mut out, *slot);
                push_str(&mut out, ": already proposed slot ");
                push_decimal_u64(&mut out, *highest);
                push_str(&mut out, " (this would be a ProposerEquivocation)");
            },
            Refusal::Io(e) => {
                push_str(&mut out, "refusing to sign: the slashing-protection record could not be made durable (");
                push_str(&mut out, e.as_str());
                push_str(&mut out, "). Signing without it is the offence this fence exists to prevent");
            },
        }
        out
    }
}

pub open spec fn attest_spec(m: Marks, slot: u64, source: u64, target: u64) -> Result<Marks, Refusal> {
    if m.has_attested && slot <= m.attested_slot {
        Err(Refusal::AttestSlotRegression { slot, highest: m.attested_slot })
    } else if m.has_attested && target <= m.target_epoch {
        Err(Refusal::DoubleVote { target, highest: m.target_epoch })
    } else if m.has_attested && source < m.source_epoch {
        Err(Refusal::SurroundVote { source, lowest: m.source_epoch })
    } else {
        Ok(
            Marks {
                has_attested: true,
                attested_slot: slot,
                source_epoch: max64(source, m.source_epoch),
                target_epoch: target,
                ..m
            },
        )
    }
}

pub open spec fn propose_spec(m: Marks, slot: u64) -> Result<Marks, Refusal> {
    if m.has_proposed && slot <= m.proposed_slot {
        Err(Refusal::ProposeSlotRegression { slot, highest: m.proposed_slot })
    } else {
        Ok(Marks { has_proposed: true, proposed_slot: slot, ..m })
    }
}

/// An allowed duty only raises the fence, and the same duty is refused
/// from then on.
pub proof fn lemma_fence_refuses_repeats(m: Marks, slot: u64, source: u64, target: u64)
    ensures
        attest_spec(m, slot, source, target) matches Ok(next) ==> covers(next, m) && attest_spec(
            next,
            slot,
            source,
            target,
        ) is Err,
        propose_spec(m, slot) matches Ok(next) ==> covers(next, m) && propose_spec(next, slot) is Err,
{
}


// ── The record ──────────────────────────────────────────────────────────────

pub open spec fn fence_magic() -> Seq<u8> {
    seq![0x42u8, 0x50, 0x4F, 0x53, 0x53, 0x4C, 0x50, 0x31]
}

/// Domain tag of the owner binding.
pub open spec fn owner_tag() -> Seq<u8> {
    seq![
        0x42u8, 0x4C, 0x4F, 0x43, 0x48, 0x5F, 0x47, 0x34, 0x5F, 0x53, 0x4C, 0x41, 0x53, 0x48, 0x44,
        0x42, 0x5F, 0x4F, 0x57, 0x4E, 0x45, 0x52,
    ]
}

pub open spec fn flags_of(m: Marks) -> u32 {
    ((if m.has_attested { 1int } else { 0int }) + (if m.has_proposed { 2int } else { 0int })) as u32
}

/// The 112 bytes a record's checksum covers.
pub open spec fn record_body(m: Marks, owner: Seq<u8>, network: Seq<u8>) -> Seq<u8> {
    fence_magic() + le32(1) + le32(flags_of(m)) + owner + network + le64(m.attested_slot) + le64(
        m.source_epoch,
    ) + le64(m.target_epoch) + le64(m.proposed_slot)
}

/// A record: its body and the first 8 bytes of the body's SHA3-256.
pub open spec fn encode_spec(m: Marks, owner: Seq<u8>, network: Seq<u8>) -> Seq<u8> {
    record_body(m, owner, network) + sha3_256(record_body(m, owner, network))@.subrange(0, 8)
}

/// Why a record was not accepted.
#[derive(Clone, Copy, Debug, PartialEq, Eq)]
pub enum DecodeError {
    Magic,
    Version,
    Owner,
    Network,
    Checksum,
}

impl DecodeError {
    pub fn describe(&self) -> (r: &'static str)
        ensures
            r == match self {
                DecodeError::Magic => "not a bloch-pos slashing-protection record",
                DecodeError::Version => "unknown slashing-protection schema version",
                DecodeError::Owner => "belongs to a DIFFERENT validator key. A whole-datadir copy between boxes running different validators would have imported another validator's maxima; copy blocks.log and meta.bin only",
                DecodeError::Network => "belongs to a different network (genesis digest mismatch)",
                DecodeError::Checksum => "checksum mismatch (corrupt record)",
            },
    {
        match self {
            DecodeError::Magic => "not a bloch-pos slashing-protection record",
            DecodeError::Version => "unknown slashing-protection schema version",
            DecodeError::Owner => "belongs to a DIFFERENT validator key. A whole-datadir copy between boxes running different validators would have imported another validator's maxima; copy blocks.log and meta.bin only",
            DecodeError::Network => "belongs to a different network (genesis digest mismatch)",
            DecodeError::Checksum => "checksum mismatch (corrupt record)",
        }
    }
}

/// What one 120-byte record says for this owner on this network.
pub open spec fn decode_spec(r: Seq<u8>, owner: Seq<u8>, network: Seq<u8>) -> Result<Marks, DecodeError> {
    if r.subrange(0, 8) != fence_magic() {
        Err(DecodeError::Magic)
    } else if u32_at(r, 8) != 1 {
        Err(DecodeError::Version)
    } else if r.subrange(112, 120) != sha3_256(r.subrange(0, 112))@.subrange(0, 8) {
        Err(DecodeError::Checksum)
    } else if r.subrange(16, 48) != owner {
        Err(DecodeError::Owner)
    } else if r.subrange(48, 80) != network {
        Err(DecodeError::Network)
    } else {
        let flags = u32_at(r, 12);
        Ok(
            Marks {
                has_attested: flags % 2 == 1,
                attested_slot: u64_at(r, 80) as u64,
                source_epoch: u64_at(r, 88) as u64,
                target_epoch: u64_at(r, 96) as u64,
                has_proposed: (flags / 2) % 2 == 1,
                proposed_slot: u64_at(r, 104) as u64,
            },
        )
    }
}

fn push_fence_magic(out: &mut Vec<u8>)
    ensures
        final(out)@ == old(out)@ + fence_magic(),
{
    out.push(0x42u8);
    out.push(0x50u8);
    out.push(0x4Fu8);
    out.push(0x53u8);
    out.push(0x53u8);
    out.push(0x4Cu8);
    out.push(0x50u8);
    out.push(0x31u8);
    proof {
        assert(final(out)@ =~= old(out)@ + fence_magic());
    }
}

/// One snapshot record of `m` for `owner` on `network`.
pub fn encode(m: &Marks, owner: &[u8; 32], network: &[u8; 32]) -> (r: Vec<u8>)
    ensures
        r@ == encode_spec(*m, owner@, network@),
        r@.len() == RECORD_LEN,
{
    let mut out: Vec<u8> = Vec::new();
    push_fence_magic(&mut out);
    push_u32(&mut out, 1);
    let flags: u32 = (if m.has_attested {
        1u32
    } else {
        0u32
    }) + (if m.has_proposed {
        2u32
    } else {
        0u32
    });
    push_u32(&mut out, flags);
    push_all(&mut out, owner);
    push_all(&mut out, network);
    push_u64(&mut out, m.attested_slot);
    push_u64(&mut out, m.source_epoch);
    push_u64(&mut out, m.target_epoch);
    push_u64(&mut out, m.proposed_slot);
    let ghost body = out@;
    proof {
        lemma_le32_roundtrip(1);
        lemma_le32_roundtrip(flags);
        lemma_le64_roundtrip(m.attested_slot);
        lemma_le64_roundtrip(m.source_epoch);
        lemma_le64_roundtrip(m.target_epoch);
        lemma_le64_roundtrip(m.proposed_slot);
        assert(body =~= record_body(*m, owner@, network@));
    }
    let sum = sha3(out.as_slice());
    let head = copy_range(&sum, 0, 8);
    push_all(&mut out, head.as_slice());
    out
}

/// Read one record for this owner on this network.
pub fn decode(rec: &[u8], owner: &[u8; 32], network: &[u8; 32]) -> (r: Result<Marks, DecodeError>)
    requires
        rec@.len() == RECORD_LEN,
    ensures
        r == decode_spec(rec@, owner@, network@),
{
    let mut want: Vec<u8> = Vec::new();
    push_fence_magic(&mut want);
    let same = range_eq(rec, 0, want.as_slice(), 0, 8);
    proof {
        assert(want@.subrange(0, 8) =~= want@);
    }
    if !same {
        return Err(DecodeError::Magic);
    }
    if read_u32(rec, 8) != 1 {
        return Err(DecodeError::Version);
    }
    let body = copy_range(rec, 0, 112);
    let sum = sha3(body.as_slice());
    if !range_eq(rec, 112, &sum, 0, 8) {
        return Err(DecodeError::Checksum);
    }
    if !range_eq(rec, 16, owner, 0, 32) {
        proof {
            assert(owner@.subrange(0, 32) =~= owner@);
        }
        return Err(DecodeError::Owner);
    }
    proof {
        assert(owner@.subrange(0, 32) =~= owner@);
    }
    if !range_eq(rec, 48, network, 0, 32) {
        proof {
            assert(network@.subrange(0, 32) =~= network@);
        }
        return Err(DecodeError::Network);
    }
    proof {
        assert(network@.subrange(0, 32) =~= network@);
    }
    let flags = read_u32(rec, 12);
    Ok(
        Marks {
            has_attested: flags % 2 == 1,
            attested_slot: read_u64(rec, 80),
            source_epoch: read_u64(rec, 88),
            target_epoch: read_u64(rec, 96),
            has_proposed: (flags / 2) % 2 == 1,
            proposed_slot: read_u64(rec, 104),
        },
    )
}

/// A record reads back as the marks written, for its own owner and network.
pub proof fn lemma_record_round_trip(m: Marks, owner: Seq<u8>, network: Seq<u8>)
    requires
        owner.len() == 32,
        network.len() == 32,
    ensures
        decode_spec(encode_spec(m, owner, network), owner, network) == Ok::<Marks, DecodeError>(m),
{
    let b = encode_spec(m, owner, network);
    let body = record_body(m, owner, network);
    lemma_le32_roundtrip(1);
    lemma_le32_roundtrip(flags_of(m));
    lemma_le64_roundtrip(m.attested_slot);
    lemma_le64_roundtrip(m.source_epoch);
    lemma_le64_roundtrip(m.target_epoch);
    lemma_le64_roundtrip(m.proposed_slot);
    assert(sha3_256(body)@.len() == 32);
    assert(b.subrange(0, 112) =~= body);
    assert(b.subrange(0, 8) =~= fence_magic());
    assert(b.subrange(8, 12) =~= le32(1));
    assert(b.subrange(12, 16) =~= le32(flags_of(m)));
    assert(b.subrange(16, 48) =~= owner);
    assert(b.subrange(48, 80) =~= network);
    assert(b.subrange(80, 88) =~= le64(m.attested_slot));
    assert(b.subrange(88, 96) =~= le64(m.source_epoch));
    assert(b.subrange(96, 104) =~= le64(m.target_epoch));
    assert(b.subrange(104, 112) =~= le64(m.proposed_slot));
    assert(b.subrange(112, 120) =~= sha3_256(body)@.subrange(0, 8));
}


// ── Whose fence, and the fold over the log ──────────────────────────────────

fn push_owner_tag(out: &mut Vec<u8>)
    ensures
        final(out)@ == old(out)@ + owner_tag(),
{
    let tag: [u8; 22] = [
        0x42, 0x4C, 0x4F, 0x43, 0x48, 0x5F, 0x47, 0x34, 0x5F, 0x53, 0x4C, 0x41, 0x53, 0x48, 0x44,
        0x42, 0x5F, 0x4F, 0x57, 0x4E, 0x45, 0x52,
    ];
    push_all(out, &tag);
    proof {
        assert(tag@ =~= owner_tag());
    }
}

/// Record `i` of a log.
pub open spec fn record_at(b: Seq<u8>, i: int) -> Seq<u8> {
    b.subrange(i * 120, i * 120 + 120)
}

/// The fold of records `i..` of a log into `acc`, counting the records
/// read. A checksum failure is tolerated only in the very last record of a
/// log that ends on a record boundary (a torn trailing write); any other
/// failure names its record.
pub open spec fn fold_spec(b: Seq<u8>, owner: Seq<u8>, network: Seq<u8>, i: int, acc: Marks, count: nat) -> Result<
    (Marks, nat),
    (int, DecodeError),
>
    decreases b.len() / 120 - i,
{
    let whole = (b.len() / 120) as int;
    if i < 0 || i >= whole {
        Ok((acc, count))
    } else {
        let last = i + 1 == whole && b.len() % 120 == 0;
        match decode_spec(record_at(b, i), owner, network) {
            Ok(m) => fold_spec(b, owner, network, i + 1, raised(acc, m), count + 1),
            Err(DecodeError::Checksum) if last => fold_spec(b, owner, network, i + 1, acc, count),
            Err(e) => Err((i, e)),
        }
    }
}

/// Fold a fence log into its field-wise maximum and the number of records
/// it holds, refusing anything that is not this validator's, not this
/// network's, or corrupt anywhere but at the very end.
pub fn read_log(bytes: &[u8], owner: &[u8; 32], network: &[u8; 32]) -> (r: Result<(Marks, u64), (u64, DecodeError)>)
    ensures
        match r {
            Ok((m, count)) => fold_spec(bytes@, owner@, network@, 0, Marks::zero(), 0) == Ok::<
                (Marks, nat),
                (int, DecodeError),
            >((m, count as nat)),
            Err((i, e)) => fold_spec(bytes@, owner@, network@, 0, Marks::zero(), 0) == Err::<
                (Marks, nat),
                (int, DecodeError),
            >((i as int, e)),
        },
{
    let n = bytes.len();
    let whole = n / RECORD_LEN;
    let mut marks = Marks::default();
    let mut count: u64 = 0;
    let mut i: usize = 0;
    while i < whole
        invariant
            n == bytes@.len(),
            whole == n / 120,
            i <= whole,
            count <= i,
            fold_spec(bytes@, owner@, network@, i as int, marks, count as nat) == fold_spec(
                bytes@,
                owner@,
                network@,
                0,
                Marks::zero(),
                0,
            ),
        decreases whole - i,
    {
        proof {
            assert((i + 1) * 120 <= n) by (nonlinear_arith)
                requires
                    i < whole,
                    whole == n / 120,
            {
            }
        }
        let rec = copy_range(bytes, i * RECORD_LEN, RECORD_LEN);
        let last = i + 1 == whole && n % RECORD_LEN == 0;
        match decode(rec.as_slice(), owner, network) {
            Ok(m) => {
                marks.raise_to(&m);
                count = count + 1;
            },
            Err(DecodeError::Checksum) => {
                if !last {
                    return Err((i as u64, DecodeError::Checksum));
                }
            },
            Err(e) => {
                return Err((i as u64, e));
            },
        }
        i = i + 1;
    }
    Ok((marks, count))
}

/// The fence's value covers every record it was folded from.
pub proof fn lemma_fold_covers(b: Seq<u8>, owner: Seq<u8>, network: Seq<u8>, i: int, acc: Marks, count: nat, k: int)
    requires
        0 <= i <= k < b.len() / 120,
        decode_spec(record_at(b, k), owner, network) is Ok,
        fold_spec(b, owner, network, i, acc, count) is Ok,
    ensures
        covers(fold_spec(b, owner, network, i, acc, count)->Ok_0.0, decode_spec(record_at(b, k), owner, network)->Ok_0),
    decreases b.len() / 120 - i,
{
    let m = decode_spec(record_at(b, i), owner, network);
    if i == k {
        lemma_fold_keeps(b, owner, network, i + 1, raised(acc, m->Ok_0), count + 1);
        lemma_raise_is_monotone(acc, m->Ok_0);
    } else {
        match m {
            Ok(x) => lemma_fold_covers(b, owner, network, i + 1, raised(acc, x), count + 1, k),
            Err(_) => lemma_fold_covers(b, owner, network, i + 1, acc, count, k),
        }
    }
}

/// Folding further never lowers what has been folded so far.
pub proof fn lemma_fold_keeps(b: Seq<u8>, owner: Seq<u8>, network: Seq<u8>, i: int, acc: Marks, count: nat)
    requires
        fold_spec(b, owner, network, i, acc, count) is Ok,
    ensures
        covers(fold_spec(b, owner, network, i, acc, count)->Ok_0.0, acc),
    decreases b.len() / 120 - i,
{
    let whole = (b.len() / 120) as int;
    if 0 <= i < whole {
        match decode_spec(record_at(b, i), owner, network) {
            Ok(m) => {
                lemma_fold_keeps(b, owner, network, i + 1, raised(acc, m), count + 1);
                lemma_raise_is_monotone(acc, m);
                let f = fold_spec(b, owner, network, i + 1, raised(acc, m), count + 1)->Ok_0.0;
                assert(covers(f, raised(acc, m)));
            },
            Err(_) => {
                lemma_fold_keeps(b, owner, network, i + 1, acc, count);
            },
        }
    }
}

// ── The fence's state ───────────────────────────────────────────────────────

/// The slashing fence as this process holds it: whose it is, the maxima
/// it carries and how many records its log holds. Reading, appending and
/// rewriting the log file is the caller's; every decision is made here.
///
/// A duty is signed only after the record returned by `record` for the
/// marks that `attest_with` or `propose_with` gave back is durable and
/// `commit` has taken them.
pub struct SlashingProtection {
    owner: [u8; 32],
    network: [u8; 32],
    marks: Marks,
    records: u64,
    compact_after: u64,
}

impl SlashingProtection {
    pub closed spec fn marks_view(&self) -> Marks {
        self.marks
    }

    /// The owner digest the fence is bound to.
    pub closed spec fn owner_view(&self) -> Seq<u8> {
        self.owner@
    }

    /// The genesis digest of the network the fence is bound to.
    pub closed spec fn network_view(&self) -> Seq<u8> {
        self.network@
    }

    /// Records in the log since it was created or last compacted.
    pub closed spec fn record_count(&self) -> nat {
        self.records as nat
    }

    /// Records tolerated before compaction.
    pub closed spec fn compact_threshold(&self) -> nat {
        self.compact_after as nat
    }

/// The binding identity of a validator key: SHA3-256 over a domain tag,
    /// the key's length and the key. The public key, never the secret.
    pub fn owner_of(pubkey: &[u8]) -> (r: [u8; 32])
        requires
            pubkey@.len() <= u64::MAX,
        ensures
            r == sha3_256(owner_tag() + le64(pubkey@.len() as u64) + pubkey@),
    {
        let mut data: Vec<u8> = Vec::new();
        push_owner_tag(&mut data);
        push_u64(&mut data, pubkey.len() as u64);
        push_all(&mut data, pubkey);
        sha3(data.as_slice())
    }

    /// Open the fence for `pubkey` on the network identified by
    /// `genesis_digest`, given the log's bytes (`None` when there is no log
    /// yet). A log that belongs to another validator or another network, or
    /// that is corrupt anywhere but in its last record, is refused with the
    /// index of the offending record.
    pub fn open(log: Option<&[u8]>, pubkey: &[u8], genesis_digest: &[u8; 32]) -> (r: Result<
        SlashingProtection,
        (u64, DecodeError),
    >)
        requires
            pubkey@.len() <= u64::MAX,
        ensures
            ({
                let owner = sha3_256(owner_tag() + le64(pubkey@.len() as u64) + pubkey@)@;
                match log {
                    None => r matches Ok(p) && p.marks_view() == Marks::zero() && p.record_count()
                        == 0 && p.owner_view() == owner && p.network_view() == genesis_digest@
                        && p.compact_threshold() == COMPACT_AFTER,
                    Some(b) => match fold_spec(b@, owner, genesis_digest@, 0, Marks::zero(), 0) {
                        Ok((m, c)) => r matches Ok(p) && p.marks_view() == m && p.record_count()
                            == c && p.owner_view() == owner && p.network_view() == genesis_digest@
                            && p.compact_threshold() == COMPACT_AFTER,
                        Err((i, e)) => r matches Err((j, e2)) && j == i && e2 == e,
                    },
                }
            }),
    {
        let owner = SlashingProtection::owner_of(pubkey);
        match log {
            None => Ok(
                SlashingProtection {
                    owner,
                    network: *genesis_digest,
                    marks: Marks::default(),
                    records: 0,
                    compact_after: COMPACT_AFTER,
                },
            ),
            Some(bytes) => match read_log(bytes, &owner, genesis_digest) {
                Ok((marks, records)) => Ok(
                    SlashingProtection {
                        owner,
                        network: *genesis_digest,
                        marks,
                        records,
                        compact_after: COMPACT_AFTER,
                    },
                ),
                Err(e) => Err(e),
            },
        }
    }

    pub fn marks(&self) -> (r: Marks)
        ensures
            r == self.marks_view(),
    {
        self.marks
    }

    /// Records in the log since it was created or last compacted.
    pub fn records(&self) -> (r: u64)
        ensures
            r == self.record_count(),
    {
        self.records
    }

    /// May this attestation be signed? On `Ok`, the marks to make durable
    /// before signing it.
    pub fn attest_with(&self, slot: u64, source_epoch: u64, target_epoch: u64) -> (r: Result<Marks, Refusal>)
        ensures
            r == attest_spec(self.marks_view(), slot, source_epoch, target_epoch),
    {
        let m = self.marks;
        if m.has_attested {
            if slot <= m.attested_slot {
                return Err(Refusal::AttestSlotRegression { slot, highest: m.attested_slot });
            }
            if target_epoch <= m.target_epoch {
                return Err(Refusal::DoubleVote { target: target_epoch, highest: m.target_epoch });
            }
            if source_epoch < m.source_epoch {
                return Err(Refusal::SurroundVote { source: source_epoch, lowest: m.source_epoch });
            }
        }
        let mut next = m;
        next.has_attested = true;
        next.attested_slot = slot;
        next.source_epoch = if source_epoch >= next.source_epoch {
            source_epoch
        } else {
            next.source_epoch
        };
        next.target_epoch = target_epoch;
        Ok(next)
    }

    /// May this block be signed? On `Ok`, the marks to make durable before
    /// signing it.
    pub fn propose_with(&self, slot: u64) -> (r: Result<Marks, Refusal>)
        ensures
            r == propose_spec(self.marks_view(), slot),
    {
        if self.marks.has_proposed && slot <= self.marks.proposed_slot {
            return Err(Refusal::ProposeSlotRegression { slot, highest: self.marks.proposed_slot });
        }
        let mut next = self.marks;
        next.has_proposed = true;
        next.proposed_slot = slot;
        Ok(next)
    }

    /// Raise the fence to at least `other`: the marks to commit, or `None`
    /// when the fence already covers them and nothing is to be written.
    /// An import only ever raises.
    pub fn import(&self, other: Marks) -> (r: Option<Marks>)
        ensures
            r == (if raised(self.marks_view(), other) == self.marks_view() {
                None::<Marks>
            } else {
                Some(raised(self.marks_view(), other))
            }),
    {
        let mut next = self.marks;
        next.raise_to(&other);
        if next == self.marks {
            None
        } else {
            Some(next)
        }
    }

    /// The record that makes `next` durable for this fence.
    pub fn record(&self, next: &Marks) -> (r: Vec<u8>)
        ensures
            r@ == encode_spec(*next, self.owner_view(), self.network_view()),
            r@.len() == RECORD_LEN,
    {
        encode(next, &self.owner, &self.network)
    }

    /// Take `next` once its record is durable. Returns whether the log has
    /// now outgrown the compaction threshold and is to be rewritten as the
    /// single record of the current marks.
    pub fn commit(&mut self, next: Marks) -> (compact: bool)
        requires
            old(self).record_count() < u64::MAX,
        ensures
            final(self).marks_view() == next,
            final(self).record_count() == old(self).record_count() + 1,
            final(self).owner_view() == old(self).owner_view(),
            final(self).network_view() == old(self).network_view(),
            final(self).compact_threshold() == old(self).compact_threshold(),
            compact == (final(self).record_count() > final(self).compact_threshold()),
    {
        self.marks = next;
        self.records = self.records + 1;
        self.records > self.compact_after
    }

    /// The log has been rewritten as the single record of the current marks.
    pub fn compacted(&mut self)
        ensures
            final(self).marks_view() == old(self).marks_view(),
            final(self).record_count() == 1,
            final(self).owner_view() == old(self).owner_view(),
            final(self).network_view() == old(self).network_view(),
            final(self).compact_threshold() == old(self).compact_threshold(),
    {
        self.records = 1;
    }
}

/// A single record, as compaction leaves the log, reads back as the marks
/// it was written from: the fence neither gains nor loses protection.
pub proof fn lemma_compaction_preserves_the_maxima(m: Marks, owner: Seq<u8>, network: Seq<u8>)
    requires
        owner.len() == 32,
        network.len() == 32,
    ensures
        fold_spec(encode_spec(m, owner, network), owner, network, 0, Marks::zero(), 0) == Ok::<
            (Marks, nat),
            (int, DecodeError),
        >((raised(Marks::zero(), m), 1)),
        covers(raised(Marks::zero(), m), m),
        covers(m, raised(Marks::zero(), m)),
{
    let b = encode_spec(m, owner, network);
    lemma_record_round_trip(m, owner, network);
    lemma_encode_len(m, owner, network);
    assert(record_at(b, 0) =~= b);
    assert(b.len() / 120 == 1);
    assert(fold_spec(b, owner, network, 1, raised(Marks::zero(), m), 1) == Ok::<
        (Marks, nat),
        (int, DecodeError),
    >((raised(Marks::zero(), m), 1)));
}

proof fn lemma_encode_len(m: Marks, owner: Seq<u8>, network: Seq<u8>)
    requires
        owner.len() == 32,
        network.len() == 32,
    ensures
        encode_spec(m, owner, network).len() == 120,
{
    lemma_le32_roundtrip(1);
    lemma_le32_roundtrip(flags_of(m));
    lemma_le64_roundtrip(m.attested_slot);
    lemma_le64_roundtrip(m.source_epoch);
    lemma_le64_roundtrip(m.target_epoch);
    lemma_le64_roundtrip(m.proposed_slot);
    assert(sha3_256(record_body(m, owner, network))@.len() == 32);
}

/// Every record of the log reads as this fence's.
pub open spec fn all_records_valid(b: Seq<u8>, owner: Seq<u8>, network: Seq<u8>) -> bool {
    &&& b.len() % 120 == 0
    &&& forall|k: int| 0 <= k < b.len() / 120 ==> #[trigger] decode_spec(record_at(b, k), owner, network) is Ok
}

/// What a commit appends is read back when the fence is next opened: the
/// log with the new record folds to the old value raised to the committed
/// marks, one record longer.
pub proof fn lemma_commit_reads_back(b: Seq<u8>, owner: Seq<u8>, network: Seq<u8>, next: Marks)
    requires
        owner.len() == 32,
        network.len() == 32,
        all_records_valid(b, owner, network),
    ensures
        fold_spec(b, owner, network, 0, Marks::zero(), 0) is Ok,
        fold_spec(b + encode_spec(next, owner, network), owner, network, 0, Marks::zero(), 0) == Ok::<
            (Marks, nat),
            (int, DecodeError),
        >(
            (
                raised(fold_spec(b, owner, network, 0, Marks::zero(), 0)->Ok_0.0, next),
                fold_spec(b, owner, network, 0, Marks::zero(), 0)->Ok_0.1 + 1,
            ),
        ),
        covers(
            fold_spec(b + encode_spec(next, owner, network), owner, network, 0, Marks::zero(), 0)->Ok_0.0,
            next,
        ),
{
    lemma_fold_append(b, owner, network, next, 0, Marks::zero(), 0);
    let f = fold_spec(b, owner, network, 0, Marks::zero(), 0)->Ok_0.0;
    lemma_raise_is_monotone(f, next);
}

proof fn lemma_fold_append(b: Seq<u8>, owner: Seq<u8>, network: Seq<u8>, next: Marks, i: int, acc: Marks, count: nat)
    requires
        owner.len() == 32,
        network.len() == 32,
        all_records_valid(b, owner, network),
        0 <= i <= b.len() / 120,
    ensures
        fold_spec(b, owner, network, i, acc, count) is Ok,
        fold_spec(b + encode_spec(next, owner, network), owner, network, i, acc, count) == Ok::<
            (Marks, nat),
            (int, DecodeError),
        >(
            (
                raised(fold_spec(b, owner, network, i, acc, count)->Ok_0.0, next),
                fold_spec(b, owner, network, i, acc, count)->Ok_0.1 + 1,
            ),
        ),
    decreases b.len() / 120 - i,
{
    let r = encode_spec(next, owner, network);
    let c = b + r;
    let whole = b.len() / 120;
    lemma_encode_len(next, owner, network);
    assert(c.len() == b.len() + 120);
    assert(b.len() == whole * 120) by {
        vstd::arithmetic::div_mod::lemma_fundamental_div_mod(b.len() as int, 120);
    }
    assert(c.len() / 120 == whole + 1) by {
        vstd::arithmetic::div_mod::lemma_div_multiples_vanish_fancy((whole + 1) as int, 0, 120);
        assert(c.len() == (whole + 1) * 120) by (nonlinear_arith)
            requires
                c.len() == b.len() + 120,
                b.len() == whole * 120,
        ;
    }
    assert(c.len() % 120 == 0) by {
        vstd::arithmetic::div_mod::lemma_mod_multiples_basic((whole + 1) as int, 120);
        assert(c.len() == (whole + 1) * 120) by (nonlinear_arith)
            requires
                c.len() == b.len() + 120,
                b.len() == whole * 120,
        ;
    }
    if i == whole {
        assert(i * 120 == b.len()) by (nonlinear_arith)
            requires
                i == whole,
                b.len() == whole * 120,
        ;
        assert(record_at(c, i) =~= r);
        lemma_record_round_trip(next, owner, network);
        assert(fold_spec(c, owner, network, i + 1, raised(acc, next), count + 1) == Ok::<
            (Marks, nat),
            (int, DecodeError),
        >((raised(acc, next), count + 1)));
    } else {
        assert((i + 1) * 120 <= b.len()) by (nonlinear_arith)
            requires
                i < whole,
                b.len() == whole * 120,
        ;
        assert(record_at(c, i) =~= record_at(b, i));
        let m = decode_spec(record_at(b, i), owner, network);
        assert(m is Ok);
        lemma_fold_append(b, owner, network, next, i + 1, raised(acc, m->Ok_0), count + 1);
    }
}

} // verus!
