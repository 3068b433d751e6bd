//! Slashing protection: the last-signed watermarks, and the decision of
//! whether a duty may be signed.
//!
//! The ordering rule is carried by the API: a guard answers with the
//! watermarks that must be made durable, the caller writes the record those
//! describe, and only then commits them here and signs. A refused duty
//! changes nothing.
use vstd::prelude::*;
use crate::bytes::{
    copy_range, le32, le64, lemma_le32_roundtrip, lemma_le64_roundtrip, push_all, push_u32,
    push_u64, range_eq, read_h32, read_u32, read_u64,
};
use crate::codec::{u32_at, u64_at};
use crate::digest::{shake256, shake256_32};
use crate::text::{decimal, push_decimal_u64, push_str};

verus! {

broadcast use vstd::std_specs::vec::group_vec_axioms;

/// The protection record's file name in the data directory.
pub const FILE_NAME: &'static str = "slashing_protection.bin";

/// Length of an unbound record: magic, version, four words, digest.
pub const RECORD_LEN_V1: usize = 76;
/// Length of a bound record: the V1 fields, the binding, digest.
pub const RECORD_LEN_V2: usize = 140;
/// Length of a record carrying RANDAO recommit protection.
pub const MAX_RECORD_LEN: usize = 224;

/// The on-disk stand-in for "nothing signed yet". No real slot or epoch
/// reaches it.
pub const NONE: u64 = 0xFFFF_FFFF_FFFF_FFFF;

/// The last-signed watermarks. `None` = nothing of that kind signed yet.
#[derive(Clone, Copy, Debug, PartialEq, Eq)]
pub struct Watermarks {
    pub proposal_slot: Option<u64>,
    pub attestation_slot: Option<u64>,
    pub source_epoch: Option<u64>,
    pub target_epoch: Option<u64>,
}

impl Default for Watermarks {
    fn default() -> (r: Watermarks)
        ensures
            r == (Watermarks { proposal_slot: None, attestation_slot: None, source_epoch: None, target_epoch: None }),
    {
        Watermarks { proposal_slot: None, attestation_slot: None, source_epoch: None, target_epoch: None }
    }
}

/// Whose watermarks these are: the validator key and the network.
#[derive(Clone, Copy, Debug, PartialEq, Eq)]
pub struct Binding {
    /// SHA3-256 of the validator's public key.
    pub validator_pubkey_sha3: [u8; 32],
    /// The network digest the data dir was initialised for.
    pub genesis_digest: [u8; 32],
}

pub open spec fn binding_view(b: Binding) -> (Seq<u8>, Seq<u8>) {
    (b.validator_pubkey_sha3@, b.genesis_digest@)
}

pub open spec fn opt_binding_view(b: Option<Binding>) -> Option<(Seq<u8>, Seq<u8>)> {
    match b {
        Some(x) => Some(binding_view(x)),
        None => None,
    }
}

/// A RANDAO signing intent made durable before its signature.
#[derive(Clone, Copy, Debug, PartialEq, Eq)]
pub struct RecommitIntent {
    pub epoch: u64,
    pub generation: u32,
    pub commitment: [u8; 32],
    pub signing_root: [u8; 32],
}

/// Recommit protection: a recovery floor and the last durable intent.
#[derive(Clone, Copy, Debug, PartialEq, Eq)]
pub struct RecommitProtection {
    /// Intents at or below this epoch are refused.
    pub epoch_floor: Option<u64>,
    pub intent: Option<RecommitIntent>,
}

pub type IntentV = (u64, u32, Seq<u8>, Seq<u8>);

pub type RecommitV = (Option<u64>, Option<IntentV>);

pub open spec fn intent_view(i: RecommitIntent) -> IntentV {
    (i.epoch, i.generation, i.commitment@, i.signing_root@)
}

pub open spec fn recommit_view(p: RecommitProtection) -> RecommitV {
    (
        p.epoch_floor,
        match p.intent {
            Some(i) => Some(intent_view(i)),
            None => None,
        },
    )
}

pub open spec fn opt_recommit_view(p: Option<RecommitProtection>) -> Option<RecommitV> {
    match p {
        Some(x) => Some(recommit_view(x)),
        None => None,
    }
}

// ── The record ──────────────────────────────────────────────────────────────

pub open spec fn magic(version: u8) -> Seq<u8> {
    seq![0x42u8, 0x50, 0x4F, 0x53, 0x53, 0x4C, 0x50, (0x30 + version) as u8]
}

pub open spec fn word(v: Option<u64>) -> Seq<u8> {
    le64(
        match v {
            Some(x) => x,
            None => NONE,
        },
    )
}

pub open spec fn read_word(w: nat) -> Option<u64> {
    if w == NONE {
        None
    } else {
        Some(w as u64)
    }
}

pub open spec fn words(wm: Watermarks) -> Seq<u8> {
    word(wm.proposal_slot) + word(wm.attestation_slot) + word(wm.source_epoch) + word(wm.target_epoch)
}

/// The body of a V1 (unbound) or V2 (bound) record, before its digest.
pub open spec fn body_spec(wm: Watermarks, binding: Option<Binding>) -> Seq<u8> {
    match binding {
        Some(b) => magic(2) + le32(2) + words(wm) + b.validator_pubkey_sha3@ + b.genesis_digest@,
        None => magic(1) + le32(1) + words(wm),
    }
}

/// A record: its body, then SHAKE-256/32 of the body.
pub open spec fn encode_spec(wm: Watermarks, binding: Option<Binding>) -> Seq<u8> {
    body_spec(wm, binding) + shake256_32(body_spec(wm, binding))@
}

pub open spec fn intent_fields(p: RecommitProtection) -> Seq<u8> {
    match p.intent {
        Some(i) => le64(i.epoch) + le32(i.generation) + i.commitment@ + i.signing_root@,
        None => le64(NONE) + le32(0) + Seq::new(32, |k: int| 0u8) + Seq::new(32, |k: int| 0u8),
    }
}

/// The body of a V3 record.
pub open spec fn body_v3_spec(wm: Watermarks, b: Binding, p: RecommitProtection) -> Seq<u8> {
    magic(3) + le32(3) + words(wm) + b.validator_pubkey_sha3@ + b.genesis_digest@ + word(p.epoch_floor)
        + intent_fields(p)
}

pub open spec fn encode_v3_spec(wm: Watermarks, b: Binding, p: RecommitProtection) -> Seq<u8> {
    body_v3_spec(wm, b, p) + shake256_32(body_v3_spec(wm, b, p))@
}

pub open spec fn zeros32(s: Seq<u8>) -> bool {
    forall|k: int| 0 <= k < s.len() ==> #[trigger] s[k] == 0
}

/// What a record says, if it is one: every length, magic, version and
/// digest must agree, so a body wearing another version's magic is corrupt.
pub open spec fn decode_record_spec(b: Seq<u8>) -> Option<(Watermarks, Option<(Seq<u8>, Seq<u8>)>, Option<RecommitV>)> {
    let shape = if b.len() == RECORD_LEN_V1 && b.subrange(0, 8) == magic(1) && b.subrange(8, 12) == le32(1) {
        Some((44int, false))
    } else if b.len() == RECORD_LEN_V2 && b.subrange(0, 8) == magic(2) && b.subrange(8, 12) == le32(2) {
        Some((108int, true))
    } else if b.len() == MAX_RECORD_LEN && b.subrange(0, 8) == magic(3) && b.subrange(8, 12) == le32(3) {
        Some((192int, true))
    } else {
        None
    };
    match shape {
        None => None,
        Some((body_len, bound)) => if b.subrange(body_len, b.len() as int) != shake256_32(b.subrange(0, body_len))@ {
            None
        } else {
            let wm = Watermarks {
                proposal_slot: read_word(u64_at(b, 12)),
                attestation_slot: read_word(u64_at(b, 20)),
                source_epoch: read_word(u64_at(b, 28)),
                target_epoch: read_word(u64_at(b, 36)),
            };
            let binding = if bound {
                Some((b.subrange(44, 76), b.subrange(76, 108)))
            } else {
                None
            };
            if b.len() == MAX_RECORD_LEN {
                let floor = u64_at(b, 108);
                let epoch = u64_at(b, 116);
                let generation = u32_at(b, 124);
                let commitment = b.subrange(128, 160);
                let root = b.subrange(160, 192);
                if epoch == NONE {
                    if generation != 0 || !zeros32(commitment) || !zeros32(root) {
                        None
                    } else {
                        Some((wm, binding, Some((read_word(floor), None))))
                    }
                } else if generation == 0 {
                    None
                } else {
                    Some((wm, binding, Some((read_word(floor), Some((epoch as u64, generation as u32, commitment, root))))))
                }
            } else {
                Some((wm, binding, None))
            }
        },
    }
}

fn push_magic(out: &mut Vec<u8>, version: u8)
    requires
        1 <= version <= 3,
    ensures
        final(out)@ == old(out)@ + magic(version),
{
    out.push(0x42u8);
    out.push(0x50u8);
    out.push(0x4Fu8);
    out.push(0x53u8);
    out.push(0x53u8);
    out.push(0x4Cu8);
    out.push(0x50u8);
    out.push(0x30u8 + version);
    proof {
        assert(final(out)@ =~= old(out)@ + magic(version));
    }
}

fn push_word(out: &mut Vec<u8>, v: Option<u64>)
    ensures
        final(out)@ == old(out)@ + word(v),
{
    push_u64(
        out,
        match v {
            Some(x) => x,
            None => NONE,
        },
    );
}

fn push_words(out: &mut Vec<u8>, wm: &Watermarks)
    ensures
        final(out)@ == old(out)@ + words(*wm),
{
    push_word(out, wm.proposal_slot);
    push_word(out, wm.attestation_slot);
    push_word(out, wm.source_epoch);
    push_word(out, wm.target_epoch);
    proof {
        assert(final(out)@ =~= old(out)@ + words(*wm));
    }
}

/// Encode a V1 record (no binding) or a V2 record (bound).
pub fn encode(wm: &Watermarks, binding: Option<&Binding>) -> (r: Vec<u8>)
    ensures
        r@ == encode_spec(
            *wm,
            match binding {
                Some(b) => Some(*b),
                None => None,
            },
        ),
{
    let mut out: Vec<u8> = Vec::new();
    match binding {
        Some(b) => {
            push_magic(&mut out, 2);
            push_u32(&mut out, 2);
            push_words(&mut out, wm);
            push_all(&mut out, &b.validator_pubkey_sha3);
            push_all(&mut out, &b.genesis_digest);
        },
        None => {
            push_magic(&mut out, 1);
            push_u32(&mut out, 1);
            push_words(&mut out, wm);
        },
    }
    let d = shake256(out.as_slice());
    let ghost body = out@;
    push_all(&mut out, &d);
    proof {
        let bo = match binding {
            Some(b) => Some(*b),
            None => None,
        };
        assert(body =~= body_spec(*wm, bo));
    }
    out
}

/// Encode a V3 record: the V2 fields, then the recommit floor and intent.
pub fn encode_v3(wm: &Watermarks, binding: &Binding, protection: &RecommitProtection) -> (r: Vec<u8>)
    ensures
        r@ == encode_v3_spec(*wm, *binding, *protection),
{
    let mut out: Vec<u8> = Vec::new();
    push_magic(&mut out, 3);
    push_u32(&mut out, 3);
    push_words(&mut out, wm);
    push_all(&mut out, &binding.validator_pubkey_sha3);
    push_all(&mut out, &binding.genesis_digest);
    push_word(&mut out, protection.epoch_floor);
    match protection.intent {
        Some(i) => {
            push_u64(&mut out, i.epoch);
            push_u32(&mut out, i.generation);
            push_all(&mut out, &i.commitment);
            push_all(&mut out, &i.signing_root);
        },
        None => {
            push_u64(&mut out, NONE);
            push_u32(&mut out, 0);
            let z = [0u8; 32];
            push_all(&mut out, &z);
            push_all(&mut out, &z);
            proof {
                assert(z@ =~= Seq::new(32, |k: int| 0u8));
            }
        },
    }
    let ghost body = out@;
    proof {
        assert(body =~= body_v3_spec(*wm, *binding, *protection));
    }
    let d = shake256(out.as_slice());
    push_all(&mut out, &d);
    out
}


fn magic_matches(b: &[u8], version: u8) -> (r: bool)
    requires
        1 <= version <= 3,
        b@.len() >= 12,
    ensures
        r == (b@.subrange(0, 8) == magic(version) && b@.subrange(8, 12) == le32(version as u32)),
{
    let mut m: Vec<u8> = Vec::new();
    push_magic(&mut m, version);
    let same = range_eq(b, 0, m.as_slice(), 0, 8);
    proof {
        assert(m@.subrange(0, 8) =~= m@);
    }
    if !same {
        return false;
    }
    let v = read_u32(b, 8);
    proof {
        lemma_le32_roundtrip(v);
        lemma_le32_roundtrip(version as u32);
    }
    v == version as u32
}

fn word_at(b: &[u8], at: usize) -> (r: Option<u64>)
    requires
        at + 8 <= b@.len(),
    ensures
        r == read_word(u64_at(b@, at as int)),
{
    let v = read_u64(b, at);
    if v == NONE {
        None
    } else {
        Some(v)
    }
}

fn all_zero(b: &[u8; 32]) -> (r: bool)
    ensures
        r == zeros32(b@),
{
    let mut i: usize = 0;
    while i < 32
        invariant
            i <= 32,
            forall|k: int| 0 <= k < i ==> #[trigger] b@[k] == 0,
        decreases 32 - i,
    {
        if b[i] != 0 {
            return false;
        }
        i = i + 1;
    }
    true
}

/// Read a record of any version, or refuse it.
pub fn decode_record(bytes: &[u8]) -> (r: Option<(Watermarks, Option<Binding>, Option<RecommitProtection>)>)
    ensures
        match r {
            Some((wm, b, p)) => decode_record_spec(bytes@) == Some((wm, opt_binding_view(b), opt_recommit_view(p))),
            None => decode_record_spec(bytes@) is None,
        },
{
    let n = bytes.len();
    let body_len: usize;
    let bound: bool;
    if n == RECORD_LEN_V1 && magic_matches(bytes, 1) {
        body_len = 44;
        bound = false;
    } else if n == RECORD_LEN_V2 && magic_matches(bytes, 2) {
        body_len = 108;
        bound = true;
    } else if n == MAX_RECORD_LEN && magic_matches(bytes, 3) {
        body_len = 192;
        bound = true;
    } else {
        return None;
    }
    let body = copy_range(bytes, 0, body_len);
    let d = shake256(body.as_slice());
    let ok = range_eq(bytes, body_len, &d, 0, 32);
    proof {
        assert(bytes@.subrange(body_len as int, body_len + 32) =~= bytes@.subrange(body_len as int, n as int));
        assert(d@.subrange(0, 32) =~= d@);
    }
    if !ok {
        return None;
    }
    let wm = Watermarks {
        proposal_slot: word_at(bytes, 12),
        attestation_slot: word_at(bytes, 20),
        source_epoch: word_at(bytes, 28),
        target_epoch: word_at(bytes, 36),
    };
    let binding = if bound {
        Some(Binding { validator_pubkey_sha3: read_h32(bytes, 44), genesis_digest: read_h32(bytes, 76) })
    } else {
        None
    };
    if n == MAX_RECORD_LEN {
        let floor = word_at(bytes, 108);
        let epoch = read_u64(bytes, 116);
        let generation = read_u32(bytes, 124);
        let commitment = read_h32(bytes, 128);
        let signing_root = read_h32(bytes, 160);
        if epoch == NONE {
            if generation != 0 || !all_zero(&commitment) || !all_zero(&signing_root) {
                return None;
            }
            Some((wm, binding, Some(RecommitProtection { epoch_floor: floor, intent: None })))
        } else {
            if generation == 0 {
                return None;
            }
            Some(
                (
                    wm,
                    binding,
                    Some(
                        RecommitProtection {
                            epoch_floor: floor,
                            intent: Some(RecommitIntent { epoch, generation, commitment, signing_root }),
                        },
                    ),
                ),
            )
        }
    } else {
        Some((wm, binding, None))
    }
}

/// The V1/V2 reading of a record: its watermarks and binding.
pub fn decode(bytes: &[u8]) -> (r: Option<(Watermarks, Option<Binding>)>)
    ensures
        match r {
            Some((wm, b)) => decode_record_spec(bytes@) matches Some((w2, b2, _)) && w2 == wm && b2
                == opt_binding_view(b),
            None => decode_record_spec(bytes@) is None,
        },
{
    match decode_record(bytes) {
        Some((wm, b, _)) => Some((wm, b)),
        None => None,
    }
}


/// No watermark uses the on-disk "nothing" value as a real value.
pub open spec fn storable(wm: Watermarks) -> bool {
    wm.proposal_slot != Some(NONE) && wm.attestation_slot != Some(NONE) && wm.source_epoch != Some(NONE)
        && wm.target_epoch != Some(NONE)
}

proof fn lemma_word(v: Option<u64>)
    requires
        v != Some(NONE),
    ensures
        word(v).len() == 8,
        read_word(le_value_of_word(v)) == v,
{
    let x = match v {
        Some(x) => x,
        None => NONE,
    };
    lemma_le64_roundtrip(x);
}

spec fn le_value_of_word(v: Option<u64>) -> nat {
    crate::bytes::le_value(word(v))
}

proof fn lemma_words(wm: Watermarks, pre: Seq<u8>, rest: Seq<u8>)
    requires
        storable(wm),
        pre.len() == 12,
    ensures
        words(wm).len() == 32,
        ({
            let b = pre + words(wm) + rest;
            read_word(u64_at(b, 12)) == wm.proposal_slot && read_word(u64_at(b, 20)) == wm.attestation_slot
                && read_word(u64_at(b, 28)) == wm.source_epoch && read_word(u64_at(b, 36))
                == wm.target_epoch
        }),
{
    lemma_word(wm.proposal_slot);
    lemma_word(wm.attestation_slot);
    lemma_word(wm.source_epoch);
    lemma_word(wm.target_epoch);
    let b = pre + words(wm) + rest;
    assert(b.subrange(12, 20) =~= word(wm.proposal_slot));
    assert(b.subrange(20, 28) =~= word(wm.attestation_slot));
    assert(b.subrange(28, 36) =~= word(wm.source_epoch));
    assert(b.subrange(36, 44) =~= word(wm.target_epoch));
}

/// A V1 or V2 record reads back as the watermarks and binding written.
pub proof fn lemma_record_round_trip(wm: Watermarks, binding: Option<Binding>)
    requires
        storable(wm),
    ensures
        decode_record_spec(encode_spec(wm, binding)) == Some((wm, opt_binding_view(binding), None::<RecommitV>)),
{
    let body = body_spec(wm, binding);
    let b = encode_spec(wm, binding);
    let d = shake256_32(body)@;
    assert(d.len() == 32);
    match binding {
        Some(bd) => {
            lemma_le32_roundtrip(2);
            let pre = magic(2) + le32(2);
            let rest = bd.validator_pubkey_sha3@ + bd.genesis_digest@ + d;
            assert(b =~= pre + words(wm) + rest);
            lemma_words(wm, pre, rest);
            assert(b.subrange(0, 8) =~= magic(2));
            assert(b.subrange(8, 12) =~= le32(2));
            assert(b.subrange(0, 108) =~= body);
            assert(b.subrange(108, b.len() as int) =~= d);
            assert(b.subrange(44, 76) =~= bd.validator_pubkey_sha3@);
            assert(b.subrange(76, 108) =~= bd.genesis_digest@);
            assert(magic(2) != magic(1)) by {
                assert(magic(2)[7] != magic(1)[7]);
            }
        },
        None => {
            lemma_le32_roundtrip(1);
            let pre = magic(1) + le32(1);
            assert(b =~= pre + words(wm) + d);
            lemma_words(wm, pre, d);
            assert(b.subrange(0, 8) =~= magic(1));
            assert(b.subrange(8, 12) =~= le32(1));
            assert(b.subrange(0, 44) =~= body);
            assert(b.subrange(44, b.len() as int) =~= d);
        },
    }
}

// ── Refusals ────────────────────────────────────────────────────────────────

/// Why a signature was refused. Every variant names the offence it
/// prevented.
#[derive(Debug)]
pub enum Refusal {
    /// Would have been a second block for a slot at or below the watermark.
    Proposal { slot: u64, watermark: u64 },
    /// Would have been a second attestation for a slot at or below the watermark.
    AttestationSlot { slot: u64, watermark: u64 },
    /// Would have shared a target epoch with an attestation already signed.
    DoubleVote { target_epoch: u64, watermark: u64 },
    /// Source epoch going backwards: the surrounding half of a surround vote.
    SurroundVote { source_epoch: u64, watermark: u64 },
    Recommit { epoch: u64, generation: u32, reason: &'static str },
    /// The watermark could not be made durable. The signature was not made.
    Io(String),
}

/// What a refusal tells the operator.
pub open spec fn refusal_text(r: Refusal) -> Seq<char> {
    match r {
        Refusal::Proposal { slot, watermark } => "slashing protection: refusing to propose for slot "@ + decimal(
            slot as nat,
        ) + "; slot "@ + decimal(watermark as nat) + " is already signed (a second block here is a proposer offence)"@,
        Refusal::AttestationSlot { slot, watermark } => "slashing protection: refusing to attest at slot "@
            + decimal(slot as nat) + "; slot "@ + decimal(watermark as nat) + " is already signed"@,
        Refusal::DoubleVote { target_epoch, watermark } => "slashing protection: refusing to attest to target epoch "@
            + decimal(target_epoch as nat) + "; target epoch "@ + decimal(watermark as nat)
            + " is already signed (double vote)"@,
        Refusal::SurroundVote { source_epoch, watermark } =>
            "slashing protection: refusing to attest from source epoch "@ + decimal(source_epoch as nat)
            + "; source epoch "@ + decimal(watermark as nat) + " is already signed (surround vote)"@,
        Refusal::Recommit { epoch, generation, reason } => "slashing protection: refusing RANDAO recommit at epoch "@
            + decimal(epoch as nat) + ", generation "@ + decimal(generation as nat) + ": "@ + reason@,
        Refusal::Io(e) => "slashing protection: refusing to sign because the watermark could not be made durable: "@
            + e@,
    }
}

impl Refusal {
    /// The refusal in words, naming the offence it prevented.
    pub fn message(&self) -> (r: String)
        ensures
            r@ == refusal_text(*self),
    {
        let mut out = String::new();
        match self {
            Refusal::Proposal { slot, watermark } => {
                push_str(&mut out, "slashing protection: refusing to propose for slot ");
                push_decimal_u64(&mut out, *slot);
                push_str(&mut out, "; slot ");
                push_decimal_u64(&mut out, *watermark);
                push_str(&mut out, " is already signed (a second block here is a proposer offence)");
            },
            Refusal::AttestationSlot { slot, watermark } => {
                push_str(&mut out, "slashing protection: refusing to attest at slot ");
                push_decimal_u64(&mut out, *slot);
                push_str(&mut out, "; slot ");
                push_decimal_u64(&mut out, *watermark);
                push_str(&mut out, " is already signed");
            },
            Refusal::DoubleVote { target_epoch, watermark } => {
                push_str(&mut out, "slashing protection: refusing to attest to target epoch ");
                push_decimal_u64(&mut out, *target_epoch);
                push_str(&mut out, "; target epoch ");
                push_decimal_u64(&mut out, *watermark);
                push_str(&mut out, " is already signed (double vote)");
            },
            Refusal::SurroundVote { source_epoch, watermark } => {
                push_str(&mut out, "slashing protection: refusing to attest from source epoch ");
                push_decimal_u64(&mut out, *source_epoch);
                push_str(&mut out, "; source epoch ");
                push_decimal_u64(&mut out, *watermark);
                push_str(&mut out, " is already signed (surround vote)");
            },
            Refusal::Recommit { epoch, generation, reason } => {
                push_str(&mut out, "slashing protection: refusing RANDAO recommit at epoch ");
                push_decimal_u64(&mut out, *epoch);
                push_str(&mut out, ", generation ");
                push_decimal_u64(&mut out, *generation as u64);
                push_str(&mut out, ": ");
                push_str(&mut out, *reason);
            },
            Refusal::Io(e) => {
                push_str(&mut out, "slashing protection: refusing to sign because the watermark could not be made durable: ");
                push_str(&mut out, e.as_str());
            },
        }
        out
    }
}

pub open spec fn guard_proposal_spec(wm: Watermarks, slot: u64) -> Result<Watermarks, Refusal> {
    match wm.proposal_slot {
        Some(w) if slot <= w => Err(Refusal::Proposal { slot, watermark: w }),
        _ => Ok(Watermarks { proposal_slot: Some(slot), ..wm }),
    }
}

pub open spec fn guard_attestation_spec(wm: Watermarks, slot: u64, source: u64, target: u64) -> Result<Watermarks, Refusal> {
    if wm.attestation_slot matches Some(w) && slot <= w {
        Err(Refusal::AttestationSlot { slot, watermark: wm.attestation_slot->0 })
    } else if wm.target_epoch matches Some(w) && target <= w {
        Err(Refusal::DoubleVote { target_epoch: target, watermark: wm.target_epoch->0 })
    } else if wm.source_epoch matches Some(w) && source < w {
        Err(Refusal::SurroundVote { source_epoch: source, watermark: wm.source_epoch->0 })
    } else {
        Ok(
            Watermarks {
                attestation_slot: Some(slot),
                source_epoch: Some(source),
                target_epoch: Some(target),
                ..wm
            },
        )
    }
}

/// `a` is at or above `b`: `None` is below every value.
pub open spec fn opt_ge(a: Option<u64>, b: Option<u64>) -> bool {
    match (a, b) {
        (_, None) => true,
        (None, Some(_)) => false,
        (Some(x), Some(y)) => x >= y,
    }
}

pub open spec fn marks_ge(a: Watermarks, b: Watermarks) -> bool {
    opt_ge(a.proposal_slot, b.proposal_slot) && opt_ge(a.attestation_slot, b.attestation_slot)
        && opt_ge(a.source_epoch, b.source_epoch) && opt_ge(a.target_epoch, b.target_epoch)
}

/// Signing only ever moves the watermarks up, and the duty just signed is
/// refused from then on: a proposal for the same slot, an attestation for
/// the same slot or the same target epoch.
pub proof fn lemma_signed_duty_is_refused_after(wm: Watermarks, slot: u64, source: u64, target: u64)
    ensures
        guard_proposal_spec(wm, slot) matches Ok(next) ==> marks_ge(next, wm) && guard_proposal_spec(next, slot) is Err,
        guard_attestation_spec(wm, slot, source, target) matches Ok(next) ==> marks_ge(next, wm)
            && guard_attestation_spec(next, slot, source, target) is Err
            && forall|s2: u64, src2: u64| guard_attestation_spec(next, s2, src2, target) is Err,
{
}

pub open spec fn opt_max(a: Option<u64>, b: Option<u64>) -> Option<u64> {
    match (a, b) {
        (None, y) => y,
        (x, None) => x,
        (Some(x), Some(y)) => Some(if x >= y { x } else { y }),
    }
}

pub open spec fn marks_max(a: Watermarks, b: Watermarks) -> Watermarks {
    Watermarks {
        proposal_slot: opt_max(a.proposal_slot, b.proposal_slot),
        attestation_slot: opt_max(a.attestation_slot, b.attestation_slot),
        source_epoch: opt_max(a.source_epoch, b.source_epoch),
        target_epoch: opt_max(a.target_epoch, b.target_epoch),
    }
}

fn max_opt(a: Option<u64>, b: Option<u64>) -> (r: Option<u64>)
    ensures
        r == opt_max(a, b),
{
    match (a, b) {
        (None, y) => y,
        (x, None) => x,
        (Some(x), Some(y)) => Some(if x >= y { x } else { y }),
    }
}

/// Merging never lowers a watermark on either side.
pub proof fn lemma_merge_only_raises(a: Watermarks, b: Watermarks)
    ensures
        marks_ge(marks_max(a, b), a),
        marks_ge(marks_max(a, b), b),
        marks_max(a, b) == marks_max(b, a),
{
}


// ── Recommit protection ─────────────────────────────────────────────────────

pub open spec fn intents_conflict(a: RecommitIntent, b: RecommitIntent) -> bool {
    (a.epoch == b.epoch && intent_view(a) != intent_view(b)) || (a.generation == b.generation
        && a.commitment@ != b.commitment@) || (a.epoch < b.epoch && a.generation > b.generation) || (
    b.epoch < a.epoch && b.generation > a.generation)
}

/// Merge two recommit histories; conflicting intents refuse the merge.
pub open spec fn merge_recommit_spec(left: Option<RecommitProtection>, right: Option<RecommitProtection>) -> Option<Option<RecommitV>> {
    match (left, right) {
        (Some(l), Some(r)) => {
            let intent = match (l.intent, r.intent) {
                (Some(a), Some(b)) => if intents_conflict(a, b) {
                    None
                } else {
                    Some(Some(intent_view(if a.epoch >= b.epoch { a } else { b })))
                },
                (Some(a), None) => Some(Some(intent_view(a))),
                (None, Some(b)) => Some(Some(intent_view(b))),
                (None, None) => Some(None),
            };
            match intent {
                None => None,
                Some(i) => Some(Some((opt_max(l.epoch_floor, r.epoch_floor), i))),
            }
        },
        (Some(l), None) => Some(Some(recommit_view(l))),
        (None, Some(r)) => Some(Some(recommit_view(r))),
        (None, None) => Some(None),
    }
}

/// Merging never lowers the recommit protection: every RANDAO recommit
/// that either history refuses, the merged history refuses too. So a backup
/// imported into the store can only make the node refuse more.
pub proof fn lemma_merge_recommit_keeps_every_refusal(
    left: Option<RecommitProtection>,
    right: Option<RecommitProtection>,
    epoch: u64,
    generation: u32,
    commitment: Seq<u8>,
    root: Seq<u8>,
)
    ensures
        merge_recommit_spec(left, right) matches Some(merged) ==> {
            &&& recommit_refusal(true, opt_recommit_view(left), epoch, generation, commitment, root) is Some
                ==> recommit_refusal(true, merged, epoch, generation, commitment, root) is Some
            &&& recommit_refusal(true, opt_recommit_view(right), epoch, generation, commitment, root) is Some
                ==> recommit_refusal(true, merged, epoch, generation, commitment, root) is Some
        },
{
}

/// Of two intents that do not conflict, the merge keeps the later one: its
/// epoch and its generation are the larger of the two.
pub proof fn lemma_merge_recommit_keeps_the_later_intent(l: RecommitProtection, r: RecommitProtection)
    requires
        l.intent is Some,
        r.intent is Some,
    ensures
        merge_recommit_spec(Some(l), Some(r)) matches Some(Some((floor, Some(i)))) ==> {
            let a = l.intent->Some_0;
            let b = r.intent->Some_0;
            &&& i.0 >= a.epoch && i.0 >= b.epoch && (i.0 == a.epoch || i.0 == b.epoch)
            &&& i.1 >= a.generation && i.1 >= b.generation
            &&& (i == intent_view(a) || i == intent_view(b))
            &&& floor == opt_max(l.epoch_floor, r.epoch_floor)
        },
        merge_recommit_spec(Some(l), Some(r)) is Some ==> merge_recommit_spec(Some(l), Some(r)) matches Some(
            Some((_, Some(_))),
        ),
{
}

fn same32(a: &[u8; 32], b: &[u8; 32]) -> (r: bool)
    ensures
        r == (a@ == b@),
{
    let same = range_eq(a, 0, b, 0, 32);
    proof {
        assert(a@.subrange(0, 32) =~= a@);
        assert(b@.subrange(0, 32) =~= b@);
    }
    same
}

fn same_intent(a: &RecommitIntent, b: &RecommitIntent) -> (r: bool)
    ensures
        r == (intent_view(*a) == intent_view(*b)),
{
    a.epoch == b.epoch && a.generation == b.generation && same32(&a.commitment, &b.commitment) && same32(
        &a.signing_root,
        &b.signing_root,
    )
}

pub const CONFLICTING_INTENTS: &'static str = "conflicting RANDAO intent history; refusing to merge";
pub const V3_NEEDS_BINDING: &'static str = "V3 recommit protection requires identity binding";
pub const INVALID_BACKUP: &'static str = "invalid slashing protection backup";
pub const BACKUP_MISMATCH: &'static str = "backup validator/network binding mismatch or absent";
pub const FLOOR_OUT_OF_RANGE: &'static str = "minimum slot must be between 1 and u64::MAX - 1";

/// Merge two recommit histories, refusing a conflicting pair of intents.
pub fn merge_recommit(left: Option<RecommitProtection>, right: Option<RecommitProtection>) -> (r: Result<
    Option<RecommitProtection>,
    &'static str,
>)
    ensures
        match r {
            Ok(p) => merge_recommit_spec(left, right) == Some(opt_recommit_view(p)),
            Err(e) => e == CONFLICTING_INTENTS && merge_recommit_spec(left, right) is None,
        },
{
    match (left, right) {
        (Some(l), Some(rt)) => {
            let intent = match (l.intent, rt.intent) {
                (Some(a), Some(b)) => {
                    if (a.epoch == b.epoch && !same_intent(&a, &b)) || (a.generation == b.generation
                        && !same32(&a.commitment, &b.commitment)) || (a.epoch < b.epoch && a.generation
                        > b.generation) || (b.epoch < a.epoch && b.generation > a.generation) {
                        return Err(CONFLICTING_INTENTS);
                    }
                    Some(
                        if a.epoch >= b.epoch {
                            a
                        } else {
                            b
                        },
                    )
                },
                (Some(a), None) => Some(a),
                (None, b) => b,
            };
            Ok(Some(RecommitProtection { epoch_floor: max_opt(l.epoch_floor, rt.epoch_floor), intent }))
        },
        (Some(l), None) => Ok(Some(l)),
        (None, rt) => Ok(rt),
    }
}

// ── The protection state ────────────────────────────────────────────────────

/// Why a record could not be adopted.
#[derive(Clone, Copy, Debug, PartialEq, Eq)]
pub enum OpenError {
    /// The record does not decode: this node cannot prove what it signed.
    Corrupt,
    /// The record was written for another validator key or network.
    Mismatch { file: Binding, mine: Binding },
}

/// Which half of a binding differs, in the words a refusal uses.
pub fn mismatch_what(file: &Binding, mine: &Binding) -> (r: &'static str)
    ensures
        r == (if file.validator_pubkey_sha3@ != mine.validator_pubkey_sha3@ && file.genesis_digest@
            == mine.genesis_digest@ {
            "a DIFFERENT VALIDATOR KEY"
        } else if file.validator_pubkey_sha3@ == mine.validator_pubkey_sha3@ && file.genesis_digest@
            != mine.genesis_digest@ {
            "a DIFFERENT NETWORK"
        } else {
            "a different validator key AND a different network"
        }),
{
    let k = same32(&file.validator_pubkey_sha3, &mine.validator_pubkey_sha3);
    let g = same32(&file.genesis_digest, &mine.genesis_digest);
    if !k && g {
        "a DIFFERENT VALIDATOR KEY"
    } else if k && !g {
        "a DIFFERENT NETWORK"
    } else {
        "a different validator key AND a different network"
    }
}

/// The watermarks loaded, the identity they are bound to, and the recommit
/// protection that must be kept once present.
pub struct SlashingProtection {
    wm: Watermarks,
    binding: Option<Binding>,
    recommit: Option<RecommitProtection>,
}

/// Why a RANDAO recommit is refused, checked in this order, or `None`
/// when it may be signed: a binding is required, the epoch and generation
/// must be real, the epoch must be above the recovery floor, and against the
/// durable intent neither may go backwards, an already signed epoch keeps
/// its signing root and generation, and a used generation keeps its
/// commitment.
pub open spec fn recommit_refusal(
    bound: bool,
    rec: Option<(Option<u64>, Option<(u64, u32, Seq<u8>, Seq<u8>)>)>,
    epoch: u64,
    generation: u32,
    commitment: Seq<u8>,
    root: Seq<u8>,
) -> Option<Seq<char>> {
    if !bound {
        Some("an explicit validator/network binding is required"@)
    } else if epoch == NONE || generation == 0 {
        Some("invalid epoch or generation"@)
    } else if rec matches Some((Some(floor), _)) && epoch <= floor {
        Some("at or below the recovery epoch floor"@)
    } else {
        match rec {
            Some((_, Some(prev))) => if epoch < prev.0 {
                Some("epoch is below the durable intent"@)
            } else if generation < prev.1 {
                Some("generation is below the durable intent"@)
            } else if epoch == prev.0 && root != prev.3 {
                Some("different signing root in an already signed epoch"@)
            } else if generation == prev.1 && commitment != prev.2 {
                Some("different commitment for an already used generation"@)
            } else if epoch == prev.0 && generation != prev.1 {
                Some("different generation in an already signed epoch"@)
            } else {
                None
            },
            _ => None,
        }
    }
}

impl SlashingProtection {
    pub closed spec fn marks(&self) -> Watermarks {
        self.wm
    }

    pub closed spec fn bound(&self) -> Option<(Seq<u8>, Seq<u8>)> {
        opt_binding_view(self.binding)
    }

    pub closed spec fn recommit_view(&self) -> Option<RecommitV> {
        opt_recommit_view(self.recommit)
    }

    pub closed spec fn stored_binding(&self) -> Option<Binding> {
        self.binding
    }

    pub closed spec fn stored_recommit(&self) -> Option<RecommitProtection> {
        self.recommit
    }

    /// Adopt the record read from disk (`None` when there is no file) for
    /// the identity `want`, if one is known. A record that does not decode
    /// is refused, never reset; a record bound to another identity is
    /// refused; an unbound record is bound to `want` on its next write.
    pub fn open_with(record: Option<&[u8]>, want: Option<Binding>) -> (r: Result<SlashingProtection, OpenError>)
        ensures
            match record {
                None => r matches Ok(sp) && sp.marks() == Watermarks::default_spec() && sp.bound()
                    == opt_binding_view(want) && sp.recommit_view() is None,
                Some(bytes) => match decode_record_spec(bytes@) {
                    None => r == Err::<SlashingProtection, OpenError>(OpenError::Corrupt),
                    Some((wm, file, rec)) => match (file, want) {
                        (Some(f), Some(m)) => if f != binding_view(m) {
                            r matches Err(OpenError::Mismatch { file: fb, mine }) && binding_view(fb) == f
                                && mine == m
                        } else {
                            r matches Ok(sp) && sp.marks() == wm && sp.bound() == Some(f) && sp.recommit_view()
                                == rec
                        },
                        (Some(f), None) => r matches Ok(sp) && sp.marks() == wm && sp.bound() == Some(f)
                            && sp.recommit_view() == rec,
                        (None, _) => r matches Ok(sp) && sp.marks() == wm && sp.bound() == opt_binding_view(
                            want,
                        ) && sp.recommit_view() == rec,
                    },
                },
            },
    {
        let (wm, on_disk, recommit) = match record {
            None => (Watermarks::default(), None, None),
            Some(bytes) => match decode_record(bytes) {
                Some(x) => x,
                None => {
                    return Err(OpenError::Corrupt);
                },
            },
        };
        let binding = match (on_disk, want) {
            (Some(file), Some(mine)) => {
                if !same32(&file.validator_pubkey_sha3, &mine.validator_pubkey_sha3) || !same32(
                    &file.genesis_digest,
                    &mine.genesis_digest,
                ) {
                    return Err(OpenError::Mismatch { file, mine });
                }
                Some(file)
            },
            (Some(file), None) => Some(file),
            (None, Some(mine)) => Some(mine),
            (None, None) => None,
        };
        Ok(SlashingProtection { wm, binding, recommit })
    }

    /// The identity the record is (or will be, on its next write) bound to.
    pub fn binding(&self) -> (r: Option<Binding>)
        ensures
            opt_binding_view(r) == self.bound(),
    {
        self.binding
    }

    /// The loaded watermarks.
    pub fn watermarks(&self) -> (r: Watermarks)
        ensures
            r == self.marks(),
    {
        self.wm
    }

    /// May a block proposal for `slot` be signed? On `Ok`, the watermarks to
    /// make durable before signing.
    pub fn guard_proposal(&self, slot: u64) -> (r: Result<Watermarks, Refusal>)
        ensures
            r == guard_proposal_spec(self.marks(), slot),
    {
        match self.wm.proposal_slot {
            Some(w) => {
                if slot <= w {
                    return Err(Refusal::Proposal { slot, watermark: w });
                }
            },
            None => {},
        }
        Ok(Watermarks { proposal_slot: Some(slot), ..self.wm })
    }

    /// May an attestation at `slot` linking `source_epoch` to `target_epoch`
    /// be signed? On `Ok`, the watermarks to make durable before signing.
    pub fn guard_attestation(&self, slot: u64, source_epoch: u64, target_epoch: u64) -> (r: Result<
        Watermarks,
        Refusal,
    >)
        ensures
            r == guard_attestation_spec(self.marks(), slot, source_epoch, target_epoch),
    {
        match self.wm.attestation_slot {
            Some(w) => {
                if slot <= w {
                    return Err(Refusal::AttestationSlot { slot, watermark: w });
                }
            },
            None => {},
        }
        match self.wm.target_epoch {
            Some(w) => {
                if target_epoch <= w {
                    return Err(Refusal::DoubleVote { target_epoch, watermark: w });
                }
            },
            None => {},
        }
        match self.wm.source_epoch {
            Some(w) => {
                if source_epoch < w {
                    return Err(Refusal::SurroundVote { source_epoch, watermark: w });
                }
            },
            None => {},
        }
        Ok(
            Watermarks {
                attestation_slot: Some(slot),
                source_epoch: Some(source_epoch),
                target_epoch: Some(target_epoch),
                ..self.wm
            },
        )
    }

    /// May a RANDAO recommit be signed? Repeating the exact intent is safe;
    /// changing its root within an epoch, changing a generation's
    /// commitment, or moving epoch or generation backwards is not. On `Ok`,
    /// the protection to make durable before signing.
    pub fn guard_recommit(
        &self,
        epoch: u64,
        generation: u32,
        commitment: [u8; 32],
        signing_root: [u8; 32],
    ) -> (r: Result<RecommitProtection, Refusal>)
        ensures
            match recommit_refusal(
                self.bound() is Some,
                self.recommit_view(),
                epoch,
                generation,
                commitment@,
                signing_root@,
            ) {
                None => r matches Ok(next) && recommit_view(next) == (
                    match self.recommit_view() {
                        Some((floor, _)) => floor,
                        None => None,
                    },
                    Some((epoch, generation, commitment@, signing_root@)),
                ),
                Some(why) => r matches Err(Refusal::Recommit { epoch: e, generation: g, reason }) && e == epoch && g
                    == generation && reason@ == why,
            },
    {
        if self.binding.is_none() {
            return Err(
                Refusal::Recommit { epoch, generation, reason: "an explicit validator/network binding is required" },
            );
        }
        if epoch == NONE || generation == 0 {
            return Err(Refusal::Recommit { epoch, generation, reason: "invalid epoch or generation" });
        }
        let current = match self.recommit {
            Some(p) => p,
            None => RecommitProtection { epoch_floor: None, intent: None },
        };
        match current.epoch_floor {
            Some(floor) => {
                if epoch <= floor {
                    return Err(
                        Refusal::Recommit { epoch, generation, reason: "at or below the recovery epoch floor" },
                    );
                }
            },
            None => {},
        }
        match current.intent {
            Some(previous) => {
                if epoch < previous.epoch {
                    return Err(
                        Refusal::Recommit { epoch, generation, reason: "epoch is below the durable intent" },
                    );
                }
                if generation < previous.generation {
                    return Err(
                        Refusal::Recommit { epoch, generation, reason: "generation is below the durable intent" },
                    );
                }
                if epoch == previous.epoch && !same32(&signing_root, &previous.signing_root) {
                    return Err(
                        Refusal::Recommit {
                            epoch,
                            generation,
                            reason: "different signing root in an already signed epoch",
                        },
                    );
                }
                if generation == previous.generation && !same32(&commitment, &previous.commitment) {
                    return Err(
                        Refusal::Recommit {
                            epoch,
                            generation,
                            reason: "different commitment for an already used generation",
                        },
                    );
                }
                if epoch == previous.epoch && generation != previous.generation {
                    return Err(
                        Refusal::Recommit {
                            epoch,
                            generation,
                            reason: "different generation in an already signed epoch",
                        },
                    );
                }
            },
            None => {},
        }
        Ok(
            RecommitProtection {
                epoch_floor: current.epoch_floor,
                intent: Some(RecommitIntent { epoch, generation, commitment, signing_root }),
            },
        )
    }

    /// Adopt watermarks once their record is durable.
    pub fn commit(&mut self, next: Watermarks)
        ensures
            final(self).marks() == next,
            final(self).bound() == old(self).bound(),
            final(self).recommit_view() == old(self).recommit_view(),
    {
        self.wm = next;
    }

    /// Adopt recommit protection once its record is durable.
    pub fn commit_recommit(&mut self, next: RecommitProtection)
        ensures
            final(self).marks() == old(self).marks(),
            final(self).bound() == old(self).bound(),
            final(self).recommit_view() == Some(recommit_view(next)),
    {
        self.recommit = Some(next);
    }

    /// The record to write for `next` watermarks, keeping this store's
    /// binding and recommit protection.
    pub fn record_for(&self, next: &Watermarks) -> (r: Result<Vec<u8>, &'static str>)
        ensures
            match r {
                Ok(bytes) => match self.stored_recommit() {
                    Some(p) => self.stored_binding() matches Some(b) && bytes@ == encode_v3_spec(*next, b, p),
                    None => bytes@ == encode_spec(*next, self.stored_binding()),
                },
                Err(e) => e == V3_NEEDS_BINDING && self.stored_recommit() is Some && self.stored_binding() is None,
            },
    {
        record_bytes(next, self.binding, self.recommit)
    }

    /// The record to write for new recommit protection, keeping this
    /// store's watermarks.
    pub fn record_for_recommit(&self, next: &RecommitProtection) -> (r: Result<Vec<u8>, &'static str>)
        ensures
            match r {
                Ok(bytes) => self.stored_binding() matches Some(b) && bytes@ == encode_v3_spec(self.marks(), b, *next),
                Err(e) => e == V3_NEEDS_BINDING && self.stored_binding() is None,
            },
    {
        record_bytes(&self.wm, self.binding, Some(*next))
    }
}

/// The record for watermarks, a binding and recommit protection: V3 when
/// recommit protection is present (which needs a binding), else V2 or V1.
pub fn record_bytes(next: &Watermarks, binding: Option<Binding>, recommit: Option<RecommitProtection>) -> (r: Result<
    Vec<u8>,
    &'static str,
>)
    ensures
        match r {
            Ok(bytes) => match recommit {
                Some(p) => binding matches Some(b) && bytes@ == encode_v3_spec(*next, b, p),
                None => bytes@ == encode_spec(*next, binding),
            },
            Err(e) => e == V3_NEEDS_BINDING && recommit is Some && binding is None,
        },
{
    match recommit {
        Some(p) => match binding {
            Some(b) => Ok(encode_v3(next, &b, &p)),
            None => Err(V3_NEEDS_BINDING),
        },
        None => match binding {
            Some(b) => Ok(encode(next, Some(&b))),
            None => Ok(encode(next, None)),
        },
    }
}

impl Watermarks {
    pub open spec fn default_spec() -> Watermarks {
        Watermarks { proposal_slot: None, attestation_slot: None, source_epoch: None, target_epoch: None }
    }
}

/// Merge incoming watermarks and recommit protection into `current`
/// without lowering anything. Answers what to write.
pub fn merge_bound(
    current: &SlashingProtection,
    incoming: &Watermarks,
    incoming_recommit: Option<RecommitProtection>,
) -> (r: Result<(Watermarks, Option<RecommitProtection>), &'static str>)
    ensures
        match r {
            Ok((merged, rec)) => merged == marks_max(current.marks(), *incoming) && merge_recommit_spec(
                current.stored_recommit(),
                incoming_recommit,
            ) == Some(opt_recommit_view(rec)),
            Err(e) => e == CONFLICTING_INTENTS && merge_recommit_spec(current.stored_recommit(), incoming_recommit)
                is None,
        },
{
    let old = current.wm;
    let merged = Watermarks {
        proposal_slot: max_opt(old.proposal_slot, incoming.proposal_slot),
        attestation_slot: max_opt(old.attestation_slot, incoming.attestation_slot),
        source_epoch: max_opt(old.source_epoch, incoming.source_epoch),
        target_epoch: max_opt(old.target_epoch, incoming.target_epoch),
    };
    match merge_recommit(current.recommit, incoming_recommit) {
        Ok(rec) => Ok((merged, rec)),
        Err(e) => Err(e),
    }
}

/// Read a backup made for `binding`: it must decode and be bound to the
/// same identity. Checked before any store is opened or created.
pub fn backup_for(binding: Binding, bytes: &[u8]) -> (r: Result<
    (Watermarks, Option<RecommitProtection>),
    &'static str,
>)
    ensures
        match decode_record_spec(bytes@) {
            None => r == Err::<(Watermarks, Option<RecommitProtection>), &'static str>(INVALID_BACKUP),
            Some((wm, b, rec)) => if b != Some(binding_view(binding)) {
                r == Err::<(Watermarks, Option<RecommitProtection>), &'static str>(BACKUP_MISMATCH)
            } else {
                r matches Ok((w, inc)) && w == wm && opt_recommit_view(inc) == rec
            },
        },
{
    let (incoming, actual, recommit) = match decode_record(bytes) {
        Some(x) => x,
        None => {
            return Err(INVALID_BACKUP);
        },
    };
    let matches = match actual {
        Some(a) => same32(&a.validator_pubkey_sha3, &binding.validator_pubkey_sha3) && same32(
            &a.genesis_digest,
            &binding.genesis_digest,
        ),
        None => false,
    };
    if !matches {
        return Err(BACKUP_MISMATCH);
    }
    Ok((incoming, recommit))
}

/// Merge a bound backup into `current`, the store opened for `binding`. The
/// backup must decode and be bound to the same identity.
pub fn import_bound(current: &SlashingProtection, binding: Binding, bytes: &[u8]) -> (r: Result<
    (Watermarks, Option<RecommitProtection>),
    &'static str,
>)
    ensures
        match decode_record_spec(bytes@) {
            None => r == Err::<(Watermarks, Option<RecommitProtection>), &'static str>(INVALID_BACKUP),
            Some((wm, b, rec)) => if b != Some(binding_view(binding)) {
                r == Err::<(Watermarks, Option<RecommitProtection>), &'static str>(BACKUP_MISMATCH)
            } else {
                match r {
                    Ok((merged, out)) => merged == marks_max(current.marks(), wm) && exists|inc: Option<RecommitProtection>|
                        opt_recommit_view(inc) == rec && merge_recommit_spec(current.stored_recommit(), inc) == Some(
                            opt_recommit_view(out),
                        ),
                    Err(e) => e == CONFLICTING_INTENTS && exists|inc: Option<RecommitProtection>|
                        opt_recommit_view(inc) == rec && merge_recommit_spec(current.stored_recommit(), inc) is None,
                }
            },
        },
{
    match backup_for(binding, bytes) {
        Ok((incoming, recommit)) => merge_bound(current, &incoming, recommit),
        Err(e) => Err(e),
    }
}

/// Refuse proposal and attestation slots below `min_slot` after recovery;
/// epoch protection conservatively skips the rest of the preceding epoch.
pub fn initialize_floor(current: &SlashingProtection, min_slot: u64) -> (r: Result<
    (Watermarks, Option<RecommitProtection>),
    &'static str,
>)
    ensures
        (min_slot == 0 || min_slot == NONE) ==> r == Err::<(Watermarks, Option<RecommitProtection>), &'static str>(
            FLOOR_OUT_OF_RANGE,
        ),
        !(min_slot == 0 || min_slot == NONE) ==> ({
            let slot = (min_slot - 1) as u64;
            let epoch = (slot / 32) as u64;
            let incoming = Watermarks {
                proposal_slot: Some(slot),
                attestation_slot: Some(slot),
                source_epoch: Some(epoch),
                target_epoch: Some(epoch),
            };
            let rec = Some(RecommitProtection { epoch_floor: Some(epoch), intent: None });
            match r {
                Ok((merged, out)) => merged == marks_max(current.marks(), incoming) && merge_recommit_spec(
                    current.stored_recommit(),
                    rec,
                ) == Some(opt_recommit_view(out)),
                Err(e) => e == CONFLICTING_INTENTS && merge_recommit_spec(current.stored_recommit(), rec) is None,
            }
        }),
{
    if min_slot == 0 || min_slot == NONE {
        return Err(FLOOR_OUT_OF_RANGE);
    }
    let slot = min_slot - 1;
    let epoch = slot / 32;
    let incoming = Watermarks {
        proposal_slot: Some(slot),
        attestation_slot: Some(slot),
        source_epoch: Some(epoch),
        target_epoch: Some(epoch),
    };
    merge_bound(current, &incoming, Some(RecommitProtection { epoch_floor: Some(epoch), intent: None }))
}

/// The bytes of a backup of `record`, the store's record, for `binding`: it
/// must decode and be bound to that same identity.
pub fn export_bound(record: &[u8], binding: &Binding) -> (r: Result<Vec<u8>, &'static str>)
    ensures
        match decode_record_spec(record@) {
            None => r == Err::<Vec<u8>, &'static str>("invalid slashing protection record"),
            Some((_, b, _)) => if b == Some(binding_view(*binding)) {
                r matches Ok(v) && v@ == record@
            } else {
                r == Err::<Vec<u8>, &'static str>(
                    "export requires a bound record matching the validator and network",
                )
            },
        },
{
    let actual = match decode_record(record) {
        Some((_, actual, _)) => actual,
        None => {
            return Err("invalid slashing protection record");
        },
    };
    let same = match actual {
        Some(a) => same32(&a.validator_pubkey_sha3, &binding.validator_pubkey_sha3) && same32(
            &a.genesis_digest,
            &binding.genesis_digest,
        ),
        None => false,
    };
    if !same {
        return Err("export requires a bound record matching the validator and network");
    }
    let mut out: Vec<u8> = Vec::new();
    push_all(&mut out, record);
    Ok(out)
}

} // verus!
