//! Node-local signing history: what this validator key has already signed,
//! consulted before every signature, and its interchange text form.
//!
//! Per key the history holds three numbers: the highest slot a proposal was
//! signed for, and the highest source and target epochs an attestation was
//! signed for. Signing is permitted only strictly above them, which refuses
//! a second proposal for a slot, a double vote and a surround vote in either
//! direction. The record changes in memory here; the caller makes it durable
//! before a signature exists and restores the previous value if it cannot.
use vstd::prelude::*;
use crate::bytes::{
    copy_range, le64, lemma_le32_roundtrip, lemma_le64_roundtrip, push_all, push_u64, range_eq,
    read_h32, read_u32, read_u64,
};
use crate::codec::{framed, put_bytes, u32_at, u64_at, MAX_FIELD_LEN};
use crate::text::{
    chars_of, decimal, hex_chars, hex_string, parse_u64_chars, parse_u64_spec, push_hex, push_str,
    string_of, trim_bounds, trimmed, u64_to_decimal, unhex_from, unhex_pairs, is_space, trim_start,
    trim_end, is_digit, is_lower_hex, lemma_decimal_parses, lemma_hex_round_trip,
};

verus! {

broadcast use vstd::std_specs::vec::group_vec_axioms;

/// File name inside the data directory, next to the validator key.
pub const HISTORY_FILE: &'static str = "signing_history.bin";

/// First line of the interchange text format.
pub const INTERCHANGE_HEADER: &'static str = "bloch-signing-history v1";

/// Why a signature was not produced: the history refused it, or the record
/// could not be made durable (an unrecordable signature is refused too).
#[derive(Debug)]
pub enum GuardError {
    Refused(String),
    Io(String),
}

/// What a refused signature tells the operator.
pub open spec fn guard_error_text(e: GuardError) -> Seq<char> {
    match e {
        GuardError::Refused(why) => "slashing protection refused to sign: "@ + why@,
        GuardError::Io(err) => "slashing protection could not record the signature before releasing it ("@ + err@
            + "); refusing to sign, because a signature the store cannot remember is a signature a restart can repeat"@,
    }
}

impl GuardError {
    /// The refusal in words.
    pub fn message(&self) -> (r: String)
        ensures
            r@ == guard_error_text(*self),
    {
        let mut out = String::new();
        match self {
            GuardError::Refused(why) => {
                push_str(&mut out, "slashing protection refused to sign: ");
                push_str(&mut out, why.as_str());
            },
            GuardError::Io(err) => {
                push_str(&mut out, "slashing protection could not record the signature before releasing it (");
                push_str(&mut out, err.as_str());
                push_str(
                    &mut out,
                    "); refusing to sign, because a signature the store cannot remember is a signature a restart can repeat",
                );
            },
        }
        out
    }
}

/// The parsed content of an interchange file.
#[derive(Debug, Clone, PartialEq, Eq)]
pub struct Interchange {
    /// Genesis digest the history is bound to, or `None` before its first
    /// run bound it.
    pub network: Option<[u8; 32]>,
    /// The validator's public key, verbatim.
    pub pubkey: Vec<u8>,
    pub highest_proposed_slot: Option<u64>,
    /// `(max_source_epoch, max_target_epoch)`.
    pub attestation: Option<(u64, u64)>,
}

/// The mathematical value of a history or an interchange record.
pub struct HistoryV {
    pub network: Option<Seq<u8>>,
    pub pubkey: Seq<u8>,
    pub highest_proposed_slot: Option<u64>,
    pub attestation: Option<(u64, u64)>,
}

pub open spec fn opt_h32(n: Option<[u8; 32]>) -> Option<Seq<u8>> {
    match n {
        Some(x) => Some(x@),
        None => None,
    }
}

impl View for Interchange {
    type V = HistoryV;

    open spec fn view(&self) -> HistoryV {
        HistoryV {
            network: opt_h32(self.network),
            pubkey: self.pubkey@,
            highest_proposed_slot: self.highest_proposed_slot,
            attestation: self.attestation,
        }
    }
}

/// The signing history of one validator key.
#[derive(Debug, Clone)]
pub struct SigningHistory {
    network: Option<[u8; 32]>,
    pubkey: Vec<u8>,
    highest_proposed_slot: Option<u64>,
    /// `(max_source_epoch, max_target_epoch)`.
    attestation: Option<(u64, u64)>,
}

impl View for SigningHistory {
    type V = HistoryV;

    closed spec fn view(&self) -> HistoryV {
        HistoryV {
            network: opt_h32(self.network),
            pubkey: self.pubkey@,
            highest_proposed_slot: self.highest_proposed_slot,
            attestation: self.attestation,
        }
    }
}

/// A stored attestation watermark is a real span.
pub open spec fn well_formed(h: HistoryV) -> bool {
    h.attestation matches Some((s, t)) ==> s < t
}

fn copy_bytes(b: &[u8]) -> (r: Vec<u8>)
    ensures
        r@ == b@,
{
    let r = copy_range(b, 0, b.len());
    proof {
        assert(b@.subrange(0, b@.len() as int) =~= b@);
    }
    r
}

impl SigningHistory {
    /// A fresh, empty history for `pubkey`, not yet bound to a network.
    pub fn create_unbound(pubkey: &[u8]) -> (r: SigningHistory)
        ensures
            r@ == (HistoryV { network: None, pubkey: pubkey@, highest_proposed_slot: None, attestation: None }),
    {
        SigningHistory { network: None, pubkey: copy_bytes(pubkey), highest_proposed_slot: None, attestation: None }
    }

    /// A fresh history already bound to `network`.
    pub fn create_bound(network: &[u8; 32], pubkey: &[u8]) -> (r: SigningHistory)
        ensures
            r@ == (HistoryV {
                network: Some(network@),
                pubkey: pubkey@,
                highest_proposed_slot: None,
                attestation: None,
            }),
    {
        SigningHistory {
            network: Some(*network),
            pubkey: copy_bytes(pubkey),
            highest_proposed_slot: None,
            attestation: None,
        }
    }

    /// A history holding exactly an imported interchange record.
    pub fn create_from_interchange(rec: &Interchange) -> (r: SigningHistory)
        ensures
            r@ == rec@,
    {
        SigningHistory {
            network: rec.network,
            pubkey: copy_bytes(rec.pubkey.as_slice()),
            highest_proposed_slot: rec.highest_proposed_slot,
            attestation: rec.attestation,
        }
    }

    pub fn highest_proposed_slot(&self) -> (r: Option<u64>)
        ensures
            r == self@.highest_proposed_slot,
    {
        self.highest_proposed_slot
    }

    pub fn attestation_watermark(&self) -> (r: Option<(u64, u64)>)
        ensures
            r == self@.attestation,
    {
        self.attestation
    }
}


// ── The durable record ──────────────────────────────────────────────────────

pub open spec fn history_magic() -> Seq<u8> {
    seq![0x42u8, 0x53, 0x49, 0x47, 0x48, 0x49, 0x53, 0x31]
}

pub open spec fn flags_of(h: HistoryV) -> u8 {
    ((if h.network is Some { 1int } else { 0int }) + (if h.highest_proposed_slot is Some {
        2int
    } else {
        0int
    }) + (if h.attestation is Some { 4int } else { 0int })) as u8
}

pub open spec fn word_or_zero(v: Option<u64>) -> Seq<u8> {
    le64(
        match v {
            Some(x) => x,
            None => 0,
        },
    )
}

/// `"BSIGHIS1" ‖ flags ‖ network ‖ u32 len ‖ pubkey ‖ proposal ‖ source ‖ target`.
pub open spec fn encode_history_spec(h: HistoryV) -> Seq<u8> {
    history_magic() + seq![flags_of(h)] + (match h.network {
        Some(n) => n,
        None => Seq::new(32, |k: int| 0u8),
    }) + framed(h.pubkey) + word_or_zero(h.highest_proposed_slot) + word_or_zero(
        match h.attestation {
            Some((s, _)) => Some(s),
            None => None,
        },
    ) + word_or_zero(
        match h.attestation {
            Some((_, t)) => Some(t),
            None => None,
        },
    )
}

pub open spec fn flag(flags: u8, bit: int) -> bool {
    if bit == 0 {
        flags % 2 == 1
    } else if bit == 1 {
        (flags / 2) % 2 == 1
    } else {
        (flags / 4) % 2 == 1
    }
}

/// What a stored record holds, or why it is refused.
pub open spec fn decode_history_spec(b: Seq<u8>) -> Result<HistoryV, &'static str> {
    if b.len() < 8 {
        Err("truncated signing history")
    } else if b.subrange(0, 8) != history_magic() {
        Err("not a bloch-pos signing history")
    } else if b.len() < 45 || u32_at(b, 41) > MAX_FIELD_LEN || b.len() < 45 + u32_at(b, 41) + 24 {
        Err("truncated signing history")
    } else if b.len() > 45 + u32_at(b, 41) + 24 {
        Err("trailing bytes in signing history")
    } else {
        let l = u32_at(b, 41) as int;
        let flags = b[8];
        let h = HistoryV {
            network: if flag(flags, 0) {
                Some(b.subrange(9, 41))
            } else {
                None
            },
            pubkey: b.subrange(45, 45 + l),
            highest_proposed_slot: if flag(flags, 1) {
                Some(u64_at(b, 45 + l) as u64)
            } else {
                None
            },
            attestation: if flag(flags, 2) {
                Some((u64_at(b, 53 + l) as u64, u64_at(b, 61 + l) as u64))
            } else {
                None
            },
        };
        if h.attestation matches Some((s, t)) && s >= t {
            Err("signing history holds source ≥ target — corrupt")
        } else {
            Ok(h)
        }
    }
}

fn push_history_magic(out: &mut Vec<u8>)
    ensures
        final(out)@ == old(out)@ + history_magic(),
{
    out.push(0x42u8);
    out.push(0x53u8);
    out.push(0x49u8);
    out.push(0x47u8);
    out.push(0x48u8);
    out.push(0x49u8);
    out.push(0x53u8);
    out.push(0x31u8);
    proof {
        assert(final(out)@ =~= old(out)@ + history_magic());
    }
}

impl SigningHistory {
    /// The bytes of the durable record.
    pub fn encode(&self) -> (r: Vec<u8>)
        requires
            self@.pubkey.len() <= u32::MAX,
        ensures
            r@ == encode_history_spec(self@),
    {
        let mut out: Vec<u8> = Vec::new();
        push_history_magic(&mut out);
        let f: u8 = (if self.network.is_some() {
            1u8
        } else {
            0u8
        }) + (if self.highest_proposed_slot.is_some() {
            2u8
        } else {
            0u8
        }) + (if self.attestation.is_some() {
            4u8
        } else {
            0u8
        });
        out.push(f);
        match self.network {
            Some(n) => push_all(&mut out, &n),
            None => {
                let z = [0u8; 32];
                push_all(&mut out, &z);
                proof {
                    assert(z@ =~= Seq::new(32, |k: int| 0u8));
                }
            },
        }
        put_bytes(&mut out, self.pubkey.as_slice());
        push_u64(
            &mut out,
            match self.highest_proposed_slot {
                Some(x) => x,
                None => 0,
            },
        );
        let (s, t) = match self.attestation {
            Some(p) => p,
            None => (0, 0),
        };
        push_u64(&mut out, s);
        push_u64(&mut out, t);
        proof {
            assert(out@ =~= encode_history_spec(self@));
        }
        out
    }

    /// Read a stored record. Anything unreadable is an error the caller must
    /// treat as "do not sign", never as "start fresh".
    pub fn decode(bytes: &[u8]) -> (r: Result<SigningHistory, &'static str>)
        ensures
            match r {
                Ok(h) => decode_history_spec(bytes@) == Ok::<HistoryV, &'static str>(h@),
                Err(e) => decode_history_spec(bytes@) == Err::<HistoryV, &'static str>(e),
            },
    {
        let n = bytes.len();
        if n < 8 {
            return Err("truncated signing history");
        }
        let m = copy_range(bytes, 0, 8);
        let mut want: Vec<u8> = Vec::new();
        push_history_magic(&mut want);
        let same = range_eq(m.as_slice(), 0, want.as_slice(), 0, 8);
        proof {
            assert(m@.subrange(0, 8) =~= m@);
            assert(want@.subrange(0, 8) =~= want@);
        }
        if !same {
            return Err("not a bloch-pos signing history");
        }
        if n < 45 {
            return Err("truncated signing history");
        }
        let l = read_u32(bytes, 41) as usize;
        if l > MAX_FIELD_LEN || n - 45 < l || n - 45 - l < 24 {
            return Err("truncated signing history");
        }
        if n - 45 - l > 24 {
            return Err("trailing bytes in signing history");
        }
        let flags = bytes[8];
        let network = if flags % 2 == 1 {
            Some(read_h32(bytes, 9))
        } else {
            None
        };
        let pubkey = copy_range(bytes, 45, l);
        let proposal = read_u64(bytes, 45 + l);
        let source = read_u64(bytes, 53 + l);
        let target = read_u64(bytes, 61 + l);
        let h = SigningHistory {
            network,
            pubkey,
            highest_proposed_slot: if (flags / 2) % 2 == 1 {
                Some(proposal)
            } else {
                None
            },
            attestation: if (flags / 4) % 2 == 1 {
                Some((source, target))
            } else {
                None
            },
        };
        match h.attestation {
            Some((s, t)) => {
                if s >= t {
                    return Err("signing history holds source ≥ target — corrupt");
                }
            },
            None => {},
        }
        Ok(h)
    }
}

/// A well-formed history reads back from its record as itself.
pub proof fn lemma_history_round_trip(h: HistoryV)
    requires
        well_formed(h),
        h.pubkey.len() <= MAX_FIELD_LEN,
        h.network matches Some(n) ==> n.len() == 32,
    ensures
        decode_history_spec(encode_history_spec(h)) == Ok::<HistoryV, &'static str>(h),
{
    let b = encode_history_spec(h);
    let l = h.pubkey.len() as int;
    lemma_le32_roundtrip(l as u32);
    let p = match h.highest_proposed_slot {
        Some(x) => x,
        None => 0,
    };
    let (s, t) = match h.attestation {
        Some(x) => x,
        None => (0, 0),
    };
    lemma_le64_roundtrip(p);
    lemma_le64_roundtrip(s);
    lemma_le64_roundtrip(t);
    let net = match h.network {
        Some(n) => n,
        None => Seq::new(32, |k: int| 0u8),
    };
    assert(b.subrange(0, 8) =~= history_magic());
    assert(b[8] == flags_of(h));
    assert(b.subrange(9, 41) =~= net);
    assert(b.subrange(41, 45) =~= crate::bytes::le32(l as u32));
    assert(b.subrange(45, 45 + l) =~= h.pubkey);
    assert(b.subrange(45 + l, 53 + l) =~= le64(p));
    assert(b.subrange(53 + l, 61 + l) =~= le64(s));
    assert(b.subrange(61 + l, 69 + l) =~= le64(t));
    let d = decode_history_spec(b).unwrap();
    assert(d.pubkey =~= h.pubkey);
    assert(d.network == h.network) by {
        if h.network is Some {
            assert(d.network->0 =~= h.network->0);
        }
    }
}


// ── Binding and the two record-before-sign gates ────────────────────────────

/// Why a history cannot be bound to this node.
#[derive(Clone, Copy, Debug, PartialEq, Eq)]
pub enum BindError {
    /// The history belongs to a different validator key.
    ForeignKey,
    /// The history was written on a different network.
    ForeignNetwork,
}

fn same_bytes(a: &[u8], b: &[u8]) -> (r: bool)
    ensures
        r == (a@ == b@),
{
    if a.len() != b.len() {
        return false;
    }
    let same = range_eq(a, 0, b, 0, a.len());
    proof {
        assert(a@.subrange(0, a@.len() as int) =~= a@);
        assert(b@.subrange(0, b@.len() as int) =~= b@);
    }
    same
}

/// Why a proposal for `slot` is refused, if it is.
pub open spec fn proposal_refusal(h: HistoryV, slot: u64) -> Option<Seq<char>> {
    match h.highest_proposed_slot {
        Some(p) => if slot <= p {
            Some(
                "a proposal for slot "@ + decimal(slot as nat) + " when this key has already signed a proposal at slot "@
                    + decimal(p as nat)
                    + " — signing it could be the proposer equivocation this store exists to prevent (double-signed slot, or a rewound data dir)"@,
            )
        } else {
            None
        },
        None => None,
    }
}

/// Why an attestation for `(source, target)` is refused, if it is.
pub open spec fn attestation_refusal(h: HistoryV, source: u64, target: u64) -> Option<Seq<char>> {
    if source >= target {
        Some(
            "an attestation with source epoch "@ + decimal(source as nat) + " ≥ target epoch "@ + decimal(target as nat)
                + " — malformed by construction, and not something to sign"@,
        )
    } else {
        match h.attestation {
            Some((ms, mt)) => if target <= mt {
                Some(
                    "an attestation for target epoch "@ + decimal(target as nat)
                        + " when this key has already signed up to target epoch "@ + decimal(mt as nat) + " — "@ + if target
                        == mt {
                        "a second vote for an already-signed target epoch is a DOUBLE VOTE"@
                    } else {
                        "its span could be surrounded by a vote this key already signed (SURROUND VOTE, outer half already released)"@
                    },
                )
            } else if source < ms {
                Some(
                    "an attestation with source epoch "@ + decimal(source as nat)
                        + " below the highest source already signed ("@ + decimal(ms as nat)
                        + ") — it would SURROUND a vote this key already released"@,
                )
            } else {
                None
            },
            None => None,
        }
    }
}

fn push_u64_text(out: &mut String, v: u64)
    ensures
        final(out)@ == old(out)@ + decimal(v as nat),
{
    let t = u64_to_decimal(v);
    push_str(out, t.as_str());
}

impl SigningHistory {
    /// Bind the history to the running network and key. A different key or
    /// network is refused; an unbound history is bound now, and the answer
    /// says whether the record changed (and must be written).
    pub fn bind(&mut self, network: &[u8; 32], pubkey: &[u8]) -> (r: Result<bool, BindError>)
        ensures
            old(self)@.pubkey != pubkey@ ==> r == Err::<bool, BindError>(BindError::ForeignKey) && final(self)@ == old(self)@,
            old(self)@.pubkey == pubkey@ ==> match old(self)@.network {
                None => r == Ok::<bool, BindError>(true) && final(self)@ == (HistoryV { network: Some(network@), ..old(self)@ }),
                Some(n) => if n == network@ {
                    r == Ok::<bool, BindError>(false) && final(self)@ == old(self)@
                } else {
                    r == Err::<bool, BindError>(BindError::ForeignNetwork) && final(self)@ == old(self)@
                },
            },
    {
        if !same_bytes(self.pubkey.as_slice(), pubkey) {
            return Err(BindError::ForeignKey);
        }
        match self.network {
            None => {
                self.network = Some(*network);
                Ok(true)
            },
            Some(n) => {
                if same_bytes(&n, network) {
                    Ok(false)
                } else {
                    Err(BindError::ForeignNetwork)
                }
            },
        }
    }

    /// Gate a block-proposal signature for `slot`: only strictly above the
    /// highest slot already proposed.
    pub fn record_proposal(&mut self, slot: u64) -> (r: Result<(), GuardError>)
        ensures
            (old(self)@.highest_proposed_slot matches Some(h) && slot <= h) ==> (r matches Err(GuardError::Refused(m))
                && Some(m@) == proposal_refusal(old(self)@, slot)) && final(self)@ == old(self)@,
            !(old(self)@.highest_proposed_slot matches Some(h) && slot <= h) ==> r is Ok && final(self)@ == (HistoryV {
                highest_proposed_slot: Some(slot),
                ..old(self)@
            }),
    {
        match self.highest_proposed_slot {
            Some(h) => {
                if slot <= h {
                    let mut m = string_of("a proposal for slot ");
                    push_u64_text(&mut m, slot);
                    push_str(&mut m, " when this key has already signed a proposal at slot ");
                    push_u64_text(&mut m, h);
                    push_str(
                        &mut m,
                        " — signing it could be the proposer equivocation this store exists to prevent (double-signed slot, or a rewound data dir)",
                    );
                    return Err(GuardError::Refused(m));
                }
            },
            None => {},
        }
        self.highest_proposed_slot = Some(slot);
        Ok(())
    }

    /// Gate an attestation signature for `(source, target)`: a real span,
    /// a target strictly above every target signed, and a source not below
    /// every source signed.
    pub fn record_attestation(&mut self, source: u64, target: u64) -> (r: Result<(), GuardError>)
        ensures
            well_formed(old(self)@) ==> well_formed(final(self)@),
            ({
                let ok = source < target && (old(self)@.attestation matches Some((ms, mt)) ==> target > mt && source >= ms);
                &&& ok ==> r is Ok && final(self)@ == (HistoryV {
                    attestation: Some(
                        (
                            match old(self)@.attestation {
                                Some((ms, _)) => if ms >= source {
                                    ms
                                } else {
                                    source
                                },
                                None => source,
                            },
                            target,
                        ),
                    ),
                    ..old(self)@
                })
                &&& !ok ==> (r matches Err(GuardError::Refused(m)) && Some(m@) == attestation_refusal(old(self)@, source, target))
                    && final(self)@ == old(self)@
            }),
    {
        if source >= target {
            let mut m = string_of("an attestation with source epoch ");
            push_u64_text(&mut m, source);
            push_str(&mut m, " ≥ target epoch ");
            push_u64_text(&mut m, target);
            push_str(&mut m, " — malformed by construction, and not something to sign");
            return Err(GuardError::Refused(m));
        }
        match self.attestation {
            Some((ms, mt)) => {
                if target <= mt {
                    let mut m = string_of("an attestation for target epoch ");
                    push_u64_text(&mut m, target);
                    push_str(&mut m, " when this key has already signed up to target epoch ");
                    push_u64_text(&mut m, mt);
                    push_str(&mut m, " — ");
                    if target == mt {
                        push_str(&mut m, "a second vote for an already-signed target epoch is a DOUBLE VOTE");
                    } else {
                        push_str(
                            &mut m,
                            "its span could be surrounded by a vote this key already signed (SURROUND VOTE, outer half already released)",
                        );
                    }
                    return Err(GuardError::Refused(m));
                }
                if source < ms {
                    let mut m = string_of("an attestation with source epoch ");
                    push_u64_text(&mut m, source);
                    push_str(&mut m, " below the highest source already signed (");
                    push_u64_text(&mut m, ms);
                    push_str(&mut m, ") — it would SURROUND a vote this key already released");
                    return Err(GuardError::Refused(m));
                }
                self.attestation = Some((if ms >= source { ms } else { source }, target));
            },
            None => {
                self.attestation = Some((source, target));
            },
        }
        Ok(())
    }
}

/// After a duty is recorded, the same duty is refused: no second proposal
/// for a slot, no second vote for a target epoch.
pub proof fn lemma_recorded_duty_is_refused(h: HistoryV, slot: u64, source: u64, target: u64)
    ensures
        ({
            let after = HistoryV { highest_proposed_slot: Some(slot), ..h };
            after.highest_proposed_slot matches Some(x) && slot <= x
        }),
        ({
            let ok = source < target && (h.attestation matches Some((ms, mt)) ==> target > mt && source >= ms);
            let after = Some(
                (
                    match h.attestation {
                        Some((ms, _)) => if ms >= source {
                            ms
                        } else {
                            source
                        },
                        None => source,
                    },
                    target,
                ),
            );
            ok ==> !(source < target && (after matches Some((ms, mt)) ==> target > mt && source >= ms))
        }),
{
}

// ── Interchange: export and merge ───────────────────────────────────────────

pub open spec fn opt_text(v: Option<u64>) -> Seq<char> {
    match v {
        Some(n) => decimal(n as nat),
        None => "none"@,
    }
}

/// Lines, each followed by a newline.
pub open spec fn join_lines(ls: Seq<Seq<char>>) -> Seq<char>
    decreases ls.len(),
{
    if ls.len() == 0 {
        Seq::empty()
    } else {
        ls[0] + seq!['\n'] + join_lines(ls.drop_first())
    }
}

proof fn lemma_join6(ls: Seq<Seq<char>>)
    requires
        ls.len() == 6,
    ensures
        join_lines(ls) == ls[0] + seq!['\n'] + ls[1] + seq!['\n'] + ls[2] + seq!['\n'] + ls[3] + seq!['\n']
            + ls[4] + seq!['\n'] + ls[5] + seq!['\n'],
{
    let t1 = ls.drop_first();
    let t2 = t1.drop_first();
    let t3 = t2.drop_first();
    let t4 = t3.drop_first();
    let t5 = t4.drop_first();
    let t6 = t5.drop_first();
    assert(join_lines(t6) == Seq::<char>::empty());
    assert(join_lines(t5) =~= ls[5] + seq!['\n']);
    assert(join_lines(t4) =~= ls[4] + seq!['\n'] + ls[5] + seq!['\n']);
    assert(join_lines(t3) =~= ls[3] + seq!['\n'] + ls[4] + seq!['\n'] + ls[5] + seq!['\n']);
    assert(join_lines(t2) =~= ls[2] + seq!['\n'] + ls[3] + seq!['\n'] + ls[4] + seq!['\n'] + ls[5] + seq!['\n']);
    assert(join_lines(t1) =~= ls[1] + seq!['\n'] + ls[2] + seq!['\n'] + ls[3] + seq!['\n'] + ls[4] + seq!['\n']
        + ls[5] + seq!['\n']);
    assert(join_lines(ls) =~= ls[0] + seq!['\n'] + ls[1] + seq!['\n'] + ls[2] + seq!['\n'] + ls[3] + seq!['\n']
        + ls[4] + seq!['\n'] + ls[5] + seq!['\n']);
}

pub open spec fn network_text(n: Option<Seq<u8>>) -> Seq<char> {
    match n {
        Some(d) => hex_chars(d),
        None => "unbound"@,
    }
}

pub open spec fn source_of(a: Option<(u64, u64)>) -> Option<u64> {
    match a {
        Some((s, _)) => Some(s),
        None => None,
    }
}

pub open spec fn target_of(a: Option<(u64, u64)>) -> Option<u64> {
    match a {
        Some((_, t)) => Some(t),
        None => None,
    }
}

/// The lines of a history's interchange text: the header, then one
/// `key: value` line per field.
pub open spec fn export_lines(h: HistoryV) -> Seq<Seq<char>> {
    seq![
        INTERCHANGE_HEADER@,
        "network"@ + ": "@ + network_text(h.network),
        "pubkey"@ + ": "@ + hex_chars(h.pubkey),
        "highest-proposed-slot"@ + ": "@ + opt_text(h.highest_proposed_slot),
        "max-source-epoch"@ + ": "@ + opt_text(source_of(h.attestation)),
        "max-target-epoch"@ + ": "@ + opt_text(target_of(h.attestation)),
    ]
}

/// The interchange text of a history.
pub open spec fn export_spec(h: HistoryV) -> Seq<char> {
    join_lines(export_lines(h))
}

/// `none`, or the number.
pub fn fmt_opt(v: Option<u64>) -> (r: String)
    ensures
        r@ == opt_text(v),
{
    match v {
        Some(n) => u64_to_decimal(n),
        None => string_of("none"),
    }
}

pub open spec fn pair_text(v: Option<(u64, u64)>) -> Seq<char> {
    match v {
        Some((s, t)) => "("@ + decimal(s as nat) + ", "@ + decimal(t as nat) + ")"@,
        None => "none"@,
    }
}

/// `none`, or `(source, target)`.
pub fn fmt_pair(v: Option<(u64, u64)>) -> (r: String)
    ensures
        r@ == pair_text(v),
{
    match v {
        Some((s, t)) => {
            let mut m = string_of("(");
            push_u64_text(&mut m, s);
            push_str(&mut m, ", ");
            push_u64_text(&mut m, t);
            push_str(&mut m, ")");
            m
        },
        None => string_of("none"),
    }
}

/// Both histories name a network, and not the same one.
pub open spec fn networks_differ(a: Option<Seq<u8>>, b: Option<Seq<u8>>) -> bool {
    match (a, b) {
        (Some(x), Some(y)) => x != y,
        _ => false,
    }
}

pub open spec fn max_opt(a: Option<u64>, b: Option<u64>) -> Option<u64> {
    match (a, b) {
        (x, None) => x,
        (None, y) => y,
        (Some(x), Some(y)) => Some(if x >= y { x } else { y }),
    }
}

pub open spec fn max_pair(a: Option<(u64, u64)>, b: Option<(u64, u64)>) -> Option<(u64, u64)> {
    match (a, b) {
        (x, None) => x,
        (None, y) => y,
        (Some((s1, t1)), Some((s2, t2))) => Some((if s1 >= s2 { s1 } else { s2 }, if t1 >= t2 { t1 } else { t2 })),
    }
}

impl SigningHistory {
    /// The interchange text form of this history.
    pub fn export_text(&self) -> (r: String)
        ensures
            r@ == export_spec(self@),
    {
        let ghost ls = export_lines(self@);
        let mut out = string_of(INTERCHANGE_HEADER);
        out.push('\n');
        let ghost g1 = out@;
        assert(g1 =~= ls[0] + seq!['\n']);
        push_str(&mut out, "network");
        push_str(&mut out, ": ");
        match self.network {
            Some(n) => push_hex(&mut out, &n),
            None => push_str(&mut out, "unbound"),
        }
        out.push('\n');
        let ghost g2 = out@;
        assert(g2 =~= g1 + ls[1] + seq!['\n']);
        push_str(&mut out, "pubkey");
        push_str(&mut out, ": ");
        push_hex(&mut out, self.pubkey.as_slice());
        out.push('\n');
        let ghost g3 = out@;
        assert(g3 =~= g2 + ls[2] + seq!['\n']);
        push_str(&mut out, "highest-proposed-slot");
        push_str(&mut out, ": ");
        let t = fmt_opt(self.highest_proposed_slot);
        push_str(&mut out, t.as_str());
        out.push('\n');
        let ghost g4 = out@;
        assert(g4 =~= g3 + ls[3] + seq!['\n']);
        push_str(&mut out, "max-source-epoch");
        push_str(&mut out, ": ");
        let t = fmt_opt(
            match self.attestation {
                Some((s, _)) => Some(s),
                None => None,
            },
        );
        push_str(&mut out, t.as_str());
        out.push('\n');
        let ghost g5 = out@;
        assert(g5 =~= g4 + ls[4] + seq!['\n']);
        push_str(&mut out, "max-target-epoch");
        push_str(&mut out, ": ");
        let t = fmt_opt(
            match self.attestation {
                Some((_, t)) => Some(t),
                None => None,
            },
        );
        push_str(&mut out, t.as_str());
        out.push('\n');
        assert(out@ =~= g5 + ls[5] + seq!['\n']);
        proof {
            lemma_join6(ls);
        }
        out
    }

    /// Merge an imported record. Watermarks only ever go up (element-wise
    /// maximum): merging can make the node refuse more, never less. Answers
    /// a summary of what moved.
    pub fn merge_interchange(&mut self, rec: &Interchange) -> (r: Result<String, GuardError>)
        ensures
            rec.pubkey@ != old(self)@.pubkey ==> (r matches Err(GuardError::Refused(m))
                && m@ == "the imported history belongs to a different validator key"@) && final(self)@ == old(self)@,
            rec.pubkey@ == old(self)@.pubkey && networks_differ(old(self)@.network, rec@.network) ==> (r matches Err(
                GuardError::Refused(m),
            ) && m@ == "the imported history was written on a different network (different genesis digest)"@)
                && final(self)@ == old(self)@,
            rec.pubkey@ == old(self)@.pubkey && !networks_differ(old(self)@.network, rec@.network)
                ==> (match r {
                Ok(summary) => final(self)@ == (HistoryV {
                    network: if old(self)@.network is None {
                        rec@.network
                    } else {
                        old(self)@.network
                    },
                    pubkey: old(self)@.pubkey,
                    highest_proposed_slot: max_opt(old(self)@.highest_proposed_slot, rec.highest_proposed_slot),
                    attestation: max_pair(old(self)@.attestation, rec.attestation),
                }) && summary@ == "proposal watermark "@ + opt_text(old(self)@.highest_proposed_slot) + " -> "@
                    + opt_text(final(self)@.highest_proposed_slot) + ", attestation watermark "@ + pair_text(
                    old(self)@.attestation,
                ) + " -> "@ + pair_text(final(self)@.attestation),
                Err(_) => false,
            }),
    {
        if !same_bytes(rec.pubkey.as_slice(), self.pubkey.as_slice()) {
            return Err(GuardError::Refused(string_of("the imported history belongs to a different validator key")));
        }
        match (self.network, rec.network) {
            (Some(a), Some(b)) => {
                if !same_bytes(&a, &b) {
                    return Err(
                        GuardError::Refused(
                            string_of(
                                "the imported history was written on a different network (different genesis digest)",
                            ),
                        ),
                    );
                }
            },
            (None, Some(b)) => {
                self.network = Some(b);
            },
            _ => {},
        }
        let before = (self.highest_proposed_slot, self.attestation);
        self.highest_proposed_slot = match (self.highest_proposed_slot, rec.highest_proposed_slot) {
            (a, None) => a,
            (None, b) => b,
            (Some(a), Some(b)) => Some(if a >= b { a } else { b }),
        };
        self.attestation = match (self.attestation, rec.attestation) {
            (a, None) => a,
            (None, b) => b,
            (Some((s1, t1)), Some((s2, t2))) => Some((if s1 >= s2 { s1 } else { s2 }, if t1 >= t2 { t1 } else { t2 })),
        };
        let mut m = string_of("proposal watermark ");
        let t = fmt_opt(before.0);
        push_str(&mut m, t.as_str());
        push_str(&mut m, " -> ");
        let t = fmt_opt(self.highest_proposed_slot);
        push_str(&mut m, t.as_str());
        push_str(&mut m, ", attestation watermark ");
        let t = fmt_pair(before.1);
        push_str(&mut m, t.as_str());
        push_str(&mut m, " -> ");
        let t = fmt_pair(self.attestation);
        push_str(&mut m, t.as_str());
        Ok(m)
    }
}


// ── Interchange: parse ──────────────────────────────────────────────────────

/// Where the piece of text starting at `i` ends: the next newline, or the end.
pub open spec fn piece_end(s: Seq<char>, i: int) -> int
    decreases s.len() - i,
{
    if i < 0 || i >= s.len() {
        s.len() as int
    } else if s[i] == '\n' {
        i
    } else {
        piece_end(s, i + 1)
    }
}

/// The meaningful lines from `i` on: each line trimmed, blank lines and
/// `#` comments dropped.
pub open spec fn content_lines(s: Seq<char>, i: int) -> Seq<Seq<char>>
    decreases s.len() - i,
{
    if i < 0 || i > s.len() {
        Seq::empty()
    } else {
        let e = piece_end(s, i);
        let line = trimmed(s, i, e);
        let rest = if i <= e && e < s.len() {
            content_lines(s, e + 1)
        } else {
            Seq::empty()
        };
        if line.len() > 0 && line[0] != '#' {
            seq![line] + rest
        } else {
            rest
        }
    }
}

/// The keys seen so far, each `None` until its line appears.
pub struct FieldsV {
    pub network: Option<Option<Seq<u8>>>,
    pub pubkey: Option<Seq<u8>>,
    pub proposed: Option<Option<u64>>,
    pub source: Option<Option<u64>>,
    pub target: Option<Option<u64>>,
}

pub open spec fn no_fields() -> FieldsV {
    FieldsV { network: None, pubkey: None, proposed: None, source: None, target: None }
}

/// What a malformed hex value is answered with.
pub const NOT_HEX: &'static str = "not an even-length string of hex digits";

pub open spec fn opt_u64_spec(v: Seq<char>) -> Result<Option<u64>, Seq<char>> {
    if v == "none"@ {
        Ok(None)
    } else {
        match parse_u64_spec(v) {
            Some(n) => Ok(Some(n)),
            None => Err("`"@ + v + "` is not a number or `none`"@),
        }
    }
}

/// The first `:` in `line` at or after `i`.
pub open spec fn colon_from(line: Seq<char>, i: int) -> Option<int>
    decreases line.len() - i,
{
    if i < 0 || i >= line.len() {
        None
    } else if line[i] == ':' {
        Some(i)
    } else {
        colon_from(line, i + 1)
    }
}

/// One `key: value` line read into the fields seen so far.
pub open spec fn line_step(line: Seq<char>, st: FieldsV) -> Result<FieldsV, Seq<char>> {
    match colon_from(line, 0) {
        None => Err("line `"@ + line + "` is not `key: value`"@),
        Some(c) => {
            let key = trimmed(line, 0, c);
            let value = trimmed(line, c + 1, line.len() as int);
            if key == "network"@ {
                if value == "unbound"@ {
                    Ok(FieldsV { network: Some(None), ..st })
                } else {
                    match unhex_pairs(value) {
                        None => Err("network: "@ + NOT_HEX@),
                        Some(b) => if b.len() == 32 {
                            Ok(FieldsV { network: Some(Some(b)), ..st })
                        } else {
                            Err("network digest must be 32 bytes of hex"@)
                        },
                    }
                }
            } else if key == "pubkey"@ {
                match unhex_pairs(value) {
                    None => Err("pubkey: "@ + NOT_HEX@),
                    Some(b) => if b.len() == 0 {
                        Err("pubkey is empty"@)
                    } else {
                        Ok(FieldsV { pubkey: Some(b), ..st })
                    },
                }
            } else if key == "highest-proposed-slot"@ {
                match opt_u64_spec(value) {
                    Ok(v) => Ok(FieldsV { proposed: Some(v), ..st }),
                    Err(e) => Err(e),
                }
            } else if key == "max-source-epoch"@ {
                match opt_u64_spec(value) {
                    Ok(v) => Ok(FieldsV { source: Some(v), ..st }),
                    Err(e) => Err(e),
                }
            } else if key == "max-target-epoch"@ {
                match opt_u64_spec(value) {
                    Ok(v) => Ok(FieldsV { target: Some(v), ..st }),
                    Err(e) => Err(e),
                }
            } else {
                Err("unknown key `"@ + key + "`"@)
            }
        },
    }
}

/// The lines read in order; the first bad one is the answer.
pub open spec fn fold_lines(ls: Seq<Seq<char>>, st: FieldsV) -> Result<FieldsV, Seq<char>>
    decreases ls.len(),
{
    if ls.len() == 0 {
        Ok(st)
    } else {
        match line_step(ls[0], st) {
            Err(e) => Err(e),
            Ok(st2) => fold_lines(ls.drop_first(), st2),
        }
    }
}

/// Every key present, and a whole attestation pair or none of it.
pub open spec fn finish_spec(st: FieldsV) -> Result<HistoryV, Seq<char>> {
    match (st.network, st.pubkey, st.proposed, st.source, st.target) {
        (None, _, _, _, _) => Err("missing `network`"@),
        (_, None, _, _, _) => Err("missing `pubkey`"@),
        (_, _, None, _, _) => Err("missing `highest-proposed-slot`"@),
        (_, _, _, None, _) => Err("missing `max-source-epoch`"@),
        (_, _, _, _, None) => Err("missing `max-target-epoch`"@),
        (Some(n), Some(k), Some(p), Some(s), Some(t)) => match (s, t) {
            (None, None) => Ok(HistoryV { network: n, pubkey: k, highest_proposed_slot: p, attestation: None }),
            (Some(a), Some(b)) => if a < b {
                Ok(HistoryV { network: n, pubkey: k, highest_proposed_slot: p, attestation: Some((a, b)) })
            } else {
                Err("max-source-epoch must be strictly below max-target-epoch"@)
            },
            _ => Err("max-source-epoch and max-target-epoch must both be numbers or both `none`"@),
        },
    }
}

/// What an interchange text says, or why it is refused. Strict: unknown
/// keys, missing keys, or half an attestation pair are errors.
pub open spec fn parse_interchange_spec(text: Seq<char>) -> Result<HistoryV, Seq<char>> {
    let ls = content_lines(text, 0);
    if ls.len() == 0 {
        Err("empty file"@)
    } else if ls[0] != INTERCHANGE_HEADER@ {
        Err("first line is `"@ + ls[0] + "`, expected `"@ + INTERCHANGE_HEADER@ + "`"@)
    } else {
        match fold_lines(ls.drop_first(), no_fields()) {
            Err(e) => Err(e),
            Ok(st) => finish_spec(st),
        }
    }
}

struct Fields {
    network: Option<Option<[u8; 32]>>,
    pubkey: Option<Vec<u8>>,
    proposed: Option<Option<u64>>,
    source: Option<Option<u64>>,
    target: Option<Option<u64>>,
}

impl Fields {
    spec fn view_fields(&self) -> FieldsV {
        FieldsV {
            network: match self.network {
                Some(Some(n)) => Some(Some(n@)),
                Some(None) => Some(None),
                None => None,
            },
            pubkey: match self.pubkey {
                Some(k) => Some(k@),
                None => None,
            },
            proposed: self.proposed,
            source: self.source,
            target: self.target,
        }
    }
}

/// `v[a..b]` spells exactly `lit`.
fn spells_at(v: &Vec<char>, a: usize, b: usize, lit: &str) -> (r: bool)
    requires
        a <= b <= v@.len(),
    ensures
        r == (v@.subrange(a as int, b as int) == lit@),
{
    let l = chars_of(lit);
    if b - a != l.len() {
        return false;
    }
    let mut k: usize = 0;
    while k < l.len()
        invariant
            a <= b <= v@.len(),
            l@ == lit@,
            b - a == l@.len(),
            k <= l@.len(),
            forall|x: int| 0 <= x < k ==> v@[a + x] == l@[x],
        decreases l@.len() - k,
    {
        if v[a + k] != l[k] {
            assert(v@.subrange(a as int, b as int)[k as int] != l@[k as int]);
            return false;
        }
        k = k + 1;
    }
    assert(v@.subrange(a as int, b as int) =~= l@);
    true
}

fn sub_chars(v: &Vec<char>, a: usize, b: usize) -> (r: Vec<char>)
    requires
        a <= b <= v@.len(),
    ensures
        r@ == v@.subrange(a as int, b as int),
{
    let mut out: Vec<char> = Vec::new();
    let mut k = a;
    while k < b
        invariant
            a <= k <= b <= v@.len(),
            out@ == v@.subrange(a as int, k as int),
        decreases b - k,
    {
        out.push(v[k]);
        proof {
            assert(v@.subrange(a as int, k + 1) =~= v@.subrange(a as int, k as int).push(v@[k as int]));
        }
        k = k + 1;
    }
    out
}

fn chars_to_string(v: &Vec<char>) -> (r: String)
    ensures
        r@ == v@,
{
    let mut out = String::new();
    let mut k: usize = 0;
    while k < v.len()
        invariant
            k <= v@.len(),
            out@ == v@.subrange(0, k as int),
        decreases v@.len() - k,
    {
        out.push(v[k]);
        proof {
            assert(v@.subrange(0, k + 1) =~= v@.subrange(0, k as int).push(v@[k as int]));
        }
        k = k + 1;
    }
    proof {
        assert(v@.subrange(0, v@.len() as int) =~= v@);
    }
    out
}

fn opt_u64_value(v: &Vec<char>) -> (r: Result<Option<u64>, String>)
    ensures
        match r {
            Ok(x) => opt_u64_spec(v@) == Ok::<Option<u64>, Seq<char>>(x),
            Err(m) => opt_u64_spec(v@) == Err::<Option<u64>, Seq<char>>(m@),
        },
{
    if spells_at(v, 0, v.len(), "none") {
        proof {
            assert(v@.subrange(0, v@.len() as int) =~= v@);
        }
        return Ok(None);
    }
    proof {
        assert(v@.subrange(0, v@.len() as int) =~= v@);
    }
    match parse_u64_chars(v) {
        Some(n) => Ok(Some(n)),
        None => {
            let mut m = string_of("`");
            let t = chars_to_string(v);
            push_str(&mut m, t.as_str());
            push_str(&mut m, "` is not a number or `none`");
            Err(m)
        },
    }
}

fn unhex_value(v: &Vec<char>) -> (r: Option<Vec<u8>>)
    ensures
        match r {
            Some(b) => unhex_pairs(v@) == Some(b@),
            None => unhex_pairs(v@) is None,
        },
{
    let r = unhex_from(v, 0);
    proof {
        assert(v@.subrange(0, v@.len() as int) =~= v@);
    }
    r
}

fn read_line(line: &Vec<char>, st: &mut Fields) -> (r: Result<(), String>)
    ensures
        match r {
            Ok(()) => line_step(line@, old(st).view_fields()) == Ok::<FieldsV, Seq<char>>(final(st).view_fields()),
            Err(m) => line_step(line@, old(st).view_fields()) == Err::<FieldsV, Seq<char>>(m@),
        },
{
    let n = line.len();
    let mut c: usize = 0;
    while c < n && line[c] != ':'
        invariant
            c <= n,
            n == line@.len(),
            colon_from(line@, c as int) == colon_from(line@, 0),
        decreases n - c,
    {
        c = c + 1;
    }
    if c >= n {
        let mut m = string_of("line `");
        let t = chars_to_string(line);
        push_str(&mut m, t.as_str());
        push_str(&mut m, "` is not `key: value`");
        return Err(m);
    }
    let (ka, kb) = trim_bounds(line, 0, c);
    let (va, vb) = trim_bounds(line, c + 1, n);
    let value = sub_chars(line, va, vb);
    if spells_at(line, ka, kb, "network") {
        if spells_at(line, va, vb, "unbound") {
            st.network = Some(None);
            return Ok(());
        }
        match unhex_value(&value) {
            None => {
                let mut m = string_of("network: ");
                push_str(&mut m, NOT_HEX);
                Err(m)
            },
            Some(b) => {
                if b.len() == 32 {
                    let a = read_h32(b.as_slice(), 0);
                    proof {
                        assert(b@.subrange(0, 32) =~= b@);
                    }
                    st.network = Some(Some(a));
                    Ok(())
                } else {
                    Err(string_of("network digest must be 32 bytes of hex"))
                }
            },
        }
    } else if spells_at(line, ka, kb, "pubkey") {
        match unhex_value(&value) {
            None => {
                let mut m = string_of("pubkey: ");
                push_str(&mut m, NOT_HEX);
                Err(m)
            },
            Some(b) => {
                if b.len() == 0 {
                    Err(string_of("pubkey is empty"))
                } else {
                    st.pubkey = Some(b);
                    Ok(())
                }
            },
        }
    } else if spells_at(line, ka, kb, "highest-proposed-slot") {
        match opt_u64_value(&value) {
            Ok(v) => {
                st.proposed = Some(v);
                Ok(())
            },
            Err(m) => Err(m),
        }
    } else if spells_at(line, ka, kb, "max-source-epoch") {
        match opt_u64_value(&value) {
            Ok(v) => {
                st.source = Some(v);
                Ok(())
            },
            Err(m) => Err(m),
        }
    } else if spells_at(line, ka, kb, "max-target-epoch") {
        match opt_u64_value(&value) {
            Ok(v) => {
                st.target = Some(v);
                Ok(())
            },
            Err(m) => Err(m),
        }
    } else {
        let mut m = string_of("unknown key `");
        let key = sub_chars(line, ka, kb);
        let t = chars_to_string(&key);
        push_str(&mut m, t.as_str());
        push_str(&mut m, "`");
        Err(m)
    }
}


fn finish(st: Fields) -> (r: Result<Interchange, String>)
    ensures
        match r {
            Ok(rec) => finish_spec(st.view_fields()) == Ok::<HistoryV, Seq<char>>(rec@),
            Err(m) => finish_spec(st.view_fields()) == Err::<HistoryV, Seq<char>>(m@),
        },
{
    let ghost v = st.view_fields();
    let network = match st.network {
        Some(n) => n,
        None => {
            return Err(string_of("missing `network`"));
        },
    };
    let pubkey = match st.pubkey {
        Some(k) => k,
        None => {
            return Err(string_of("missing `pubkey`"));
        },
    };
    let proposed = match st.proposed {
        Some(p) => p,
        None => {
            return Err(string_of("missing `highest-proposed-slot`"));
        },
    };
    let source = match st.source {
        Some(x) => x,
        None => {
            return Err(string_of("missing `max-source-epoch`"));
        },
    };
    let target = match st.target {
        Some(x) => x,
        None => {
            return Err(string_of("missing `max-target-epoch`"));
        },
    };
    let attestation = match (source, target) {
        (None, None) => None,
        (Some(a), Some(b)) => {
            if a < b {
                Some((a, b))
            } else {
                return Err(string_of("max-source-epoch must be strictly below max-target-epoch"));
            }
        },
        _ => {
            return Err(
                string_of("max-source-epoch and max-target-epoch must both be numbers or both `none`"),
            );
        },
    };
    Ok(Interchange { network, pubkey, highest_proposed_slot: proposed, attestation })
}

impl SigningHistory {
    /// Parse an interchange text. Strict: unknown keys, missing keys, or
    /// half an attestation pair are errors; a protection file that parses
    /// "mostly" protects mostly.
    pub fn parse_interchange(text: &str) -> (r: Result<Interchange, String>)
        ensures
            match r {
                Ok(rec) => parse_interchange_spec(text@) == Ok::<HistoryV, Seq<char>>(rec@),
                Err(m) => parse_interchange_spec(text@) == Err::<HistoryV, Seq<char>>(m@),
            },
    {
        let s = chars_of(text);
        let n = s.len();
        let ghost ls0 = content_lines(s@, 0);
        let mut st = Fields { network: None, pubkey: None, proposed: None, source: None, target: None };
        let mut seen_header = false;
        let mut i: usize = 0;
        loop
            invariant
                n == s@.len(),
                s@ == text@,
                ls0 == content_lines(s@, 0),
                i <= n,
                !seen_header ==> content_lines(s@, i as int) == ls0 && st.view_fields() == no_fields(),
                seen_header ==> ls0.len() > 0 && ls0[0] == INTERCHANGE_HEADER@ && fold_lines(content_lines(s@, i as int), st.view_fields())
                    == fold_lines(ls0.drop_first(), no_fields()),
            decreases n - i,
        {
            let mut e = i;
            while e < n && s[e] != '\n'
                invariant
                    i <= e <= n,
                    n == s@.len(),
                    piece_end(s@, e as int) == piece_end(s@, i as int),
                decreases n - e,
            {
                e = e + 1;
            }
            let (a, b) = trim_bounds(&s, i, e);
            let ghost rest = if e < n {
                content_lines(s@, e + 1)
            } else {
                Seq::<Seq<char>>::empty()
            };
            let ghost cl = content_lines(s@, i as int);
            if a < b && s[a] != '#' {
                let line = sub_chars(&s, a, b);
                proof {
                    assert(cl == seq![line@] + rest);
                    assert((seq![line@] + rest)[0] == line@);
                    assert((seq![line@] + rest).drop_first() =~= rest);
                }
                if !seen_header {
                    if !spells_at(&line, 0, line.len(), INTERCHANGE_HEADER) {
                        proof {
                            assert(line@.subrange(0, line@.len() as int) =~= line@);
                        }
                        let mut m = string_of("first line is `");
                        let t = chars_to_string(&line);
                        push_str(&mut m, t.as_str());
                        push_str(&mut m, "`, expected `");
                        push_str(&mut m, INTERCHANGE_HEADER);
                        push_str(&mut m, "`");
                        return Err(m);
                    }
                    proof {
                        assert(line@.subrange(0, line@.len() as int) =~= line@);
                    }
                    seen_header = true;
                } else {
                    match read_line(&line, &mut st) {
                        Ok(()) => {},
                        Err(m) => {
                            return Err(m);
                        },
                    }
                }
            } else {
                proof {
                    assert(cl == rest);
                }
            }
            if e < n {
                i = e + 1;
            } else {
                proof {
                    assert(rest == Seq::<Seq<char>>::empty());
                }
                if !seen_header {
                    return Err(string_of("empty file"));
                }
                return finish(st);
            }
        }
    }
}

// ── Export reads back ───────────────────────────────────────────────────────

/// A line that reading gives back as it is: not blank, not a comment, no
/// newline in it and nothing to trim off either end.
pub open spec fn plain_line(l: Seq<char>) -> bool {
    &&& l.len() > 0
    &&& l[0] != '#'
    &&& !is_space(l[0])
    &&& !is_space(l.last())
    &&& forall|i: int| 0 <= i < l.len() ==> #[trigger] l[i] != '\n'
}

proof fn lemma_piece_end_at(s: Seq<char>, i: int, e: int)
    requires
        0 <= i <= e <= s.len(),
        forall|p: int| i <= p < e ==> #[trigger] s[p] != '\n',
        e == s.len() || s[e] == '\n',
    ensures
        piece_end(s, i) == e,
    decreases e - i,
{
    if i < e {
        lemma_piece_end_at(s, i + 1, e);
    }
}

proof fn lemma_piece_end_bounds(s: Seq<char>, i: int)
    requires
        0 <= i <= s.len(),
    ensures
        i <= piece_end(s, i) <= s.len(),
        piece_end(s, i) < s.len() ==> s[piece_end(s, i)] == '\n',
    decreases s.len() - i,
{
    if i < s.len() && s[i] != '\n' {
        lemma_piece_end_bounds(s, i + 1);
    }
}

proof fn lemma_piece_end_shift(a: Seq<char>, b: Seq<char>, j: int)
    requires
        0 <= j <= b.len(),
    ensures
        piece_end(a + b, a.len() + j) == a.len() + piece_end(b, j),
    decreases b.len() - j,
{
    if j < b.len() {
        assert((a + b)[a.len() + j] == b[j]);
        if b[j] != '\n' {
            lemma_piece_end_shift(a, b, j + 1);
        }
    }
}

proof fn lemma_trim_start_shift(a: Seq<char>, b: Seq<char>, x: int, y: int)
    requires
        0 <= x <= y <= b.len(),
    ensures
        trim_start(a + b, a.len() + x, a.len() + y) == a.len() + trim_start(b, x, y),
        x <= trim_start(b, x, y) <= y,
    decreases y - x,
{
    if x < y {
        assert((a + b)[a.len() + x] == b[x]);
        if is_space(b[x]) {
            lemma_trim_start_shift(a, b, x + 1, y);
        }
    }
}

proof fn lemma_trim_end_shift(a: Seq<char>, b: Seq<char>, x: int, y: int)
    requires
        0 <= x <= y <= b.len(),
    ensures
        trim_end(a + b, a.len() + x, a.len() + y) == a.len() + trim_end(b, x, y),
        x <= trim_end(b, x, y) <= y,
    decreases y - x,
{
    if x < y {
        assert((a + b)[a.len() + y - 1] == b[y - 1]);
        if is_space(b[y - 1]) {
            lemma_trim_end_shift(a, b, x, y - 1);
        }
    }
}

proof fn lemma_trimmed_shift(a: Seq<char>, b: Seq<char>, x: int, y: int)
    requires
        0 <= x <= y <= b.len(),
    ensures
        trimmed(a + b, a.len() + x, a.len() + y) == trimmed(b, x, y),
{
    lemma_trim_start_shift(a, b, x, y);
    let t = trim_start(b, x, y);
    lemma_trim_end_shift(a, b, t, y);
    let u = trim_end(b, t, y);
    assert((a + b).subrange(a.len() + t, a.len() + u) =~= b.subrange(t, u));
}

proof fn lemma_content_lines_shift(a: Seq<char>, b: Seq<char>, j: int)
    requires
        0 <= j <= b.len(),
    ensures
        content_lines(a + b, a.len() + j) == content_lines(b, j),
    decreases b.len() - j,
{
    lemma_piece_end_shift(a, b, j);
    lemma_piece_end_bounds(b, j);
    let e = piece_end(b, j);
    lemma_trimmed_shift(a, b, j, e);
    if e < b.len() {
        lemma_content_lines_shift(a, b, e + 1);
    }
}

/// Plain lines joined by newlines read back as those lines.
pub proof fn lemma_join_lines_read_back(ls: Seq<Seq<char>>)
    requires
        forall|k: int| 0 <= k < ls.len() ==> plain_line(#[trigger] ls[k]),
    ensures
        content_lines(join_lines(ls), 0) == ls,
    decreases ls.len(),
{
    let s = join_lines(ls);
    if ls.len() == 0 {
        assert(trimmed(s, 0, 0) =~= Seq::<char>::empty());
        assert(content_lines(s, 0) =~= ls);
    } else {
        let l = ls[0];
        let a = l + seq!['\n'];
        let rest = ls.drop_first();
        let b = join_lines(rest);
        assert(s =~= a + b);
        assert(plain_line(l));
        assert forall|p: int| 0 <= p < l.len() implies #[trigger] s[p] != '\n' by {
            assert(s[p] == l[p]);
        }
        assert(s[l.len() as int] == '\n');
        lemma_piece_end_at(s, 0, l.len() as int);
        assert(s[0] == l[0]);
        assert(s[l.len() - 1] == l.last());
        assert(trim_start(s, 0, l.len() as int) == 0);
        assert(trim_end(s, 0, l.len() as int) == l.len());
        assert(s.subrange(0, l.len() as int) =~= l);
        lemma_content_lines_shift(a, b, 0);
        assert forall|k: int| 0 <= k < rest.len() implies plain_line(#[trigger] rest[k]) by {
            assert(rest[k] == ls[k + 1]);
        }
        lemma_join_lines_read_back(rest);
        assert(seq![l] + rest =~= ls);
    }
}

pub open spec fn no_colon(k: Seq<char>) -> bool {
    forall|i: int| 0 <= i < k.len() ==> #[trigger] k[i] != ':'
}

proof fn lemma_colon_at(line: Seq<char>, i: int, c: int)
    requires
        0 <= i <= c < line.len(),
        forall|p: int| i <= p < c ==> #[trigger] line[p] != ':',
        line[c] == ':',
    ensures
        colon_from(line, i) == Some(c),
    decreases c - i,
{
    if i < c {
        lemma_colon_at(line, i + 1, c);
    }
}

/// A `key: value` line splits at its colon into the key and the value.
proof fn lemma_key_value(key: Seq<char>, colon: Seq<char>, value: Seq<char>)
    requires
        key.len() > 0,
        no_colon(key),
        !is_space(key[0]),
        !is_space(key.last()),
        colon == seq![':', ' '],
        value.len() > 0,
        !is_space(value[0]),
        !is_space(value.last()),
    ensures
        ({
            let line = key + colon + value;
            &&& colon_from(line, 0) == Some(key.len() as int)
            &&& trimmed(line, 0, key.len() as int) == key
            &&& trimmed(line, key.len() + 1int, line.len() as int) == value
        }),
{
    let line = key + colon + value;
    let k = key.len() as int;
    assert forall|p: int| 0 <= p < k implies #[trigger] line[p] != ':' by {
        assert(line[p] == key[p]);
    }
    assert(line[k] == ':');
    lemma_colon_at(line, 0, k);
    assert(line[0] == key[0]);
    assert(line[k - 1] == key.last());
    assert(trim_start(line, 0, k) == 0);
    assert(trim_end(line, 0, k) == k);
    assert(line.subrange(0, k) =~= key);
    assert(line[k + 1] == ' ');
    assert(is_space(' '));
    assert(line[k + 2] == value[0]);
    assert(trim_start(line, k + 2, line.len() as int) == k + 2);
    assert(trim_start(line, k + 1, line.len() as int) == k + 2);
    assert(line[line.len() - 1] == value.last());
    assert(trim_end(line, k + 2, line.len() as int) == line.len());
    assert(line.subrange(k + 2, line.len() as int) =~= value);
}

proof fn lemma_opt_text(v: Option<u64>)
    ensures
        opt_u64_spec(opt_text(v)) == Ok::<Option<u64>, Seq<char>>(v),
        opt_text(v).len() > 0,
        !is_space(opt_text(v)[0]),
        !is_space(opt_text(v).last()),
        forall|i: int| 0 <= i < opt_text(v).len() ==> #[trigger] opt_text(v)[i] != '\n',
{
    reveal_strlit("none");
    match v {
        Some(n) => {
            lemma_decimal_parses(n);
            let d = decimal(n as nat);
            crate::text::lemma_decimal_digits(n as nat);
            assert(is_digit(d[0]));
            assert(is_digit(d.last()));
            assert(d != "none"@) by {
                assert(d[0] != "none"@[0]);
            }
            assert forall|i: int| 0 <= i < d.len() implies #[trigger] d[i] != '\n' by {
                assert(is_digit(d[i]));
            }
        },
        None => {},
    }
}

proof fn lemma_hex_text(b: Seq<u8>)
    requires
        b.len() > 0,
    ensures
        unhex_pairs(hex_chars(b)) == Some(b),
        hex_chars(b).len() == 2 * b.len(),
        !is_space(hex_chars(b)[0]),
        !is_space(hex_chars(b).last()),
        forall|i: int| 0 <= i < hex_chars(b).len() ==> #[trigger] hex_chars(b)[i] != '\n',
{
    lemma_hex_round_trip(b);
    let h = hex_chars(b);
    assert(is_lower_hex(h[0]));
    assert(is_lower_hex(h[h.len() - 1]));
    assert forall|i: int| 0 <= i < h.len() implies #[trigger] h[i] != '\n' by {
        assert(is_lower_hex(h[i]));
    }
}

/// A line `key: value` is a plain line.
proof fn lemma_key_value_plain(key: Seq<char>, value: Seq<char>)
    requires
        key.len() > 0,
        key[0] != '#',
        !is_space(key[0]),
        forall|i: int| 0 <= i < key.len() ==> #[trigger] key[i] != '\n',
        value.len() > 0,
        !is_space(value.last()),
        forall|i: int| 0 <= i < value.len() ==> #[trigger] value[i] != '\n',
    ensures
        plain_line(key + ": "@ + value),
{
    reveal_strlit(": ");
    let l = key + ": "@ + value;
    assert(l[0] == key[0]);
    assert(l.last() == value.last());
    assert forall|i: int| 0 <= i < l.len() implies #[trigger] l[i] != '\n' by {
        if i < key.len() {
            assert(l[i] == key[i]);
        } else if i < key.len() + 2 {
        } else {
            assert(l[i] == value[i - key.len() - 2]);
        }
    }
}

proof fn lemma_step_network(n: Option<Seq<u8>>, st: FieldsV)
    requires
        n matches Some(d) ==> d.len() == 32,
    ensures
        line_step("network"@ + ": "@ + network_text(n), st) == Ok::<FieldsV, Seq<char>>(
            FieldsV { network: Some(n), ..st },
        ),
{
    reveal_strlit("network");
    reveal_strlit("unbound");
    reveal_strlit(": ");
    let net = network_text(n);
    match n {
        Some(d) => {
            lemma_hex_text(d);
            assert(net.len() != "unbound"@.len());
        },
        None => {},
    }
    let colon: Seq<char> = seq![':', ' '];
    assert(": "@ =~= colon);
    lemma_key_value("network"@, colon, net);
}

proof fn lemma_step_pubkey(b: Seq<u8>, st: FieldsV)
    requires
        b.len() > 0,
    ensures
        line_step("pubkey"@ + ": "@ + hex_chars(b), st) == Ok::<FieldsV, Seq<char>>(
            FieldsV { pubkey: Some(b), ..st },
        ),
{
    reveal_strlit("pubkey");
    reveal_strlit("network");
    reveal_strlit(": ");
    lemma_hex_text(b);
    let colon: Seq<char> = seq![':', ' '];
    assert(": "@ =~= colon);
    lemma_key_value("pubkey"@, colon, hex_chars(b));
    assert("pubkey"@ != "network"@) by {
        assert("pubkey"@.len() != "network"@.len());
    }
}

proof fn lemma_step_proposed(v: Option<u64>, st: FieldsV)
    ensures
        line_step("highest-proposed-slot"@ + ": "@ + opt_text(v), st) == Ok::<FieldsV, Seq<char>>(
            FieldsV { proposed: Some(v), ..st },
        ),
{
    reveal_strlit("highest-proposed-slot");
    reveal_strlit("network");
    reveal_strlit("pubkey");
    reveal_strlit(": ");
    lemma_opt_text(v);
    let colon: Seq<char> = seq![':', ' '];
    assert(": "@ =~= colon);
    lemma_key_value("highest-proposed-slot"@, colon, opt_text(v));
    assert("highest-proposed-slot"@.len() != "network"@.len());
    assert("highest-proposed-slot"@.len() != "pubkey"@.len());
}

proof fn lemma_step_source(v: Option<u64>, st: FieldsV)
    ensures
        line_step("max-source-epoch"@ + ": "@ + opt_text(v), st) == Ok::<FieldsV, Seq<char>>(
            FieldsV { source: Some(v), ..st },
        ),
{
    reveal_strlit("max-source-epoch");
    reveal_strlit("highest-proposed-slot");
    reveal_strlit("network");
    reveal_strlit("pubkey");
    reveal_strlit(": ");
    lemma_opt_text(v);
    let colon: Seq<char> = seq![':', ' '];
    assert(": "@ =~= colon);
    lemma_key_value("max-source-epoch"@, colon, opt_text(v));
    assert("max-source-epoch"@.len() != "network"@.len());
    assert("max-source-epoch"@.len() != "pubkey"@.len());
    assert("max-source-epoch"@.len() != "highest-proposed-slot"@.len());
}

proof fn lemma_step_target(v: Option<u64>, st: FieldsV)
    ensures
        line_step("max-target-epoch"@ + ": "@ + opt_text(v), st) == Ok::<FieldsV, Seq<char>>(
            FieldsV { target: Some(v), ..st },
        ),
{
    reveal_strlit("max-target-epoch");
    reveal_strlit("max-source-epoch");
    reveal_strlit("highest-proposed-slot");
    reveal_strlit("network");
    reveal_strlit("pubkey");
    reveal_strlit(": ");
    lemma_opt_text(v);
    let colon: Seq<char> = seq![':', ' '];
    assert(": "@ =~= colon);
    lemma_key_value("max-target-epoch"@, colon, opt_text(v));
    assert("max-target-epoch"@.len() != "network"@.len());
    assert("max-target-epoch"@.len() != "pubkey"@.len());
    assert("max-target-epoch"@.len() != "highest-proposed-slot"@.len());
    assert("max-target-epoch"@ != "max-source-epoch"@) by {
        assert("max-target-epoch"@[4] != "max-source-epoch"@[4]);
    }
}

/// Every line of an export is a plain line.
proof fn lemma_export_lines_plain(h: HistoryV)
    requires
        h.pubkey.len() > 0,
        h.network matches Some(n) ==> n.len() == 32,
    ensures
        forall|k: int| 0 <= k < export_lines(h).len() ==> plain_line(#[trigger] export_lines(h)[k]),
{
    reveal_strlit("bloch-signing-history v1");
    reveal_strlit("network");
    reveal_strlit("pubkey");
    reveal_strlit("highest-proposed-slot");
    reveal_strlit("max-source-epoch");
    reveal_strlit("max-target-epoch");
    reveal_strlit("unbound");
    let ls = export_lines(h);
    let net = network_text(h.network);
    match h.network {
        Some(n) => {
            lemma_hex_text(n);
        },
        None => {},
    }
    lemma_hex_text(h.pubkey);
    lemma_opt_text(h.highest_proposed_slot);
    lemma_opt_text(source_of(h.attestation));
    lemma_opt_text(target_of(h.attestation));
    lemma_key_value_plain("network"@, net);
    lemma_key_value_plain("pubkey"@, hex_chars(h.pubkey));
    lemma_key_value_plain("highest-proposed-slot"@, opt_text(h.highest_proposed_slot));
    lemma_key_value_plain("max-source-epoch"@, opt_text(source_of(h.attestation)));
    lemma_key_value_plain("max-target-epoch"@, opt_text(target_of(h.attestation)));
    assert(plain_line(INTERCHANGE_HEADER@));
}

/// The export of a history reads back as that history, for a history with
/// a public key and, if it has an attestation watermark, a source below
/// its target: the export is the interchange form, and losing nothing
/// through it is the point of it.
pub proof fn lemma_export_parses_back(h: HistoryV)
    requires
        h.pubkey.len() > 0,
        h.network matches Some(n) ==> n.len() == 32,
        h.attestation matches Some((s, t)) ==> s < t,
    ensures
        parse_interchange_spec(export_spec(h)) == Ok::<HistoryV, Seq<char>>(h),
{
    let ls = export_lines(h);
    lemma_export_lines_plain(h);
    lemma_join_lines_read_back(ls);
    let body = ls.drop_first();
    let st1 = FieldsV { network: Some(h.network), ..no_fields() };
    let st2 = FieldsV { pubkey: Some(h.pubkey), ..st1 };
    let st3 = FieldsV { proposed: Some(h.highest_proposed_slot), ..st2 };
    let st4 = FieldsV { source: Some(source_of(h.attestation)), ..st3 };
    let st5 = FieldsV { target: Some(target_of(h.attestation)), ..st4 };
    lemma_step_network(h.network, no_fields());
    lemma_step_pubkey(h.pubkey, st1);
    lemma_step_proposed(h.highest_proposed_slot, st2);
    lemma_step_source(source_of(h.attestation), st3);
    lemma_step_target(target_of(h.attestation), st4);
    let b1 = body.drop_first();
    let b2 = b1.drop_first();
    let b3 = b2.drop_first();
    let b4 = b3.drop_first();
    let b5 = b4.drop_first();
    assert(b1[0] == ls[2]);
    assert(b2[0] == ls[3]);
    assert(b3[0] == ls[4]);
    assert(b4[0] == ls[5]);
    assert(body[0] == ls[1]);
    assert(b5.len() == 0);
    assert(fold_lines(b5, st5) == Ok::<FieldsV, Seq<char>>(st5));
    assert(fold_lines(b4, st4) == Ok::<FieldsV, Seq<char>>(st5));
    assert(fold_lines(b3, st3) == Ok::<FieldsV, Seq<char>>(st5));
    assert(fold_lines(b2, st2) == Ok::<FieldsV, Seq<char>>(st5));
    assert(fold_lines(b1, st1) == Ok::<FieldsV, Seq<char>>(st5));
    assert(fold_lines(body, no_fields()) == Ok::<FieldsV, Seq<char>>(st5));
    assert(finish_spec(st5) == Ok::<HistoryV, Seq<char>>(h));
}
/// A history bound to a network is bound to a 32-byte digest.
pub proof fn lemma_history_network_is_a_digest(h: SigningHistory)
    ensures
        h@.network matches Some(n) ==> n.len() == 32,
{
}

/// Every history whose attestation pair is a real span reads back: its
/// exported interchange text parses to the same history (a history names
/// its key), and its stored record decodes to the same history (a key fits
/// a field). Recording a duty keeps the span real, so what a guard let
/// through is what a reopened store reads.
pub proof fn lemma_history_reads_back(h: SigningHistory)
    requires
        well_formed(h@),
    ensures
        h@.pubkey.len() > 0 ==> parse_interchange_spec(export_spec(h@)) == Ok::<HistoryV, Seq<char>>(h@),
        h@.pubkey.len() <= MAX_FIELD_LEN ==> decode_history_spec(encode_history_spec(h@)) == Ok::<
            HistoryV,
            &'static str,
        >(h@),
{
    lemma_history_network_is_a_digest(h);
    if h@.pubkey.len() > 0 {
        lemma_export_parses_back(h@);
    }
    if h@.pubkey.len() <= MAX_FIELD_LEN {
        lemma_history_round_trip(h@);
    }
}

/// The key a `key: value` line names.
pub open spec fn line_key(line: Seq<char>) -> Option<Seq<char>> {
    match colon_from(line, 0) {
        Some(c) => Some(trimmed(line, 0, c)),
        None => None,
    }
}

/// The five keys of an interchange record.
pub open spec fn interchange_key(k: Seq<char>) -> bool {
    ||| k == "network"@
    ||| k == "pubkey"@
    ||| k == "highest-proposed-slot"@
    ||| k == "max-source-epoch"@
    ||| k == "max-target-epoch"@
}

/// Some line of `ls` names the key `k`.
pub open spec fn names_key(ls: Seq<Seq<char>>, k: Seq<char>) -> bool {
    exists|i: int| 0 <= i < ls.len() && #[trigger] line_key(ls[i]) == Some(k)
}

proof fn lemma_names_key_shift(ls: Seq<Seq<char>>, k: Seq<char>)
    requires
        ls.len() > 0,
        names_key(ls.drop_first(), k),
    ensures
        names_key(ls, k),
{
    let j = choose|j: int| 0 <= j < ls.drop_first().len() && #[trigger] line_key(ls.drop_first()[j]) == Some(k);
    assert(ls[j + 1] == ls.drop_first()[j]);
    assert(line_key(ls[j + 1]) == Some(k));
}

proof fn lemma_fold_strict(ls: Seq<Seq<char>>, st: FieldsV)
    requires
        st.pubkey matches Some(k) ==> k.len() > 0,
        st.network matches Some(Some(n)) ==> n.len() == 32,
    ensures
        fold_lines(ls, st) matches Ok(st2) ==> {
            &&& forall|i: int| 0 <= i < ls.len() ==> (#[trigger] line_key(ls[i]) matches Some(k) && interchange_key(k))
            &&& st2.pubkey matches Some(k) ==> k.len() > 0
            &&& st2.network matches Some(Some(n)) ==> n.len() == 32
            &&& st2.network is Some ==> st.network is Some || names_key(ls, "network"@)
            &&& st2.pubkey is Some ==> st.pubkey is Some || names_key(ls, "pubkey"@)
            &&& st2.proposed is Some ==> st.proposed is Some || names_key(ls, "highest-proposed-slot"@)
            &&& st2.source is Some ==> st.source is Some || names_key(ls, "max-source-epoch"@)
            &&& st2.target is Some ==> st.target is Some || names_key(ls, "max-target-epoch"@)
        },
    decreases ls.len(),
{
    if ls.len() > 0 {
        match line_step(ls[0], st) {
            Err(_) => {},
            Ok(st1) => {
                let rest = ls.drop_first();
                lemma_fold_strict(rest, st1);
                if fold_lines(ls, st) is Ok {
                    let st2 = fold_lines(rest, st1)->Ok_0;
                    assert(fold_lines(ls, st) == fold_lines(rest, st1));
                    assert(line_key(ls[0]) matches Some(k) && interchange_key(k));
                    assert forall|i: int| 0 <= i < ls.len() implies (#[trigger] line_key(ls[i]) matches Some(k)
                        && interchange_key(k)) by {
                        if i > 0 {
                            assert(ls[i] == rest[i - 1]);
                        }
                    }
                    let k0 = line_key(ls[0])->Some_0;
                    assert(names_key(ls, k0)) by {
                        assert(line_key(ls[0]) == Some(k0));
                    }
                    if names_key(rest, "network"@) {
                        lemma_names_key_shift(ls, "network"@);
                    }
                    if names_key(rest, "pubkey"@) {
                        lemma_names_key_shift(ls, "pubkey"@);
                    }
                    if names_key(rest, "highest-proposed-slot"@) {
                        lemma_names_key_shift(ls, "highest-proposed-slot"@);
                    }
                    if names_key(rest, "max-source-epoch"@) {
                        lemma_names_key_shift(ls, "max-source-epoch"@);
                    }
                    if names_key(rest, "max-target-epoch"@) {
                        lemma_names_key_shift(ls, "max-target-epoch"@);
                    }
                }
            },
        }
    }
}

/// The interchange reader is strict. Whatever it accepts begins with the
/// header line; every other content line is one of the five keys, and each
/// of the five appears; the key is not empty, the network a 32-byte digest,
/// and an attestation pair a real span.
pub proof fn lemma_interchange_is_strict(text: Seq<char>)
    ensures
        parse_interchange_spec(text) matches Ok(h) ==> {
            let ls = content_lines(text, 0);
            let body = ls.drop_first();
            &&& ls.len() > 0 && ls[0] == INTERCHANGE_HEADER@
            &&& forall|i: int| 0 <= i < body.len() ==> (#[trigger] line_key(body[i]) matches Some(k) && interchange_key(k))
            &&& names_key(body, "network"@)
            &&& names_key(body, "pubkey"@)
            &&& names_key(body, "highest-proposed-slot"@)
            &&& names_key(body, "max-source-epoch"@)
            &&& names_key(body, "max-target-epoch"@)
            &&& h.pubkey.len() > 0
            &&& h.network matches Some(n) ==> n.len() == 32
            &&& well_formed(h)
        },
{
    let ls = content_lines(text, 0);
    if ls.len() > 0 && ls[0] == INTERCHANGE_HEADER@ {
        lemma_fold_strict(ls.drop_first(), no_fields());
    }
}

} // verus!
