//! The optional native-component sidecar: a checksummed record bound to the
//! genesis, head, state root and slot it was taken at. It is derived state,
//! checked against the fully replayed chain before anything is restored; a
//! stale record is a cache miss and a contradicting one is an error.
use vstd::prelude::*;
use crate::bytes::{
    le32, le64, lemma_le32_roundtrip, lemma_le64_roundtrip, push_all, push_u32, push_u64, range_eq,
    read_h32, read_u32, read_u64, copy_range,
};
use crate::codec::{u32_at, u64_at};
use crate::digest::{sha3, sha3_256};

verus! {

broadcast use vstd::std_specs::vec::group_vec_axioms;

/// Bytes before the payload: magic, version, genesis, head, root, slot,
/// payload length and the checksum.
pub const HEADER_BYTES: usize = 152;

/// The sidecar's file name in the data directory.
pub const FILE_NAME: &'static str = "native-component.bin";

pub const EXCEEDS_LIMIT: &'static str = "native snapshot exceeds limit";
pub const BAD_SIZE: &'static str = "invalid native snapshot file size/type";
pub const SCHEMA_MISMATCH: &'static str = "native snapshot schema mismatch";
pub const LENGTH_MISMATCH: &'static str = "native snapshot length mismatch";
pub const CHECKSUM_MISMATCH: &'static str = "native snapshot checksum mismatch";
pub const OTHER_GENESIS: &'static str = "native snapshot belongs to another genesis";
pub const SLOT_CONTRADICTION: &'static str = "native snapshot contradicts replayed head slot";
pub const ROOT_CONTRADICTION: &'static str = "native snapshot contradicts replayed state root";

/// What a sidecar is bound to.
#[derive(Clone, Copy, Debug, PartialEq, Eq)]
pub struct SnapshotBinding {
    pub genesis: [u8; 32],
    pub head: [u8; 32],
    pub root: [u8; 32],
    pub slot: u64,
}

pub open spec fn native_magic() -> Seq<u8> {
    seq![0x42u8, 0x50, 0x4F, 0x53, 0x4E, 0x41, 0x54, 0x31]
}

/// Domain tag of the sidecar checksum.
pub open spec fn sidecar_tag() -> Seq<u8> {
    seq![
        0x42u8, 0x4C, 0x4F, 0x43, 0x48, 0x2D, 0x4E, 0x41, 0x54, 0x49, 0x56, 0x45, 0x2D, 0x53, 0x49,
        0x44, 0x45, 0x43, 0x41, 0x52, 0x2D, 0x76, 0x31,
    ]
}

/// The first 120 bytes of a record: everything the checksum follows.
pub open spec fn header_body(b: SnapshotBinding, len: u32) -> Seq<u8> {
    native_magic() + le32(1) + b.genesis@ + b.head@ + b.root@ + le64(b.slot) + le32(len)
}

/// The checksum over a header body and a payload.
pub open spec fn sidecar_sum(body: Seq<u8>, payload: Seq<u8>) -> Seq<u8> {
    sha3_256(sidecar_tag() + body + payload)@
}

/// A whole record: header body, checksum, payload.
pub open spec fn record_spec(b: SnapshotBinding, payload: Seq<u8>) -> Seq<u8> {
    let body = header_body(b, payload.len() as u32);
    body + sidecar_sum(body, payload) + payload
}

impl View for SnapshotBinding {
    /// Genesis, head, root, slot.
    type V = (Seq<u8>, Seq<u8>, Seq<u8>, u64);

    open spec fn view(&self) -> (Seq<u8>, Seq<u8>, Seq<u8>, u64) {
        (self.genesis@, self.head@, self.root@, self.slot)
    }
}

/// What a sidecar file's bytes say, given the payload limit: the binding
/// (genesis, head, root, slot) and the payload, or why the file is refused.
pub open spec fn decode_spec(f: Seq<u8>, max_payload: nat) -> Result<
    ((Seq<u8>, Seq<u8>, Seq<u8>, u64), Seq<u8>),
    &'static str,
> {
    if f.len() < 152 || f.len() > 152 + max_payload {
        Err(BAD_SIZE)
    } else if f.subrange(0, 8) != native_magic() || u32_at(f, 8) != 1 {
        Err(SCHEMA_MISMATCH)
    } else if u32_at(f, 116) > max_payload || f.len() != 152 + u32_at(f, 116) {
        Err(LENGTH_MISMATCH)
    } else if sidecar_sum(f.subrange(0, 120), f.subrange(152, f.len() as int)) != f.subrange(120, 152) {
        Err(CHECKSUM_MISMATCH)
    } else {
        Ok(
            (
                (f.subrange(12, 44), f.subrange(44, 76), f.subrange(76, 108), u64_at(f, 108) as u64),
                f.subrange(152, f.len() as int),
            ),
        )
    }
}

fn push_native_magic(out: &mut Vec<u8>)
    ensures
        final(out)@ == old(out)@ + native_magic(),
{
    let m: [u8; 8] = [0x42, 0x50, 0x4F, 0x53, 0x4E, 0x41, 0x54, 0x31];
    push_all(out, &m);
    proof {
        assert(m@ =~= native_magic());
    }
}

fn push_sidecar_tag(out: &mut Vec<u8>)
    ensures
        final(out)@ == old(out)@ + sidecar_tag(),
{
    let t: [u8; 23] = [
        0x42, 0x4C, 0x4F, 0x43, 0x48, 0x2D, 0x4E, 0x41, 0x54, 0x49, 0x56, 0x45, 0x2D, 0x53, 0x49,
        0x44, 0x45, 0x43, 0x41, 0x52, 0x2D, 0x76, 0x31,
    ];
    push_all(out, &t);
    proof {
        assert(t@ =~= sidecar_tag());
    }
}

/// The checksum of a header body and a payload.
fn checksum(body: &[u8], payload: &[u8]) -> (r: [u8; 32])
    ensures
        r@ == sidecar_sum(body@, payload@),
{
    let mut data: Vec<u8> = Vec::new();
    push_sidecar_tag(&mut data);
    push_all(&mut data, body);
    push_all(&mut data, payload);
    proof {
        assert(data@ =~= sidecar_tag() + body@ + payload@);
    }
    sha3(data.as_slice())
}

/// The sidecar record of `payload` bound to `binding`, or a refusal when
/// the payload is over `max_payload`.
pub fn encode_record(binding: &SnapshotBinding, payload: &[u8], max_payload: usize) -> (r: Result<
    Vec<u8>,
    &'static str,
>)
    requires
        max_payload <= u32::MAX,
    ensures
        payload@.len() > max_payload ==> r == Err::<Vec<u8>, &'static str>(EXCEEDS_LIMIT),
        payload@.len() <= max_payload ==> (r matches Ok(v) && v@ == record_spec(*binding, payload@)),
{
    if payload.len() > max_payload {
        return Err(EXCEEDS_LIMIT);
    }
    let len = payload.len() as u32;
    let mut out: Vec<u8> = Vec::new();
    push_native_magic(&mut out);
    push_u32(&mut out, 1);
    push_all(&mut out, &binding.genesis);
    push_all(&mut out, &binding.head);
    push_all(&mut out, &binding.root);
    push_u64(&mut out, binding.slot);
    push_u32(&mut out, len);
    proof {
        assert(out@ =~= header_body(*binding, payload@.len() as u32));
    }
    let sum = checksum(out.as_slice(), payload);
    push_all(&mut out, &sum);
    push_all(&mut out, payload);
    Ok(out)
}

/// Read a sidecar file's bytes: the binding and payload it carries, or why
/// it is refused. The limit is the payload's, not the file's.
pub fn decode_record(f: &[u8], max_payload: usize) -> (r: Result<(SnapshotBinding, Vec<u8>), &'static str>)
    requires
        max_payload <= u32::MAX,
    ensures
        match r {
            Ok((b, p)) => decode_spec(f@, max_payload as nat) == Ok::<
                ((Seq<u8>, Seq<u8>, Seq<u8>, u64), Seq<u8>),
                &'static str,
            >((b@, p@)),
            Err(e) => decode_spec(f@, max_payload as nat) == Err::<
                ((Seq<u8>, Seq<u8>, Seq<u8>, u64), Seq<u8>),
                &'static str,
            >(e),
        },
{
    let n = f.len();
    if n < HEADER_BYTES || n - HEADER_BYTES > max_payload {
        return Err(BAD_SIZE);
    }
    let mut magic: Vec<u8> = Vec::new();
    push_native_magic(&mut magic);
    proof {
        assert(magic@.subrange(0, 8) =~= magic@);
    }
    if !range_eq(f, 0, magic.as_slice(), 0, 8) || read_u32(f, 8) != 1 {
        return Err(SCHEMA_MISMATCH);
    }
    let len = read_u32(f, 116);
    if len as usize > max_payload || n - HEADER_BYTES != len as usize {
        return Err(LENGTH_MISMATCH);
    }
    let body = copy_range(f, 0, 120);
    let payload = copy_range(f, HEADER_BYTES, n - HEADER_BYTES);
    let sum = checksum(body.as_slice(), payload.as_slice());
    proof {
        assert(sum@.subrange(0, 32) =~= sum@);
    }
    if !range_eq(f, 120, &sum, 0, 32) {
        return Err(CHECKSUM_MISMATCH);
    }
    let b = SnapshotBinding {
        genesis: read_h32(f, 12),
        head: read_h32(f, 44),
        root: read_h32(f, 76),
        slot: read_u64(f, 108),
    };
    Ok((b, payload))
}

/// A record reads back as the binding and payload it was written from.
pub proof fn lemma_record_round_trip(b: SnapshotBinding, payload: Seq<u8>, max_payload: nat)
    requires
        payload.len() <= max_payload,
        max_payload <= u32::MAX,
    ensures
        decode_spec(record_spec(b, payload), max_payload) == Ok::<
            ((Seq<u8>, Seq<u8>, Seq<u8>, u64), Seq<u8>),
            &'static str,
        >((b@, payload)),
{
    let len = payload.len() as u32;
    let body = header_body(b, len);
    let f = record_spec(b, payload);
    lemma_le32_roundtrip(1);
    lemma_le32_roundtrip(len);
    lemma_le64_roundtrip(b.slot);
    assert(sha3_256(sidecar_tag() + body + payload)@.len() == 32);
    assert(body.len() == 120);
    assert(f.len() == 152 + payload.len());
    assert(f.subrange(0, 120) =~= body);
    assert(f.subrange(0, 8) =~= native_magic());
    assert(f.subrange(8, 12) =~= le32(1));
    assert(f.subrange(12, 44) =~= b.genesis@);
    assert(f.subrange(44, 76) =~= b.head@);
    assert(f.subrange(76, 108) =~= b.root@);
    assert(f.subrange(108, 116) =~= le64(b.slot));
    assert(f.subrange(116, 120) =~= le32(len));
    assert(f.subrange(120, 152) =~= sidecar_sum(body, payload));
    assert(f.subrange(152, f.len() as int) =~= payload);
}

/// How a sidecar found on disk relates to the replayed chain.
///
/// `Ok(true)`: it was taken at the replayed head and agrees with it, so its
/// payload may be restored. `Ok(false)`: it is stale (another head), an
/// ordinary cache miss. `Err`: it belongs to another network or contradicts
/// the replayed head, and cannot supply a trusted root.
pub fn check_binding(found: &SnapshotBinding, expected: &SnapshotBinding) -> (r: Result<bool, &'static str>)
    ensures
        r == (if found.genesis@ != expected.genesis@ {
            Err::<bool, &'static str>(OTHER_GENESIS)
        } else if found.head@ != expected.head@ {
            Ok(false)
        } else if found.slot != expected.slot {
            Err(SLOT_CONTRADICTION)
        } else if found.root@ != expected.root@ {
            Err(ROOT_CONTRADICTION)
        } else {
            Ok(true)
        }),
{
    proof {
        assert(found.genesis@.subrange(0, 32) =~= found.genesis@);
        assert(expected.genesis@.subrange(0, 32) =~= expected.genesis@);
        assert(found.head@.subrange(0, 32) =~= found.head@);
        assert(expected.head@.subrange(0, 32) =~= expected.head@);
        assert(found.root@.subrange(0, 32) =~= found.root@);
        assert(expected.root@.subrange(0, 32) =~= expected.root@);
    }
    if !range_eq(&found.genesis, 0, &expected.genesis, 0, 32) {
        return Err(OTHER_GENESIS);
    }
    if !range_eq(&found.head, 0, &expected.head, 0, 32) {
        return Ok(false);
    }
    if found.slot != expected.slot {
        return Err(SLOT_CONTRADICTION);
    }
    if !range_eq(&found.root, 0, &expected.root, 0, 32) {
        return Err(ROOT_CONTRADICTION);
    }
    Ok(true)
}

} // verus!
