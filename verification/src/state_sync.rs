//! Checkpoint-sync state download: the snapshot file framing, the chunked
//! transfer wire form, the manifest of an artifact, and the bookkeeping of a
//! resumable download.
//!
//! Nothing about a download is trusted: a chunk hash only lets a bad chunk be
//! fetched again early. The assembled artifact is still checked against the
//! checkpoint's state root before anything is built from it.
use vstd::prelude::*;
use crate::bytes::{
    copy_range, le32, le64, lemma_le32_roundtrip, lemma_le64_roundtrip, push_all, push_u32,
    push_u64, range_eq, read_h32, read_u32, read_u64,
};
use crate::codec::{u32_at, u64_at, DecodeErr, MAX_FIELD_LEN};
use crate::digest::{sha3, sha3_256};
use crate::text::{push_str, string_of};

verus! {

broadcast use vstd::std_specs::vec::group_vec_axioms;

// ── File form ───────────────────────────────────────────────────────────────

pub open spec fn snap_magic() -> Seq<u8> {
    seq![0x42u8, 0x50, 0x4F, 0x53, 0x53, 0x4E, 0x50, 0x31]
}

/// Version of the snapshot file framing.
pub const SNAP_VERSION: u32 = 1;

/// Name of the installed boot snapshot inside a data dir.
pub const INSTALLED_SNAPSHOT: &'static str = "state.snap";

/// `"BPOSSNP1" ‖ u32 version ‖ u32 len ‖ envelope ‖ u64 len ‖ state body`.
pub open spec fn snapshot_file_spec(env: Seq<u8>, body: Seq<u8>) -> Seq<u8> {
    snap_magic() + le32(SNAP_VERSION) + le32(env.len() as u32) + env + le64(body.len() as u64) + body
}

/// The framing read back: the boundary envelope's bytes and the state body.
pub open spec fn decode_snapshot_spec(b: Seq<u8>) -> Option<(Seq<u8>, Seq<u8>)> {
    if b.len() >= 16 && b.subrange(0, 8) == snap_magic() && u32_at(b, 8) == SNAP_VERSION {
        let env_len = u32_at(b, 12) as int;
        if env_len <= MAX_FIELD_LEN && b.len() >= 16 + env_len + 8 && u64_at(b, 16 + env_len)
            == b.len() - (24 + env_len) {
            Some((b.subrange(16, 16 + env_len), b.subrange(24 + env_len, b.len() as int)))
        } else {
            None
        }
    } else {
        None
    }
}

fn push_snap_magic(out: &mut Vec<u8>)
    ensures
        final(out)@ == old(out)@ + snap_magic(),
{
    out.push(0x42u8);
    out.push(0x50u8);
    out.push(0x4Fu8);
    out.push(0x53u8);
    out.push(0x53u8);
    out.push(0x4Eu8);
    out.push(0x50u8);
    out.push(0x31u8);
    proof {
        assert(final(out)@ =~= old(out)@ + snap_magic());
    }
}

/// Frame a snapshot file around the encoded boundary envelope and the
/// canonical state body.
pub fn encode_snapshot_file(env: &[u8], body: &[u8]) -> (r: Vec<u8>)
    requires
        env@.len() <= u32::MAX,
        body@.len() <= u64::MAX,
    ensures
        r@ == snapshot_file_spec(env@, body@),
{
    let mut out: Vec<u8> = Vec::new();
    push_snap_magic(&mut out);
    push_u32(&mut out, SNAP_VERSION);
    push_u32(&mut out, env.len() as u32);
    push_all(&mut out, env);
    push_u64(&mut out, body.len() as u64);
    push_all(&mut out, body);
    proof {
        assert(out@ =~= snapshot_file_spec(env@, body@));
    }
    out
}

/// Read the file framing. Strict: bad magic, unknown version, wrong lengths
/// and trailing bytes are all refusals. The envelope comes back as bytes for
/// the block codec, the body as bytes for the state restore.
/// Why bytes are not a snapshot file.
pub open spec fn snapshot_refusal(b: Seq<u8>) -> &'static str {
    if b.len() < 16 || b.subrange(0, 8) != snap_magic() {
        "not a bloch-pos state snapshot"
    } else if u32_at(b, 8) != SNAP_VERSION {
        "unknown snapshot file version"
    } else if u32_at(b, 12) > MAX_FIELD_LEN || b.len() < 16 + u32_at(b, 12) + 8 {
        "truncated snapshot file"
    } else {
        "snapshot body length mismatch"
    }
}

pub fn decode_snapshot_file(bytes: &[u8]) -> (r: Result<(Vec<u8>, Vec<u8>), DecodeErr>)
    ensures
        match r {
            Ok((env, body)) => decode_snapshot_spec(bytes@) == Some((env@, body@)),
            Err(e) => decode_snapshot_spec(bytes@) is None && e.0 == snapshot_refusal(bytes@),
        },
{
    let n = bytes.len();
    if n < 16 {
        return Err(DecodeErr("not a bloch-pos state snapshot"));
    }
    let magic = copy_range(bytes, 0, 8);
    let mut want: Vec<u8> = Vec::new();
    push_snap_magic(&mut want);
    if !range_eq(magic.as_slice(), 0, want.as_slice(), 0, 8) {
        proof {
            assert(magic@.subrange(0, 8) =~= magic@);
            assert(want@.subrange(0, 8) =~= want@);
        }
        return Err(DecodeErr("not a bloch-pos state snapshot"));
    }
    proof {
        assert(magic@.subrange(0, 8) =~= magic@);
        assert(want@.subrange(0, 8) =~= want@);
    }
    if read_u32(bytes, 8) != SNAP_VERSION {
        return Err(DecodeErr("unknown snapshot file version"));
    }
    let env_len = read_u32(bytes, 12) as usize;
    if env_len > MAX_FIELD_LEN || n - 16 < env_len || n - 16 - env_len < 8 {
        return Err(DecodeErr("truncated snapshot file"));
    }
    let at = 16 + env_len;
    let body_len = read_u64(bytes, at);
    let body_at = at + 8;
    if (n - body_at) as u64 != body_len {
        return Err(DecodeErr("snapshot body length mismatch"));
    }
    let env = copy_range(bytes, 16, env_len);
    let body = copy_range(bytes, body_at, n - body_at);
    Ok((env, body))
}

/// A framed file reads back as the envelope and body it was framed from.
pub proof fn lemma_snapshot_file_round_trip(env: Seq<u8>, body: Seq<u8>)
    requires
        env.len() <= MAX_FIELD_LEN,
        body.len() <= u64::MAX,
    ensures
        decode_snapshot_spec(snapshot_file_spec(env, body)) == Some((env, body)),
{
    let b = snapshot_file_spec(env, body);
    lemma_le32_roundtrip(SNAP_VERSION);
    lemma_le32_roundtrip(env.len() as u32);
    lemma_le64_roundtrip(body.len() as u64);
    assert(b.subrange(0, 8) =~= snap_magic());
    assert(b.subrange(8, 12) =~= le32(SNAP_VERSION));
    assert(b.subrange(12, 16) =~= le32(env.len() as u32));
    let el = env.len() as int;
    assert(b.subrange(16 + el, 16 + el + 8) =~= le64(body.len() as u64));
    assert(b.subrange(16, 16 + el) =~= env);
    assert(b.subrange(24 + el, b.len() as int) =~= body);
}

// ── Where snapshots live ────────────────────────────────────────────────────

/// `dir.join(name)` for a relative, single-component `name`.
pub open spec fn path_join(dir: Seq<char>, name: Seq<char>) -> Seq<char> {
    if dir.len() == 0 {
        name
    } else if dir.last() == '/' {
        dir + name
    } else {
        dir + seq!['/'] + name
    }
}

/// Where a node keeps the snapshots it serves.
pub fn snapshots_dir(data_dir: &str) -> (r: String)
    ensures
        r@ == path_join(data_dir@, "snapshots"@),
{
    let cs = crate::text::chars_of(data_dir);
    let mut out = string_of(data_dir);
    if cs.len() > 0 && cs[cs.len() - 1] != '/' {
        out.push('/');
    }
    push_str(&mut out, "snapshots");
    proof {
        if data_dir@.len() == 0 {
            assert(out@ =~= "snapshots"@);
        }
    }
    out
}


// ── Wire form ───────────────────────────────────────────────────────────────

/// Chunk size of a transfer.
pub const STATE_CHUNK_LEN: u32 = 2097152;

/// Ceiling on the chunks of one artifact: a manifest claiming more is
/// refused, so a lying server cannot command an unbounded download.
pub const MAX_STATE_CHUNKS: u32 = 4096;

#[derive(Clone, Debug, PartialEq, Eq)]
pub enum StateSyncRequest {
    /// Do you serve the snapshot for `state_root`, and what shape is it?
    Manifest { state_root: [u8; 32] },
    /// One chunk of it.
    Chunk { state_root: [u8; 32], index: u32 },
}

#[derive(Clone, Debug, PartialEq, Eq)]
pub enum StateSyncResponse {
    Manifest {
        state_root: [u8; 32],
        total_len: u64,
        chunk_len: u32,
        /// SHA3-256 of each chunk, in order. Transport integrity only.
        chunk_hashes: Vec<[u8; 32]>,
    },
    Chunk { state_root: [u8; 32], index: u32, bytes: Vec<u8> },
    Unavailable { state_root: [u8; 32] },
}

pub enum RequestV {
    Manifest(Seq<u8>),
    Chunk(Seq<u8>, u32),
}

pub enum ResponseV {
    Manifest(Seq<u8>, u64, u32, Seq<Seq<u8>>),
    Chunk(Seq<u8>, u32, Seq<u8>),
    Unavailable(Seq<u8>),
}

impl View for StateSyncRequest {
    type V = RequestV;

    open spec fn view(&self) -> RequestV {
        match self {
            StateSyncRequest::Manifest { state_root } => RequestV::Manifest(state_root@),
            StateSyncRequest::Chunk { state_root, index } => RequestV::Chunk(state_root@, *index),
        }
    }
}

pub open spec fn hashes_view(h: Seq<[u8; 32]>) -> Seq<Seq<u8>> {
    Seq::new(h.len(), |i: int| h[i]@)
}

impl View for StateSyncResponse {
    type V = ResponseV;

    open spec fn view(&self) -> ResponseV {
        match self {
            StateSyncResponse::Manifest { state_root, total_len, chunk_len, chunk_hashes } => ResponseV::Manifest(
                state_root@,
                *total_len,
                *chunk_len,
                hashes_view(chunk_hashes@),
            ),
            StateSyncResponse::Chunk { state_root, index, bytes } => ResponseV::Chunk(
                state_root@,
                *index,
                bytes@,
            ),
            StateSyncResponse::Unavailable { state_root } => ResponseV::Unavailable(state_root@),
        }
    }
}

pub open spec fn encode_request_spec(r: RequestV) -> Seq<u8> {
    match r {
        RequestV::Manifest(root) => seq![1u8] + root,
        RequestV::Chunk(root, index) => seq![2u8] + root + le32(index),
    }
}

pub open spec fn decode_request_spec(b: Seq<u8>) -> Option<RequestV> {
    if b.len() == 33 && b[0] == 1 {
        Some(RequestV::Manifest(b.subrange(1, 33)))
    } else if b.len() == 37 && b[0] == 2 {
        Some(RequestV::Chunk(b.subrange(1, 33), u32_at(b, 33) as u32))
    } else {
        None
    }
}

/// Concatenated 32-byte hashes.
pub open spec fn concat_hashes(h: Seq<Seq<u8>>) -> Seq<u8>
    decreases h.len(),
{
    if h.len() == 0 {
        Seq::empty()
    } else {
        concat_hashes(h.drop_last()) + h.last()
    }
}

pub open spec fn encode_response_spec(r: ResponseV) -> Seq<u8> {
    match r {
        ResponseV::Manifest(root, total, chunk_len, hashes) => seq![1u8] + root + le64(total) + le32(
            chunk_len,
        ) + le32(hashes.len() as u32) + concat_hashes(hashes),
        ResponseV::Chunk(root, index, bytes) => seq![2u8] + root + le32(index) + le32(
            bytes.len() as u32,
        ) + bytes,
        ResponseV::Unavailable(root) => seq![3u8] + root,
    }
}

/// The `i`-th 32-byte hash of a manifest body.
pub open spec fn hash_at(b: Seq<u8>, i: int) -> Seq<u8> {
    b.subrange(49 + 32 * i, 49 + 32 * i + 32)
}

pub open spec fn decode_response_spec(b: Seq<u8>) -> Option<ResponseV> {
    if b.len() >= 1 && b[0] == 1 {
        if b.len() >= 49 && u32_at(b, 45) <= MAX_STATE_CHUNKS && b.len() == 49 + 32 * u32_at(b, 45) {
            Some(
                ResponseV::Manifest(
                    b.subrange(1, 33),
                    u64_at(b, 33) as u64,
                    u32_at(b, 41) as u32,
                    Seq::new(u32_at(b, 45), |i: int| hash_at(b, i)),
                ),
            )
        } else {
            None
        }
    } else if b.len() >= 1 && b[0] == 2 {
        if b.len() >= 41 && u32_at(b, 37) <= STATE_CHUNK_LEN && b.len() == 41 + u32_at(b, 37) {
            Some(
                ResponseV::Chunk(
                    b.subrange(1, 33),
                    u32_at(b, 33) as u32,
                    b.subrange(41, b.len() as int),
                ),
            )
        } else {
            None
        }
    } else if b.len() == 33 && b[0] == 3 {
        Some(ResponseV::Unavailable(b.subrange(1, 33)))
    } else {
        None
    }
}

/// Why bytes are not a state-sync request.
pub open spec fn request_refusal(b: Seq<u8>) -> &'static str {
    if b.len() == 0 {
        "truncated input"
    } else if b[0] == 1 {
        if b.len() < 33 {
            "truncated input"
        } else {
            "trailing bytes"
        }
    } else if b[0] == 2 {
        if b.len() < 37 {
            "truncated input"
        } else {
            "trailing bytes"
        }
    } else {
        "unknown state-sync request tag"
    }
}

/// Why bytes are not a state-sync response.
pub open spec fn response_refusal(b: Seq<u8>) -> &'static str {
    if b.len() == 0 {
        "truncated input"
    } else if b[0] == 1 {
        if b.len() >= 49 && u32_at(b, 45) > MAX_STATE_CHUNKS {
            "manifest over the chunk cap"
        } else {
            "truncated input"
        }
    } else if b[0] == 2 {
        if b.len() >= 41 && u32_at(b, 37) > STATE_CHUNK_LEN {
            "chunk over the chunk length"
        } else {
            "truncated input"
        }
    } else if b[0] == 3 {
        if b.len() < 33 {
            "truncated input"
        } else {
            "trailing bytes"
        }
    } else {
        "unknown state-sync response tag"
    }
}

pub fn encode_request(req: &StateSyncRequest) -> (r: Vec<u8>)
    ensures
        r@ == encode_request_spec(req@),
{
    let mut out: Vec<u8> = Vec::new();
    match req {
        StateSyncRequest::Manifest { state_root } => {
            out.push(1u8);
            push_all(&mut out, state_root);
        },
        StateSyncRequest::Chunk { state_root, index } => {
            out.push(2u8);
            push_all(&mut out, state_root);
            push_u32(&mut out, *index);
        },
    }
    proof {
        assert(out@ =~= encode_request_spec(req@));
    }
    out
}

pub fn decode_request(buf: &[u8]) -> (r: Result<StateSyncRequest, DecodeErr>)
    ensures
        match r {
            Ok(req) => decode_request_spec(buf@) == Some(req@),
            Err(e) => decode_request_spec(buf@) is None && e.0 == request_refusal(buf@),
        },
{
    let n = buf.len();
    if n == 0 {
        return Err(DecodeErr("truncated input"));
    }
    let tag = buf[0];
    if tag == 1 {
        if n < 33 {
            return Err(DecodeErr("truncated input"));
        }
        let state_root = read_h32(buf, 1);
        if n != 33 {
            return Err(DecodeErr("trailing bytes"));
        }
        Ok(StateSyncRequest::Manifest { state_root })
    } else if tag == 2 {
        if n < 37 {
            return Err(DecodeErr("truncated input"));
        }
        let state_root = read_h32(buf, 1);
        let index = read_u32(buf, 33);
        if n != 37 {
            return Err(DecodeErr("trailing bytes"));
        }
        Ok(StateSyncRequest::Chunk { state_root, index })
    } else {
        Err(DecodeErr("unknown state-sync request tag"))
    }
}

pub fn encode_response(resp: &StateSyncResponse) -> (r: Vec<u8>)
    requires
        match resp {
            StateSyncResponse::Manifest { chunk_hashes, .. } => chunk_hashes@.len() <= u32::MAX,
            StateSyncResponse::Chunk { bytes, .. } => bytes@.len() <= u32::MAX,
            _ => true,
        },
    ensures
        r@ == encode_response_spec(resp@),
{
    let mut out: Vec<u8> = Vec::new();
    match resp {
        StateSyncResponse::Manifest { state_root, total_len, chunk_len, chunk_hashes } => {
            out.push(1u8);
            push_all(&mut out, state_root);
            push_u64(&mut out, *total_len);
            push_u32(&mut out, *chunk_len);
            push_u32(&mut out, chunk_hashes.len() as u32);
            let ghost pre = out@;
            let ghost hv = hashes_view(chunk_hashes@);
            let n = chunk_hashes.len();
            let mut i: usize = 0;
            while i < n
                invariant
                    i <= n,
                    n == chunk_hashes@.len(),
                    hv == hashes_view(chunk_hashes@),
                    out@ == pre + concat_hashes(hv.subrange(0, i as int)),
                decreases n - i,
            {
                push_all(&mut out, &chunk_hashes[i]);
                proof {
                    let t = hv.subrange(0, i + 1);
                    assert(t.drop_last() =~= hv.subrange(0, i as int));
                    assert(t.last() == chunk_hashes@[i as int]@);
                    assert(out@ =~= pre + concat_hashes(t));
                }
                i = i + 1;
            }
            proof {
                assert(hv.subrange(0, n as int) =~= hv);
                assert(out@ =~= encode_response_spec(resp@));
            }
        },
        StateSyncResponse::Chunk { state_root, index, bytes } => {
            out.push(2u8);
            push_all(&mut out, state_root);
            push_u32(&mut out, *index);
            push_u32(&mut out, bytes.len() as u32);
            push_all(&mut out, bytes.as_slice());
            proof {
                assert(out@ =~= encode_response_spec(resp@));
            }
        },
        StateSyncResponse::Unavailable { state_root } => {
            out.push(3u8);
            push_all(&mut out, state_root);
            proof {
                assert(out@ =~= encode_response_spec(resp@));
            }
        },
    }
    out
}

pub fn decode_response(buf: &[u8]) -> (r: Result<StateSyncResponse, DecodeErr>)
    ensures
        match r {
            Ok(resp) => decode_response_spec(buf@) == Some(resp@),
            Err(e) => decode_response_spec(buf@) is None && e.0 == response_refusal(buf@),
        },
{
    let n = buf.len();
    if n == 0 {
        return Err(DecodeErr("truncated input"));
    }
    let tag = buf[0];
    if tag == 1 {
        if n < 49 {
            return Err(DecodeErr("truncated input"));
        }
        let state_root = read_h32(buf, 1);
        let total_len = read_u64(buf, 33);
        let chunk_len = read_u32(buf, 41);
        let count = read_u32(buf, 45);
        if count > MAX_STATE_CHUNKS {
            return Err(DecodeErr("manifest over the chunk cap"));
        }
        let k = count as usize;
        if (n - 49) / 32 < k || n - 49 != 32 * k {
            return Err(DecodeErr("truncated input"));
        }
        let mut chunk_hashes: Vec<[u8; 32]> = Vec::new();
        let mut i: usize = 0;
        while i < k
            invariant
                i <= k,
                n == buf@.len(),
                n == 49 + 32 * k,
                chunk_hashes@.len() == i,
                forall|j: int| 0 <= j < i ==> #[trigger] chunk_hashes@[j]@ == hash_at(buf@, j),
            decreases k - i,
        {
            chunk_hashes.push(read_h32(buf, 49 + 32 * i));
            i = i + 1;
        }
        let r = StateSyncResponse::Manifest { state_root, total_len, chunk_len, chunk_hashes };
        proof {
            match r@ {
                ResponseV::Manifest(_, _, _, h) => {
                    assert(h =~= Seq::new(u32_at(buf@, 45), |j: int| hash_at(buf@, j)));
                },
                _ => {},
            }
        }
        Ok(r)
    } else if tag == 2 {
        if n < 41 {
            return Err(DecodeErr("truncated input"));
        }
        let state_root = read_h32(buf, 1);
        let index = read_u32(buf, 33);
        let len = read_u32(buf, 37);
        if len > STATE_CHUNK_LEN {
            return Err(DecodeErr("chunk over the chunk length"));
        }
        if n - 41 != len as usize {
            return Err(DecodeErr("truncated input"));
        }
        let bytes = copy_range(buf, 41, len as usize);
        Ok(StateSyncResponse::Chunk { state_root, index, bytes })
    } else if tag == 3 {
        if n < 33 {
            return Err(DecodeErr("truncated input"));
        }
        let state_root = read_h32(buf, 1);
        if n != 33 {
            return Err(DecodeErr("trailing bytes"));
        }
        Ok(StateSyncResponse::Unavailable { state_root })
    } else {
        Err(DecodeErr("unknown state-sync response tag"))
    }
}


/// A request reads back as itself, and nothing may follow it.
pub proof fn lemma_request_round_trip(req: RequestV, junk: Seq<u8>)
    requires
        match req {
            RequestV::Manifest(root) => root.len() == 32,
            RequestV::Chunk(root, _) => root.len() == 32,
        },
    ensures
        decode_request_spec(encode_request_spec(req)) == Some(req),
        junk.len() > 0 ==> decode_request_spec(encode_request_spec(req) + junk) is None,
{
    let b = encode_request_spec(req);
    match req {
        RequestV::Manifest(root) => {
            assert(b.subrange(1, 33) =~= root);
        },
        RequestV::Chunk(root, index) => {
            lemma_le32_roundtrip(index);
            assert(b.subrange(1, 33) =~= root);
            assert(b.subrange(33, 37) =~= le32(index));
        },
    }
    let bj = b + junk;
    assert(bj[0] == b[0]);
}

/// Every hash of a manifest is 32 bytes.
pub open spec fn all_hashes(h: Seq<Seq<u8>>) -> bool {
    forall|i: int| 0 <= i < h.len() ==> #[trigger] h[i].len() == 32
}

proof fn lemma_concat_hashes(h: Seq<Seq<u8>>)
    requires
        all_hashes(h),
    ensures
        concat_hashes(h).len() == 32 * h.len(),
        forall|i: int| 0 <= i < h.len() ==> #[trigger] concat_hashes(h).subrange(32 * i, 32 * i + 32) == h[i],
    decreases h.len(),
{
    if h.len() > 0 {
        let init = h.drop_last();
        assert(all_hashes(init)) by {
            assert forall|i: int| 0 <= i < init.len() implies #[trigger] init[i].len() == 32 by {
                assert(init[i] == h[i]);
            }
        }
        lemma_concat_hashes(init);
        let c = concat_hashes(h);
        assert(c == concat_hashes(init) + h.last());
        assert forall|i: int| 0 <= i < h.len() implies #[trigger] concat_hashes(h).subrange(32 * i, 32 * i + 32) == h[i] by {
            if i < h.len() - 1 {
                assert(c.subrange(32 * i, 32 * i + 32) =~= concat_hashes(init).subrange(32 * i, 32 * i + 32));
                assert(init[i] == h[i]);
            } else {
                assert(c.subrange(32 * i, 32 * i + 32) =~= h.last());
            }
        }
    }
}

/// A response within the caps reads back as itself, and nothing may follow
/// it.
pub proof fn lemma_response_round_trip(resp: ResponseV, junk: Seq<u8>)
    requires
        match resp {
            ResponseV::Manifest(root, _, _, hashes) => root.len() == 32 && all_hashes(hashes)
                && hashes.len() <= MAX_STATE_CHUNKS,
            ResponseV::Chunk(root, _, bytes) => root.len() == 32 && bytes.len() <= STATE_CHUNK_LEN,
            ResponseV::Unavailable(root) => root.len() == 32,
        },
    ensures
        decode_response_spec(encode_response_spec(resp)) == Some(resp),
        junk.len() > 0 ==> decode_response_spec(encode_response_spec(resp) + junk) is None,
{
    let b = encode_response_spec(resp);
    let bj = b + junk;
    assert(bj[0] == b[0]);
    match resp {
        ResponseV::Manifest(root, total, chunk_len, hashes) => {
            lemma_le64_roundtrip(total);
            lemma_le32_roundtrip(chunk_len);
            lemma_le32_roundtrip(hashes.len() as u32);
            lemma_concat_hashes(hashes);
            assert(b.subrange(1, 33) =~= root);
            assert(b.subrange(33, 41) =~= le64(total));
            assert(b.subrange(41, 45) =~= le32(chunk_len));
            assert(b.subrange(45, 49) =~= le32(hashes.len() as u32));
            assert(bj.subrange(45, 49) =~= le32(hashes.len() as u32));
            let c = concat_hashes(hashes);
            assert(b.subrange(49, b.len() as int) =~= c);
            let got = Seq::new(u32_at(b, 45), |i: int| hash_at(b, i));
            assert forall|i: int| 0 <= i < hashes.len() implies #[trigger] got[i] == hashes[i] by {
                assert(hash_at(b, i) =~= c.subrange(32 * i, 32 * i + 32));
            }
            assert(got =~= hashes);
        },
        ResponseV::Chunk(root, index, bytes) => {
            lemma_le32_roundtrip(index);
            lemma_le32_roundtrip(bytes.len() as u32);
            assert(b.subrange(1, 33) =~= root);
            assert(b.subrange(33, 37) =~= le32(index));
            assert(b.subrange(37, 41) =~= le32(bytes.len() as u32));
            assert(bj.subrange(37, 41) =~= le32(bytes.len() as u32));
            assert(b.subrange(41, b.len() as int) =~= bytes);
        },
        ResponseV::Unavailable(root) => {
            assert(b.subrange(1, 33) =~= root);
        },
    }
}


// ── The manifest of an artifact ─────────────────────────────────────────────

/// Chunks an artifact of `len` bytes splits into.
pub open spec fn chunk_count(len: nat) -> nat {
    ((len + 2097151) / 2097152) as nat
}

/// Chunk `i` of `file`.
pub open spec fn chunk_of(file: Seq<u8>, i: int) -> Seq<u8> {
    let start = i * STATE_CHUNK_LEN;
    let end = if start + STATE_CHUNK_LEN <= file.len() {
        start + STATE_CHUNK_LEN
    } else {
        file.len() as int
    };
    file.subrange(start, end)
}

/// The manifest a server sends for `file`, keyed by the state root its
/// boundary header carries.
pub fn manifest_of(file: &[u8], state_root: [u8; 32]) -> (r: StateSyncResponse)
    requires
        file@.len() <= u64::MAX,
    ensures
        r@ == ResponseV::Manifest(
            state_root@,
            file@.len() as u64,
            STATE_CHUNK_LEN,
            Seq::new(chunk_count(file@.len()), |i: int| sha3_256(chunk_of(file@, i))@),
        ),
{
    let n = file.len();
    let c = STATE_CHUNK_LEN as usize;
    let mut chunk_hashes: Vec<[u8; 32]> = Vec::new();
    let mut at: usize = 0;
    let mut i: usize = 0;
    proof {
        if n == 0 {
            assert(chunk_count(0) == 0);
        } else {
            assert(0 < chunk_count(n as nat)) by (nonlinear_arith)
                requires
                    n > 0,
            {
            }
        }
    }
    while at < n
        invariant
            n == file@.len(),
            c == STATE_CHUNK_LEN,
            at <= n,
            at < n ==> at == i * c && i < chunk_count(n as nat),
            at >= n ==> i == chunk_count(n as nat),
            chunk_hashes@.len() == i,
            forall|k: int| 0 <= k < i ==> #[trigger] chunk_hashes@[k]@ == sha3_256(chunk_of(file@, k))@,
        decreases n - at,
    {
        let len = if n - at > c {
            c
        } else {
            n - at
        };
        let piece = copy_range(file, at, len);
        proof {
            assert(piece@ == chunk_of(file@, i as int));
        }
        chunk_hashes.push(sha3(piece.as_slice()));
        let ghost i0 = i as int;
        let ghost nn = n as int;
        at = at + len;
        i = i + 1;
        proof {
            if at < n {
                assert(i0 + 1 < chunk_count(nn as nat)) by (nonlinear_arith)
                    requires
                        (i0 + 1) * 2097152 < nn,
                        0 <= i0,
                {
                }
                assert(at == i * c) by (nonlinear_arith)
                    requires
                        at == i0 * c + c,
                        i == i0 + 1,
                {
                }
            } else {
                assert(i0 + 1 == chunk_count(nn as nat)) by (nonlinear_arith)
                    requires
                        i0 * 2097152 < nn,
                        nn <= i0 * 2097152 + 2097152,
                        0 <= i0,
                {
                }
            }
        }
    }
    let r = StateSyncResponse::Manifest {
        state_root,
        total_len: n as u64,
        chunk_len: STATE_CHUNK_LEN,
        chunk_hashes,
    };
    proof {
        match r@ {
            ResponseV::Manifest(_, _, _, h) => {
                assert(h =~= Seq::new(chunk_count(file@.len()), |k: int| sha3_256(chunk_of(file@, k))@));
            },
            _ => {},
        }
    }
    r
}


/// Where chunk `index` of an artifact of `total` bytes sits and how long it
/// is, or `None` when it starts at or past the end.
pub open spec fn served_span(total: u64, index: u32) -> Option<(u64, u64)> {
    let offset = index * STATE_CHUNK_LEN;
    if offset >= total {
        None
    } else {
        Some(
            (
                offset as u64,
                if total - offset < STATE_CHUNK_LEN {
                    (total - offset) as u64
                } else {
                    STATE_CHUNK_LEN as u64
                },
            ),
        )
    }
}

/// The span a server reads to answer a request for chunk `index` of an
/// artifact of `total` bytes; `None` answers it as unavailable.
pub fn served_chunk(total: u64, index: u32) -> (r: Option<(u64, u64)>)
    ensures
        r == served_span(total, index),
{
    proof {
        assert(index * 2097152 <= 4294967295 * 2097152) by (nonlinear_arith)
            requires
                index <= 4294967295,
        {
        }
    }
    let offset = index as u64 * (STATE_CHUNK_LEN as u64);
    if offset >= total {
        return None;
    }
    let rest = total - offset;
    let len = if rest < STATE_CHUNK_LEN as u64 {
        rest
    } else {
        STATE_CHUNK_LEN as u64
    };
    Some((offset, len))
}

/// Chunks `0..n` of `file`, one after the other.
pub open spec fn chunks_joined(file: Seq<u8>, n: nat) -> Seq<u8>
    decreases n,
{
    if n == 0 {
        Seq::empty()
    } else {
        chunks_joined(file, (n - 1) as nat) + chunk_of(file, n - 1)
    }
}

proof fn lemma_chunks_joined_prefix(file: Seq<u8>, n: nat)
    requires
        n <= chunk_count(file.len()),
    ensures
        chunks_joined(file, n) == file.subrange(0, if n * STATE_CHUNK_LEN <= file.len() {
            n * STATE_CHUNK_LEN
        } else {
            file.len() as int
        }),
    decreases n,
{
    if n == 0 {
        assert(file.subrange(0, 0) =~= Seq::<u8>::empty());
    } else {
        let m = (n - 1) as nat;
        lemma_chunks_joined_prefix(file, m);
        assert(m * 2097152 < file.len()) by (nonlinear_arith)
            requires
                m + 1 <= (file.len() + 2097151) / 2097152,
        {
        }
        assert(n * 2097152 == m * 2097152 + 2097152) by (nonlinear_arith)
            requires
                n == m + 1,
        {
        }
        let start = m * STATE_CHUNK_LEN;
        assert(file.subrange(0, start) + chunk_of(file, m as int) =~= file.subrange(
            0,
            if n * STATE_CHUNK_LEN <= file.len() {
                n * STATE_CHUNK_LEN
            } else {
                file.len() as int
            },
        ));
    }
}

/// The chunks of an artifact, joined in order, are the artifact: what a
/// download assembles from every chunk is the file that was served.
pub proof fn lemma_chunks_reassemble(file: Seq<u8>)
    ensures
        chunks_joined(file, chunk_count(file.len())) == file,
{
    let n = chunk_count(file.len());
    lemma_chunks_joined_prefix(file, n);
    assert(file.len() <= n * 2097152) by (nonlinear_arith)
        requires
            n == (file.len() + 2097151) / 2097152,
    {
    }
    assert(file.subrange(0, file.len() as int) =~= file);
}

/// Every chunk a server reads for a request is the chunk its manifest hashed,
/// and a download that follows that manifest takes it: serving and fetching
/// agree on every chunk of an artifact.
pub proof fn lemma_served_chunk_is_accepted(file: Seq<u8>, index: u32, held: Seq<bool>)
    requires
        file.len() <= u64::MAX,
        index < chunk_count(file.len()),
        held.len() == chunk_count(file.len()),
        !held[index as int],
    ensures
        ({
            let total = file.len() as u64;
            let hashes = Seq::new(chunk_count(file.len()), |i: int| sha3_256(chunk_of(file, i))@);
            &&& served_span(total, index) matches Some((offset, len))
            &&& file.subrange(offset as int, offset + len) == chunk_of(file, index as int)
            &&& chunk_fits(total, hashes, held, index, file.subrange(offset as int, offset + len))
        }),
{
    let total = file.len() as u64;
    assert(index * 2097152 < file.len()) by (nonlinear_arith)
        requires
            index < (file.len() + 2097151) / 2097152,
    {
    }
    let offset = index * STATE_CHUNK_LEN;
    let len: int = if total - offset < STATE_CHUNK_LEN {
        total - offset
    } else {
        STATE_CHUNK_LEN as int
    };
    assert(served_span(total, index) == Some((offset as u64, len as u64)));
    assert(file.subrange(offset, offset + len) =~= chunk_of(file, index as int));
}

// ── The resumable download ──────────────────────────────────────────────────

/// Chunk bookkeeping for one artifact download: the manifest it follows and
/// which chunks are held. The bytes themselves live in a partial file at
/// their final offsets.
pub struct Download {
    state_root: [u8; 32],
    total_len: u64,
    chunk_hashes: Vec<[u8; 32]>,
    have: Vec<bool>,
}

/// The indices of chunks not yet held, from `i` on, at most `limit` of them.
pub open spec fn missing_from(have: Seq<bool>, i: int, limit: nat) -> Seq<u32>
    decreases have.len() - i, limit,
{
    if i < 0 || i >= have.len() || limit == 0 {
        Seq::empty()
    } else if !have[i] {
        seq![i as u32] + missing_from(have, i + 1, (limit - 1) as nat)
    } else {
        missing_from(have, i + 1, limit)
    }
}

/// How many chunks are held.
pub open spec fn held_count(have: Seq<bool>) -> nat
    decreases have.len(),
{
    if have.len() == 0 {
        0
    } else {
        held_count(have.drop_last()) + if have.last() {
            1nat
        } else {
            0nat
        }
    }
}

/// Whether `bytes` is chunk `index` of a download of `total` bytes with the
/// manifest `hashes`, not yet held: exactly the expected length, with the
/// manifest's hash.
pub open spec fn chunk_fits(total: u64, hashes: Seq<Seq<u8>>, held: Seq<bool>, index: u32, bytes: Seq<u8>) -> bool {
    index < held.len() && !held[index as int] && ({
        let offset = index * STATE_CHUNK_LEN;
        let want = if total - offset < STATE_CHUNK_LEN {
            total - offset
        } else {
            STATE_CHUNK_LEN as int
        };
        bytes.len() == want && sha3_256(bytes)@ == hashes[index as int]
    })
}

impl Download {
    pub closed spec fn root(&self) -> Seq<u8> {
        self.state_root@
    }

    pub closed spec fn total(&self) -> u64 {
        self.total_len
    }

    pub closed spec fn hashes(&self) -> Seq<Seq<u8>> {
        hashes_view(self.chunk_hashes@)
    }

    pub closed spec fn held(&self) -> Seq<bool> {
        self.have@
    }

    /// One flag per chunk, and as many chunks as the length needs.
    pub open spec fn wf(&self) -> bool {
        &&& self.held().len() == self.hashes().len()
        &&& self.hashes().len() == chunk_count(self.total() as nat)
        &&& 1 <= self.hashes().len() <= MAX_STATE_CHUNKS
    }

    /// Start (or restart) the download `m` describes. Refuses a manifest whose
    /// shape is impossible or over the size cap.
    pub fn from_manifest(m: &StateSyncResponse) -> (r: Result<Download, &'static str>)
        ensures
            match m@ {
                ResponseV::Manifest(root, total, chunk_len, hashes) => {
                    let ok = chunk_len == STATE_CHUNK_LEN && 1 <= hashes.len() <= MAX_STATE_CHUNKS
                        && hashes.len() == chunk_count(total as nat);
                    &&& ok <==> r is Ok
                    &&& r matches Ok(d) ==> d.wf() && d.root() == root && d.total() == total
                        && d.hashes() == hashes && d.held() == Seq::new(hashes.len(), |i: int| false)
                },
                _ => r is Err,
            },
    {
        match m {
            StateSyncResponse::Manifest { state_root, total_len, chunk_len, chunk_hashes } => {
                if *chunk_len != STATE_CHUNK_LEN {
                    return Err("manifest chunk length is not this protocol's");
                }
                let n = chunk_hashes.len();
                if n == 0 || n > MAX_STATE_CHUNKS as usize {
                    return Err("manifest chunk count out of range");
                }
                let expect = *total_len / (STATE_CHUNK_LEN as u64) + if *total_len % (STATE_CHUNK_LEN as u64) != 0 {
                    1u64
                } else {
                    0u64
                };
                proof {
                    assert(expect == chunk_count(*total_len as nat)) by (nonlinear_arith)
                        requires
                            expect == *total_len / 2097152 + if *total_len % 2097152 != 0 { 1int } else { 0int },
                    {
                    }
                }
                if n as u64 != expect {
                    return Err("manifest chunk count does not match its length");
                }
                let mut hashes: Vec<[u8; 32]> = Vec::new();
                let mut have: Vec<bool> = Vec::new();
                let mut i: usize = 0;
                while i < n
                    invariant
                        i <= n,
                        n == chunk_hashes@.len(),
                        hashes@.len() == i,
                        have@.len() == i,
                        forall|k: int| 0 <= k < i ==> #[trigger] hashes@[k] == chunk_hashes@[k],
                        forall|k: int| 0 <= k < i ==> !#[trigger] have@[k],
                    decreases n - i,
                {
                    hashes.push(chunk_hashes[i]);
                    have.push(false);
                    i = i + 1;
                }
                let d = Download { state_root: *state_root, total_len: *total_len, chunk_hashes: hashes, have };
                proof {
                    assert(d.hashes() =~= hashes_view(chunk_hashes@));
                    assert(d.held() =~= Seq::new(n as nat, |k: int| false));
                }
                Ok(d)
            },
            _ => Err("not a manifest"),
        }
    }

    pub fn state_root(&self) -> (r: [u8; 32])
        ensures
            r@ == self.root(),
    {
        self.state_root
    }

    /// Where chunk `index` sits in the artifact, and how long it is.
    pub fn chunk_span(&self, index: u32) -> (r: (u64, u64))
        requires
            self.wf(),
            index < self.hashes().len(),
        ensures
            r.0 == index * STATE_CHUNK_LEN,
            r.1 == (if self.total() - r.0 < STATE_CHUNK_LEN {
                self.total() - r.0
            } else {
                STATE_CHUNK_LEN as int
            }),
            r.0 + r.1 <= self.total(),
    {
        proof {
            assert(index * 2097152 < self.total_len) by (nonlinear_arith)
                requires
                    index < (self.total_len + 2097151) / 2097152,
                    index >= 0,
            {
            }
        }
        let offset = index as u64 * (STATE_CHUNK_LEN as u64);
        let rest = self.total_len - offset;
        let len = if rest < STATE_CHUNK_LEN as u64 {
            rest
        } else {
            STATE_CHUNK_LEN as u64
        };
        (offset, len)
    }

    /// Chunk indices still needed, in order, at most `limit` of them.
    pub fn missing(&self, limit: usize) -> (r: Vec<u32>)
        requires
            self.wf(),
        ensures
            r@ == missing_from(self.held(), 0, limit as nat),
    {
        let n = self.have.len();
        let mut out: Vec<u32> = Vec::new();
        let mut i: usize = 0;
        let mut left = limit;
        while i < n && left > 0
            invariant
                n == self.have@.len(),
                n <= MAX_STATE_CHUNKS,
                i <= n,
                out@ + missing_from(self.have@, i as int, left as nat) == missing_from(self.have@, 0, limit as nat),
            decreases n - i,
        {
            if !self.have[i] {
                out.push(i as u32);
                left = left - 1;
                proof {
                    assert(out@ + missing_from(self.have@, i + 1, left as nat) =~= missing_from(
                        self.have@,
                        0,
                        limit as nat,
                    ));
                }
            }
            i = i + 1;
        }
        proof {
            assert(missing_from(self.have@, i as int, left as nat) == Seq::<u32>::empty());
            assert(out@ =~= missing_from(self.have@, 0, limit as nat));
        }
        out
    }

    /// Every chunk is held.
    pub fn complete(&self) -> (r: bool)
        ensures
            r == forall|i: int| 0 <= i < self.held().len() ==> #[trigger] self.held()[i],
    {
        let n = self.have.len();
        let mut i: usize = 0;
        while i < n
            invariant
                n == self.have@.len(),
                i <= n,
                forall|k: int| 0 <= k < i ==> #[trigger] self.have@[k],
            decreases n - i,
        {
            if !self.have[i] {
                proof {
                    assert(!self.held()[i as int]);
                }
                return false;
            }
            i = i + 1;
        }
        true
    }

    /// Chunks held, and chunks in all.
    pub fn done_count(&self) -> (r: (usize, usize))
        ensures
            r.0 == held_count(self.held()),
            r.1 == self.held().len(),
    {
        let n = self.have.len();
        let mut held: usize = 0;
        let mut i: usize = 0;
        while i < n
            invariant
                n == self.have@.len(),
                i <= n,
                held == held_count(self.have@.subrange(0, i as int)),
                held <= i,
            decreases n - i,
        {
            proof {
                let t = self.have@.subrange(0, i + 1);
                assert(t.drop_last() =~= self.have@.subrange(0, i as int));
            }
            if self.have[i] {
                held = held + 1;
            }
            i = i + 1;
        }
        proof {
            assert(self.have@.subrange(0, n as int) =~= self.have@);
        }
        (held, n)
    }

    /// Whether `bytes` is chunk `index` as the manifest describes it: a chunk
    /// not yet held, of exactly the expected length, with the manifest's
    /// hash. Anything else is ignored by the caller.
    pub fn chunk_acceptable(&self, index: u32, bytes: &[u8]) -> (r: bool)
        requires
            self.wf(),
        ensures
            r == chunk_fits(self.total(), self.hashes(), self.held(), index, bytes@),
    {
        let i = index as usize;
        if i >= self.have.len() || self.have[i] {
            return false;
        }
        let (_, want) = self.chunk_span(index);
        if bytes.len() as u64 != want {
            return false;
        }
        let h = sha3(bytes);
        let expected = self.chunk_hashes[i];
        let same = range_eq(&h, 0, &expected, 0, 32);
        proof {
            assert(h@.subrange(0, 32) =~= h@);
            assert(expected@.subrange(0, 32) =~= expected@);
        }
        same
    }

    /// Record chunk `index` as held, once its bytes are in the partial file.
    pub fn mark_held(&mut self, index: u32)
        requires
            old(self).wf(),
            index < old(self).held().len(),
        ensures
            final(self).wf(),
            final(self).root() == old(self).root(),
            final(self).total() == old(self).total(),
            final(self).hashes() == old(self).hashes(),
            final(self).held() == old(self).held().update(index as int, true),
    {
        self.have.set(index as usize, true);
    }
}

/// A chunk already held is never among the ones asked for.
pub proof fn lemma_missing_excludes_held(have: Seq<bool>, i: int, limit: nat, k: int)
    requires
        0 <= k < have.len(),
        have.len() <= MAX_STATE_CHUNKS,
        have[k],
    ensures
        !missing_from(have, i, limit).contains(k as u32),
    decreases have.len() - i, limit,
{
    if i < 0 || i >= have.len() || limit == 0 {
    } else if !have[i] {
        lemma_missing_excludes_held(have, i + 1, (limit - 1) as nat, k);
        assert(k as u32 != i as u32) by {
            assert(k != i);
        }
        let rest = missing_from(have, i + 1, (limit - 1) as nat);
        assert(missing_from(have, i, limit) == seq![i as u32] + rest);
        let all = seq![i as u32] + rest;
        assert forall|j: int| 0 <= j < all.len() implies #[trigger] all[j] != k as u32 by {
            if j > 0 {
                assert(all[j] == rest[j - 1]);
                if rest[j - 1] == k as u32 {
                    assert(rest.contains(k as u32));
                }
            }
        }
    } else {
        lemma_missing_excludes_held(have, i + 1, limit, k);
    }
}

/// How many chunks from `i` on are not held.
pub open spec fn unheld_from(have: Seq<bool>, i: int) -> nat
    decreases have.len() - i,
{
    if i < 0 || i >= have.len() {
        0
    } else {
        (if have[i] {
            0nat
        } else {
            1nat
        }) + unheld_from(have, i + 1)
    }
}

pub open spec fn min_nat(a: nat, b: nat) -> nat {
    if a <= b {
        a
    } else {
        b
    }
}

/// What a download asks for next: from `i` on, the first `limit` chunks not
/// held, in increasing order, skipping none. So there are exactly as many as
/// `limit` allows and the missing chunks supply; each is a chunk of the
/// artifact that is not held; and every chunk not held that comes before
/// the last one asked for, or any at all while fewer than `limit` are asked
/// for, is among them.
pub proof fn lemma_missing_is_the_first_unheld(have: Seq<bool>, i: int, limit: nat)
    requires
        0 <= i <= have.len(),
        have.len() <= MAX_STATE_CHUNKS,
    ensures
        ({
            let r = missing_from(have, i, limit);
            &&& r.len() == min_nat(limit, unheld_from(have, i))
            &&& forall|j: int| 0 <= j < r.len() ==> i <= #[trigger] r[j] < have.len() && !have[r[j] as int]
            &&& forall|j: int, k: int| 0 <= j < k < r.len() ==> #[trigger] r[j] < #[trigger] r[k]
            &&& forall|x: int|
                i <= x < have.len() && !have[x] && (r.len() < limit || (r.len() > 0 && x <= r[r.len() - 1]))
                    ==> #[trigger] r.contains(x as u32)
        }),
    decreases have.len() - i,
{
    let r = missing_from(have, i, limit);
    if i >= have.len() {
    } else if limit == 0 {
    } else if !have[i] {
        let rest = missing_from(have, i + 1, (limit - 1) as nat);
        lemma_missing_is_the_first_unheld(have, i + 1, (limit - 1) as nat);
        assert(r == seq![i as u32] + rest);
        assert forall|j: int| 0 <= j < r.len() implies i <= #[trigger] r[j] < have.len() && !have[r[j] as int] by {
            if j > 0 {
                assert(r[j] == rest[j - 1]);
            }
        }
        assert forall|j: int, k: int| 0 <= j < k < r.len() implies #[trigger] r[j] < #[trigger] r[k] by {
            assert(r[k] == rest[k - 1]);
            if j > 0 {
                assert(r[j] == rest[j - 1]);
            }
        }
        assert forall|x: int|
            i <= x < have.len() && !have[x] && (r.len() < limit || (r.len() > 0 && x <= r[r.len() - 1])) implies
            #[trigger] r.contains(x as u32) by {
            if x == i {
                assert(r[0] == x as u32);
            } else {
                if rest.len() > 0 {
                    assert(r[r.len() - 1] == rest[rest.len() - 1]);
                }
                assert(rest.contains(x as u32));
                let k = choose|k: int| 0 <= k < rest.len() && rest[k] == x as u32;
                assert(r[k + 1] == x as u32);
            }
        }
    } else {
        lemma_missing_is_the_first_unheld(have, i + 1, limit);
        assert(r == missing_from(have, i + 1, limit));
    }
}

} // verus!
