//! Little-endian integer framing, the one byte discipline every record and
//! wire message in this crate is built from.
use vstd::prelude::*;

verus! {

/// `256^n`.
pub open spec fn pow256(n: nat) -> nat
    decreases n,
{
    if n == 0 {
        1
    } else {
        256 * pow256((n - 1) as nat)
    }
}

/// The low `n` bytes of `v`, least significant first.
pub open spec fn le_bytes(v: nat, n: nat) -> Seq<u8>
    decreases n,
{
    if n == 0 {
        Seq::empty()
    } else {
        seq![(v % 256) as u8] + le_bytes(v / 256, (n - 1) as nat)
    }
}

/// The number a little-endian byte string denotes.
pub open spec fn le_value(s: Seq<u8>) -> nat
    decreases s.len(),
{
    if s.len() == 0 {
        0
    } else {
        s[0] as nat + 256 * le_value(s.drop_first())
    }
}

pub open spec fn le32(v: u32) -> Seq<u8> {
    le_bytes(v as nat, 4)
}

pub open spec fn le64(v: u64) -> Seq<u8> {
    le_bytes(v as nat, 8)
}

pub proof fn lemma_pow256_positive(n: nat)
    ensures
        pow256(n) >= 1,
    decreases n,
{
    if n > 0 {
        lemma_pow256_positive((n - 1) as nat);
    }
}

pub proof fn lemma_pow256_values()
    ensures
        pow256(1) == 256,
        pow256(2) == 65536,
        pow256(4) == 0x1_0000_0000,
        pow256(8) == 0x1_0000_0000_0000_0000,
{
    reveal_with_fuel(pow256, 9);
}

pub proof fn lemma_le_bytes_len(v: nat, n: nat)
    ensures
        le_bytes(v, n).len() == n,
    decreases n,
{
    if n > 0 {
        lemma_le_bytes_len(v / 256, (n - 1) as nat);
    }
}

pub proof fn lemma_le_value_bound(s: Seq<u8>)
    ensures
        le_value(s) < pow256(s.len()),
    decreases s.len(),
{
    if s.len() > 0 {
        lemma_le_value_bound(s.drop_first());
        let r = le_value(s.drop_first());
        assert(r + 1 <= pow256((s.len() - 1) as nat));
        assert(256 * r + 256 <= 256 * pow256((s.len() - 1) as nat)) by (nonlinear_arith)
            requires
                r + 1 <= pow256((s.len() - 1) as nat),
        ;
    }
}

/// Decoding undoes encoding, for every value that fits.
pub proof fn lemma_le_roundtrip_value(v: nat, n: nat)
    requires
        v < pow256(n),
    ensures
        le_value(le_bytes(v, n)) == v,
    decreases n,
{
    if n > 0 {
        let rest = le_bytes(v / 256, (n - 1) as nat);
        let p = pow256((n - 1) as nat);
        assert(v / 256 < p) by (nonlinear_arith)
            requires
                v < 256 * p,
        ;
        lemma_le_roundtrip_value(v / 256, (n - 1) as nat);
        let s = le_bytes(v, n);
        assert(s.drop_first() =~= rest);
        assert(v == v % 256 + 256 * (v / 256)) by (nonlinear_arith);
    } else {
        assert(v == 0);
    }
}

/// Encoding undoes decoding: a byte string is its own value's encoding.
pub proof fn lemma_le_roundtrip_bytes(s: Seq<u8>)
    ensures
        le_bytes(le_value(s), s.len()) == s,
    decreases s.len(),
{
    if s.len() > 0 {
        let r = le_value(s.drop_first());
        lemma_le_roundtrip_bytes(s.drop_first());
        let v = s[0] as nat + 256 * r;
        assert(v % 256 == s[0] as nat && v / 256 == r) by (nonlinear_arith)
            requires
                v == s[0] as nat + 256 * r,
                s[0] < 256,
        ;
        assert(le_bytes(v, s.len()) =~= s);
    } else {
        assert(le_bytes(0, 0) =~= s);
    }
}

pub proof fn lemma_le32_roundtrip(v: u32)
    ensures
        le32(v).len() == 4,
        le_value(le32(v)) == v,
{
    lemma_pow256_values();
    lemma_le_bytes_len(v as nat, 4);
    lemma_le_roundtrip_value(v as nat, 4);
}

pub proof fn lemma_le64_roundtrip(v: u64)
    ensures
        le64(v).len() == 8,
        le_value(le64(v)) == v,
{
    lemma_pow256_values();
    lemma_le_bytes_len(v as nat, 8);
    lemma_le_roundtrip_value(v as nat, 8);
}

/// Append the low `n` bytes of `v`, least significant first.
pub fn push_le(out: &mut Vec<u8>, v: u64, n: usize)
    requires
        n <= 8,
    ensures
        final(out)@ == old(out)@ + le_bytes(v as nat, n as nat),
{
    let mut x = v;
    let mut i: usize = 0;
    while i < n
        invariant
            i <= n,
            out@ + le_bytes(x as nat, (n - i) as nat) == old(out)@ + le_bytes(v as nat, n as nat),
        decreases n - i,
    {
        let ghost before = out@;
        let ghost k = (n - i) as nat;
        out.push((x % 256) as u8);
        proof {
            assert(le_bytes(x as nat, k) == seq![(x as nat % 256) as u8] + le_bytes(
                x as nat / 256,
                (k - 1) as nat,
            ));
            assert(out@ + le_bytes((x / 256) as nat, (k - 1) as nat) =~= before + le_bytes(
                x as nat,
                k,
            ));
        }
        x = x / 256;
        i = i + 1;
    }
    proof {
        assert(out@ + le_bytes(x as nat, 0) =~= out@);
    }
}

pub fn push_u32(out: &mut Vec<u8>, v: u32)
    ensures
        final(out)@ == old(out)@ + le32(v),
{
    push_le(out, v as u64, 4);
}

pub fn push_u64(out: &mut Vec<u8>, v: u64)
    ensures
        final(out)@ == old(out)@ + le64(v),
{
    push_le(out, v, 8);
}

/// Append every byte of `bytes`.
pub fn push_all(out: &mut Vec<u8>, bytes: &[u8])
    ensures
        final(out)@ == old(out)@ + bytes@,
{
    let mut i: usize = 0;
    while i < bytes.len()
        invariant
            i <= bytes@.len(),
            out@ == old(out)@ + bytes@.subrange(0, i as int),
        decreases bytes@.len() - i,
    {
        out.push(bytes[i]);
        proof {
            assert(bytes@.subrange(0, i + 1) =~= bytes@.subrange(0, i as int).push(bytes@[i as int]));
        }
        i = i + 1;
    }
    proof {
        assert(bytes@.subrange(0, bytes@.len() as int) =~= bytes@);
    }
}

/// The value of the `n` bytes of `b` at `at`, read little-endian.
pub fn read_le(b: &[u8], at: usize, n: usize) -> (r: u64)
    requires
        n <= 8,
        at + n <= b@.len(),
    ensures
        r as nat == le_value(b@.subrange(at as int, at + n)),
{
    proof {
        lemma_pow256_values();
    }
    let blen = b.len();
    let mut v: u64 = 0;
    let mut i: usize = n;
    while i > 0
        invariant
            i <= n <= 8,
            b@.len() == blen,
            at + n <= b@.len(),
            v as nat == le_value(b@.subrange(at + i, at + n)),
            (v as nat) < pow256((n - i) as nat),
            pow256(8) == 0x1_0000_0000_0000_0000,
        decreases i,
    {
        let ghost s = b@.subrange(at + i - 1, at + n);
        proof {
            assert(s.drop_first() =~= b@.subrange(at + i, at + n));
            lemma_pow256_mono((n - i + 1) as nat, 8);
            assert(pow256((n - i + 1) as nat) == 256 * pow256((n - i) as nat));
            assert((v as nat) * 256 + 255 < pow256((n - i + 1) as nat)) by (nonlinear_arith)
                requires
                    (v as nat) < pow256((n - i) as nat),
                    pow256((n - i + 1) as nat) == 256 * pow256((n - i) as nat),
            ;
        }
        v = v * 256 + b[at + i - 1] as u64;
        i = i - 1;
    }
    v
}

pub proof fn lemma_pow256_mono(a: nat, b: nat)
    requires
        a <= b,
    ensures
        pow256(a) <= pow256(b),
    decreases b,
{
    if a < b {
        lemma_pow256_mono(a, (b - 1) as nat);
        lemma_pow256_positive((b - 1) as nat);
    }
}

pub fn read_u32(b: &[u8], at: usize) -> (r: u32)
    requires
        at + 4 <= b@.len(),
    ensures
        le32(r) == b@.subrange(at as int, at + 4),
        r as nat == le_value(b@.subrange(at as int, at + 4)),
{
    let v = read_le(b, at, 4);
    proof {
        lemma_pow256_values();
        lemma_le_value_bound(b@.subrange(at as int, at + 4));
        lemma_le_roundtrip_bytes(b@.subrange(at as int, at + 4));
    }
    v as u32
}

pub fn read_u64(b: &[u8], at: usize) -> (r: u64)
    requires
        at + 8 <= b@.len(),
    ensures
        le64(r) == b@.subrange(at as int, at + 8),
        r as nat == le_value(b@.subrange(at as int, at + 8)),
{
    let v = read_le(b, at, 8);
    proof {
        lemma_le_roundtrip_bytes(b@.subrange(at as int, at + 8));
    }
    v
}

/// A 32-byte digest or identifier copied out of `b` at `at`.
pub fn read_h32(b: &[u8], at: usize) -> (r: [u8; 32])
    requires
        at + 32 <= b@.len(),
    ensures
        r@ == b@.subrange(at as int, at + 32),
{
    let blen = b.len();
    let mut out = [0u8; 32];
    let mut i: usize = 0;
    while i < 32
        invariant
            i <= 32,
            b@.len() == blen,
            at + 32 <= b@.len(),
            forall|j: int| 0 <= j < i ==> out@[j] == b@[at + j],
        decreases 32 - i,
    {
        out[i] = b[at + i];
        i = i + 1;
    }
    proof {
        assert(out@ =~= b@.subrange(at as int, at + 32));
    }
    out
}

/// Copy `len` bytes of `b` at `at` into a fresh vector.
pub fn copy_range(b: &[u8], at: usize, len: usize) -> (r: Vec<u8>)
    requires
        at + len <= b@.len(),
    ensures
        r@ == b@.subrange(at as int, at + len),
{
    let blen = b.len();
    let mut out: Vec<u8> = Vec::with_capacity(len);
    let mut i: usize = 0;
    while i < len
        invariant
            i <= len,
            b@.len() == blen,
            at + len <= b@.len(),
            out@ == b@.subrange(at as int, at + i),
        decreases len - i,
    {
        out.push(b[at + i]);
        proof {
            assert(b@.subrange(at as int, at + i + 1) =~= b@.subrange(at as int, at + i).push(
                b@[at + i],
            ));
        }
        i = i + 1;
    }
    out
}

/// Byte-wise equality of two ranges.
pub fn range_eq(a: &[u8], a_at: usize, b: &[u8], b_at: usize, len: usize) -> (r: bool)
    requires
        a_at + len <= a@.len(),
        b_at + len <= b@.len(),
    ensures
        r == (a@.subrange(a_at as int, a_at + len) == b@.subrange(b_at as int, b_at + len)),
{
    let alen = a.len();
    let blen = b.len();
    let mut i: usize = 0;
    while i < len
        invariant
            i <= len,
            a@.len() == alen,
            b@.len() == blen,
            a_at + len <= a@.len(),
            b_at + len <= b@.len(),
            a@.subrange(a_at as int, a_at + i) == b@.subrange(b_at as int, b_at + i),
        decreases len - i,
    {
        if a[a_at + i] != b[b_at + i] {
            proof {
                assert(a@.subrange(a_at as int, a_at + len)[i as int] != b@.subrange(
                    b_at as int,
                    b_at + len,
                )[i as int]);
            }
            return false;
        }
        proof {
            assert(a@.subrange(a_at as int, a_at + i + 1) =~= a@.subrange(a_at as int, a_at + i).push(a@[a_at + i]));
            assert(b@.subrange(b_at as int, b_at + i + 1) =~= b@.subrange(b_at as int, b_at + i).push(b@[b_at + i]));
        }
        i = i + 1;
    }
    true
}

} // verus!
