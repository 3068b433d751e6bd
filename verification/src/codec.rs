//! The byte discipline of every wire message: fixed order, little-endian,
//! length-prefixed variable fields, and decoders that refuse trailing bytes.
use vstd::prelude::*;
use crate::bytes::{
    copy_range, le32, le_bytes, le_value, lemma_le32_roundtrip, lemma_le_bytes_len, push_all,
    push_u32, read_u32,
};

verus! {

broadcast use vstd::std_specs::vec::group_vec_axioms;

/// Largest variable-length field any decoder accepts.
pub const MAX_FIELD_LEN: usize = 8388608;

/// Why bytes did not decode.
#[derive(Clone, Copy, Debug, PartialEq, Eq)]
pub struct DecodeErr(pub &'static str);

impl DecodeErr {
    /// The reason, for a log line or an error message.
    pub fn reason(&self) -> (r: &'static str)
        ensures
            r == self.0,
    {
        self.0
    }
}

/// The `u32` stored little-endian at `at`.
pub open spec fn u32_at(b: Seq<u8>, at: int) -> nat {
    le_value(b.subrange(at, at + 4))
}

/// The `u64` stored little-endian at `at`.
pub open spec fn u64_at(b: Seq<u8>, at: int) -> nat {
    le_value(b.subrange(at, at + 8))
}

/// One length-prefixed field.
pub open spec fn framed(item: Seq<u8>) -> Seq<u8> {
    le32(item.len() as u32) + item
}

/// A list of length-prefixed fields, back to back.
pub open spec fn framed_all(items: Seq<Seq<u8>>) -> Seq<u8>
    decreases items.len(),
{
    if items.len() == 0 {
        Seq::empty()
    } else {
        framed_all(items.drop_last()) + framed(items.last())
    }
}

/// Every field fits the decoders' cap.
pub open spec fn fields_fit(items: Seq<Seq<u8>>) -> bool {
    forall|i: int| 0 <= i < items.len() ==> #[trigger] items[i].len() <= MAX_FIELD_LEN
}

/// `k` length-prefixed fields read from `at`: the fields and where they end.
pub open spec fn parse_fields(b: Seq<u8>, at: int, k: nat) -> Option<(Seq<Seq<u8>>, int)>
    decreases k,
{
    if k == 0 {
        Some((Seq::empty(), at))
    } else {
        match parse_fields(b, at, (k - 1) as nat) {
            None => None,
            Some((items, end)) => if 0 <= end && end + 4 <= b.len() && u32_at(b, end)
                <= MAX_FIELD_LEN && end + 4 + u32_at(b, end) <= b.len() {
                let len = u32_at(b, end) as int;
                Some((items.push(b.subrange(end + 4, end + 4 + len)), end + 4 + len))
            } else {
                None
            },
        }
    }
}

/// Append one length-prefixed field.
pub fn put_bytes(out: &mut Vec<u8>, bytes: &[u8])
    requires
        bytes@.len() <= u32::MAX,
    ensures
        final(out)@ == old(out)@ + framed(bytes@),
{
    push_u32(out, bytes.len() as u32);
    push_all(out, bytes);
    proof {
        assert(final(out)@ =~= old(out)@ + framed(bytes@)) by {
        }
    }
}

/// Read `k` length-prefixed fields starting at `at`.
pub fn read_fields(b: &[u8], at: usize, k: u32) -> (r: Option<(Vec<Vec<u8>>, usize)>)
    requires
        at <= b@.len(),
    ensures
        match r {
            Some((items, end)) => parse_fields(b@, at as int, k as nat) matches Some((v, e))
                && e == end && v.len() == items@.len() && forall|i: int|
                0 <= i < v.len() ==> #[trigger] v[i] == items@[i]@,
            None => parse_fields(b@, at as int, k as nat) is None,
        },
{
    let n = b.len();
    let mut items: Vec<Vec<u8>> = Vec::new();
    let mut pos = at;
    let mut i: u32 = 0;
    let ghost mut v: Seq<Seq<u8>> = Seq::empty();
    while i < k
        invariant
            n == b@.len(),
            i <= k,
            pos <= n,
            parse_fields(b@, at as int, i as nat) == Some((v, pos as int)),
            v.len() == items@.len(),
            forall|j: int| 0 <= j < v.len() ==> #[trigger] v[j] == items@[j]@,
        decreases k - i,
    {
        if n - pos < 4 {
            proof {
                lemma_parse_fields_none(b@, at as int, (i + 1) as nat, k as nat);
            }
            return None;
        }
        let len = read_u32(b, pos) as usize;
        if len > MAX_FIELD_LEN || n - pos - 4 < len {
            proof {
                lemma_parse_fields_none(b@, at as int, (i + 1) as nat, k as nat);
            }
            return None;
        }
        let item = copy_range(b, pos + 4, len);
        proof {
            v = v.push(item@);
        }
        items.push(item);
        pos = pos + 4 + len;
        i = i + 1;
    }
    Some((items, pos))
}

/// A failure to read the first `j` fields is a failure to read `k ≥ j`.
pub proof fn lemma_parse_fields_none(b: Seq<u8>, at: int, j: nat, k: nat)
    requires
        j <= k,
        parse_fields(b, at, j) is None,
    ensures
        parse_fields(b, at, k) is None,
    decreases k - j,
{
    if j < k {
        lemma_parse_fields_none(b, at, j + 1, k);
    }
}

/// Reading back fields written one after another, with anything before and
/// after them, gives the fields and the position just past them.
pub proof fn lemma_parse_framed(pre: Seq<u8>, items: Seq<Seq<u8>>, suf: Seq<u8>)
    requires
        fields_fit(items),
    ensures
        parse_fields(pre + framed_all(items) + suf, pre.len() as int, items.len()) == Some(
            (items, (pre.len() + framed_all(items).len()) as int),
        ),
    decreases items.len(),
{
    let b = pre + framed_all(items) + suf;
    if items.len() == 0 {
        assert(items =~= Seq::<Seq<u8>>::empty());
        assert(framed_all(items) =~= Seq::<u8>::empty());
    } else {
        let init = items.drop_last();
        let last = items.last();
        assert(fields_fit(init)) by {
            assert forall|i: int| 0 <= i < init.len() implies #[trigger] init[i].len() <= MAX_FIELD_LEN by {
                assert(init[i] == items[i]);
            }
        }
        assert(items[items.len() - 1] == last);
        let rest = framed(last) + suf;
        assert(b =~= pre + framed_all(init) + rest);
        lemma_parse_framed(pre, init, rest);
        let end: int = pre.len() + framed_all(init).len() as int;
        lemma_le32_roundtrip(last.len() as u32);
        assert(b.subrange(end, end + 4) =~= le32(last.len() as u32));
        assert(u32_at(b, end) == last.len());
        assert(b.subrange(end + 4, end + 4 + last.len() as int) =~= last);
        assert(init.push(last) =~= items);
    }
}

} // verus!
