//! Character-level helpers shared by the JSON and interchange formats:
//! decimal and hexadecimal rendering and parsing.
use vstd::prelude::*;
use vstd::string::StringExecFns;

verus! {

broadcast use vstd::string::group_string_axioms;

/// `String::push` appends one character.
pub assume_specification[ String::push ](s: &mut String, ch: char)
    ensures
        final(s)@ == old(s)@.push(ch),
;

/// `char::from_u32`: the character with that code point, or `None` for a
/// surrogate or a value past `0x10FFFF`.
pub assume_specification[ char::from_u32 ](i: u32) -> (r: Option<char>)
    ensures
        r == (if (i <= 0xD7FF || (0xE000 <= i && i <= 0x10FFFF)) {
            Some(i as char)
        } else {
            None
        }),
;

/// The characters of `s`, in order.
pub fn chars_of(s: &str) -> (r: Vec<char>)
    ensures
        r@ == s@,
{
    let mut out: Vec<char> = Vec::new();
    for c in it: s.chars()
        invariant
            out@ == it.seq().take(it.index() as int),
    {
        out.push(c);
    }
    out
}

/// A string holding exactly `s`.
pub fn string_of(s: &str) -> (r: String)
    ensures
        r@ == s@,
{
    let mut out = String::new();
    out.append(s);
    out
}

/// Append a string slice.
pub fn push_str(out: &mut String, s: &str)
    ensures
        final(out)@ == old(out)@ + s@,
{
    out.append(s);
}

// ── Decimal ─────────────────────────────────────────────────────────────────

pub open spec fn is_digit(c: char) -> bool {
    '0' <= c && c <= '9'
}

pub open spec fn digit_value(c: char) -> nat {
    (c as u32 - '0' as u32) as nat
}

pub open spec fn digit_char(d: nat) -> char
    recommends
        d < 10,
{
    (d + 48) as char
}

/// The decimal rendering of `n`: no sign, no leading zeros.
pub open spec fn decimal(n: nat) -> Seq<char>
    decreases n,
{
    if n < 10 {
        seq![digit_char(n)]
    } else {
        decimal(n / 10) + seq![digit_char(n % 10)]
    }
}

/// The value of a string of decimal digits.
pub open spec fn digits_value(s: Seq<char>) -> nat
    decreases s.len(),
{
    if s.len() == 0 {
        0
    } else {
        10 * digits_value(s.drop_last()) + digit_value(s.last())
    }
}

pub open spec fn all_digits(s: Seq<char>) -> bool {
    forall|i: int| 0 <= i < s.len() ==> is_digit(#[trigger] s[i])
}

/// What `str::parse::<u64>` accepts: an optional single `+`, then at least one
/// ASCII digit, with a value that fits in 64 bits. Leading zeros are allowed.
pub open spec fn parse_u64_spec(s: Seq<char>) -> Option<u64> {
    let body = if s.len() > 0 && s[0] == '+' {
        s.drop_first()
    } else {
        s
    };
    if body.len() > 0 && all_digits(body) && digits_value(body) <= u64::MAX {
        Some(digits_value(body) as u64)
    } else {
        None
    }
}

fn push_digit(out: &mut String, d: u64)
    requires
        d < 10,
    ensures
        final(out)@ == old(out)@.push(digit_char(d as nat)),
{
    let c: char = if d == 0 {
        '0'
    } else if d == 1 {
        '1'
    } else if d == 2 {
        '2'
    } else if d == 3 {
        '3'
    } else if d == 4 {
        '4'
    } else if d == 5 {
        '5'
    } else if d == 6 {
        '6'
    } else if d == 7 {
        '7'
    } else if d == 8 {
        '8'
    } else {
        '9'
    };
    out.push(c);
}

/// Append the decimal rendering of `n`.
pub fn push_decimal_u64(out: &mut String, n: u64)
    ensures
        final(out)@ == old(out)@ + decimal(n as nat),
    decreases n,
{
    if n >= 10 {
        push_decimal_u64(out, n / 10);
    }
    push_digit(out, n % 10);
    proof {
        if n < 10 {
            assert(n % 10 == n);
        }
        assert(final(out)@ =~= old(out)@ + decimal(n as nat)) by {
            if n >= 10 {
                assert(decimal(n as nat) == decimal((n / 10) as nat) + seq![digit_char((n % 10) as nat)]);
            }
        }
    }
}

/// Append the decimal rendering of a 128-bit `n`.
pub fn push_decimal_u128(out: &mut String, n: u128)
    ensures
        final(out)@ == old(out)@ + decimal(n as nat),
    decreases n,
{
    if n >= 10 {
        push_decimal_u128(out, n / 10);
    }
    push_digit(out, (n % 10) as u64);
    proof {
        if n < 10 {
            assert(n % 10 == n);
        }
        assert(final(out)@ =~= old(out)@ + decimal(n as nat)) by {
            if n >= 10 {
                assert(decimal(n as nat) == decimal((n / 10) as nat) + seq![digit_char((n % 10) as nat)]);
            }
        }
    }
}

/// The decimal rendering of `n`, as a new string.
pub fn u64_to_decimal(n: u64) -> (r: String)
    ensures
        r@ == decimal(n as nat),
{
    let mut s = String::new();
    push_decimal_u64(&mut s, n);
    proof {
        assert(s@ =~= decimal(n as nat));
    }
    s
}

/// The decimal rendering of a 128-bit `n`, as a new string.
pub fn u128_to_decimal(n: u128) -> (r: String)
    ensures
        r@ == decimal(n as nat),
{
    let mut s = String::new();
    push_decimal_u128(&mut s, n);
    proof {
        assert(s@ =~= decimal(n as nat));
    }
    s
}

/// `str::parse::<u64>`, over characters.
pub fn parse_u64_chars(s: &Vec<char>) -> (r: Option<u64>)
    ensures
        r == parse_u64_spec(s@),
{
    let n = s.len();
    let start: usize = if n > 0 && s[0] == '+' {
        1
    } else {
        0
    };
    let ghost body = if s@.len() > 0 && s@[0] == '+' {
        s@.drop_first()
    } else {
        s@
    };
    proof {
        assert(body =~= s@.subrange(start as int, n as int));
    }
    if start >= n {
        return None;
    }
    let mut v: u64 = 0;
    let mut i: usize = start;
    while i < n
        invariant
            start <= i <= n,
            n == s@.len(),
            body == s@.subrange(start as int, n as int),
            body == (if s@.len() > 0 && s@[0] == '+' {
                s@.drop_first()
            } else {
                s@
            }),
            all_digits(s@.subrange(start as int, i as int)),
            v as nat == digits_value(s@.subrange(start as int, i as int)),
        decreases n - i,
    {
        let c = s[i];
        let ghost pre = s@.subrange(start as int, i as int);
        let ghost next = s@.subrange(start as int, i + 1);
        proof {
            assert(next.drop_last() =~= pre);
            assert(next.last() == c);
        }
        if !('0' <= c && c <= '9') {
            proof {
                assert(body[i - start] == c);
                assert(!is_digit(body[i - start]));
                assert(!all_digits(body));
            }
            return None;
        }
        let d = (c as u32 - '0' as u32) as u64;
        if v > (u64::MAX - d) / 10 {
            proof {
                lemma_digits_value_prefix_mono(body, (i + 1 - start) as int);
                assert(next =~= body.subrange(0, i + 1 - start));
                assert(digit_value(next.last()) == d);
                assert(digits_value(next) == 10 * digits_value(pre) + digit_value(next.last()));
                assert(digits_value(next) == 10 * v + d);
                assert(10 * v + d > u64::MAX) by (nonlinear_arith)
                    requires
                        v > (u64::MAX - d) / 10,
                        d < 10,
                ;
            }
            return None;
        }
        v = v * 10 + d;
        proof {
            assert(all_digits(next)) by {
                assert forall|j: int| 0 <= j < next.len() implies is_digit(#[trigger] next[j]) by {
                    if j < pre.len() {
                        assert(next[j] == pre[j]);
                    }
                }
            }
        }
        i = i + 1;
    }
    Some(v)
}

/// A longer digit prefix never denotes a smaller number.
pub proof fn lemma_digits_value_prefix_mono(s: Seq<char>, k: int)
    requires
        0 <= k <= s.len(),
    ensures
        digits_value(s.subrange(0, k)) <= digits_value(s),
    decreases s.len() - k,
{
    if k < s.len() {
        lemma_digits_value_prefix_mono(s, k + 1);
        let t = s.subrange(0, k + 1);
        assert(t.drop_last() =~= s.subrange(0, k));
        assert(digits_value(t) == 10 * digits_value(s.subrange(0, k)) + digit_value(t.last()));
    } else {
        assert(s.subrange(0, k) =~= s);
    }
}

// ── Hexadecimal ─────────────────────────────────────────────────────────────

/// The lowercase hex digit for `d < 16`.
pub open spec fn hex_digit(d: nat) -> char
    recommends
        d < 16,
{
    if d < 10 {
        (d + 48) as char
    } else {
        (d + 87) as char
    }
}

/// Lowercase hex of a byte string, two digits per byte.
pub open spec fn hex_chars(b: Seq<u8>) -> Seq<char>
    decreases b.len(),
{
    if b.len() == 0 {
        Seq::empty()
    } else {
        hex_chars(b.drop_last()) + seq![
            hex_digit((b.last() / 16) as nat),
            hex_digit((b.last() % 16) as nat),
        ]
    }
}

/// `char::to_digit(16)`: both cases of `a`–`f`.
pub open spec fn hex_value(c: char) -> Option<nat> {
    if '0' <= c && c <= '9' {
        Some((c as u32 - 48) as nat)
    } else if 'a' <= c && c <= 'f' {
        Some((c as u32 - 87) as nat)
    } else if 'A' <= c && c <= 'F' {
        Some((c as u32 - 55) as nat)
    } else {
        None
    }
}

pub fn hex_digit_char(d: u8) -> (c: char)
    requires
        d < 16,
    ensures
        c == hex_digit(d as nat),
{
    if d < 10 {
        ((d + 48) as u8) as char
    } else {
        ((d + 87) as u8) as char
    }
}

pub fn hex_value_of(c: char) -> (r: Option<u8>)
    ensures
        r matches Some(v) ==> hex_value(c) == Some(v as nat) && v < 16,
        r is None ==> hex_value(c) is None,
{
    if '0' <= c && c <= '9' {
        Some((c as u32 - 48) as u8)
    } else if 'a' <= c && c <= 'f' {
        Some((c as u32 - 87) as u8)
    } else if 'A' <= c && c <= 'F' {
        Some((c as u32 - 55) as u8)
    } else {
        None
    }
}

/// Append the lowercase hex of `b`.
pub fn push_hex(out: &mut String, b: &[u8])
    ensures
        final(out)@ == old(out)@ + hex_chars(b@),
{
    let n = b.len();
    let mut i: usize = 0;
    while i < n
        invariant
            i <= n,
            n == b@.len(),
            out@ == old(out)@ + hex_chars(b@.subrange(0, i as int)),
        decreases n - i,
    {
        let x = b[i];
        out.push(hex_digit_char(x / 16));
        out.push(hex_digit_char(x % 16));
        proof {
            let t = b@.subrange(0, i + 1);
            assert(t.drop_last() =~= b@.subrange(0, i as int));
            assert(t.last() == x);
            assert(out@ =~= old(out)@ + hex_chars(t));
        }
        i = i + 1;
    }
    proof {
        assert(b@.subrange(0, n as int) =~= b@);
    }
}

/// Lowercase hex of `b`, as a new string.
pub fn hex_string(b: &[u8]) -> (r: String)
    ensures
        r@ == hex_chars(b@),
{
    let mut s = String::new();
    push_hex(&mut s, b);
    proof {
        assert(s@ =~= hex_chars(b@));
    }
    s
}

/// The bytes a string of hex digit pairs denotes, if it is one.
pub open spec fn unhex_pairs(s: Seq<char>) -> Option<Seq<u8>>
    decreases s.len(),
{
    if s.len() == 0 {
        Some(Seq::empty())
    } else if s.len() == 1 {
        None
    } else {
        match (unhex_pairs(s.subrange(0, s.len() - 2)), hex_value(s[s.len() - 2]), hex_value(s[s.len() - 1])) {
            (Some(b), Some(hi), Some(lo)) => Some(b.push((hi * 16 + lo) as u8)),
            _ => None,
        }
    }
}

/// `from_hex`: an optional `0x`, then hex digit pairs of either case; `None`
/// for an odd length, a non-hex character or any non-ASCII character.
pub open spec fn from_hex_spec(s: Seq<char>) -> Option<Seq<u8>> {
    let body = if s.len() >= 2 && s[0] == '0' && s[1] == 'x' {
        s.subrange(2, s.len() as int)
    } else {
        s
    };
    unhex_pairs(body)
}

pub proof fn lemma_unhex_len(s: Seq<char>)
    ensures
        unhex_pairs(s) matches Some(b) ==> s.len() == 2 * b.len(),
    decreases s.len(),
{
    if s.len() >= 2 {
        lemma_unhex_len(s.subrange(0, s.len() - 2));
    }
}

/// Decode hex digit pairs from `chars[start..]`.
pub fn unhex_from(chars: &Vec<char>, start: usize) -> (r: Option<Vec<u8>>)
    requires
        start <= chars@.len(),
    ensures
        r matches Some(v) ==> unhex_pairs(chars@.subrange(start as int, chars@.len() as int)) == Some(v@),
        r is None ==> unhex_pairs(chars@.subrange(start as int, chars@.len() as int)) is None,
{
    let n = chars.len();
    let ghost body = chars@.subrange(start as int, n as int);
    if (n - start) % 2 != 0 {
        proof {
            lemma_unhex_len(body);
        }
        return None;
    }
    let mut out: Vec<u8> = Vec::new();
    let mut i: usize = start;
    while i < n
        invariant
            start <= i <= n,
            n == chars@.len(),
            (i - start) % 2 == 0,
            (n - start) % 2 == 0,
            unhex_pairs(chars@.subrange(start as int, i as int)) == Some(out@),
        decreases n - i,
    {
        let ghost pre = chars@.subrange(start as int, i as int);
        let ghost next = chars@.subrange(start as int, i + 2);
        proof {
            assert(next.subrange(0, next.len() - 2) =~= pre);
            assert(next[next.len() - 2] == chars@[i as int]);
            assert(next[next.len() - 1] == chars@[i + 1]);
        }
        let hi = hex_value_of(chars[i]);
        let lo = hex_value_of(chars[i + 1]);
        match (hi, lo) {
            (Some(h), Some(l)) => {
                out.push(h * 16 + l);
            },
            _ => {
                proof {
                    lemma_unhex_none_extends(chars@.subrange(start as int, n as int), (i + 2 - start) as int);
                    assert(chars@.subrange(start as int, n as int).subrange(0, (i + 2 - start) as int) =~= next);
                }
                return None;
            },
        }
        i = i + 2;
    }
    Some(out)
}

/// A bad pair anywhere spoils the whole string.
pub proof fn lemma_unhex_none_extends(s: Seq<char>, k: int)
    requires
        0 <= k <= s.len(),
        (s.len() - k) % 2 == 0,
        unhex_pairs(s.subrange(0, k)) is None,
    ensures
        unhex_pairs(s) is None,
    decreases s.len() - k,
{
    if k < s.len() {
        let t = s.subrange(0, k + 2);
        assert(t.subrange(0, t.len() - 2) =~= s.subrange(0, k));
        lemma_unhex_none_extends(s, k + 2);
    } else {
        assert(s.subrange(0, k) =~= s);
    }
}

/// Decode a hex string, optionally `0x`-prefixed.
pub fn from_hex_chars(chars: &Vec<char>) -> (r: Option<Vec<u8>>)
    ensures
        r matches Some(v) ==> from_hex_spec(chars@) == Some(v@),
        r is None ==> from_hex_spec(chars@) is None,
{
    let n = chars.len();
    let start: usize = if n >= 2 && chars[0] == '0' && chars[1] == 'x' {
        2
    } else {
        0
    };
    proof {
        if start == 0 {
            assert(chars@.subrange(0, n as int) =~= chars@);
        }
    }
    unhex_from(chars, start)
}


// ── Whitespace ──────────────────────────────────────────────────────────────

/// `char::is_whitespace`: the Unicode `White_Space` characters.
pub open spec fn is_space(c: char) -> bool {
    ('\u{09}' <= c && c <= '\u{0D}') || c == ' ' || c == '\u{85}' || c == '\u{A0}' || c == '\u{1680}'
        || ('\u{2000}' <= c && c <= '\u{200A}') || c == '\u{2028}' || c == '\u{2029}' || c
        == '\u{202F}' || c == '\u{205F}' || c == '\u{3000}'
}

pub fn is_space_char(c: char) -> (r: bool)
    ensures
        r == is_space(c),
{
    ('\u{09}' <= c && c <= '\u{0D}') || c == ' ' || c == '\u{85}' || c == '\u{A0}' || c == '\u{1680}'
        || ('\u{2000}' <= c && c <= '\u{200A}') || c == '\u{2028}' || c == '\u{2029}' || c
        == '\u{202F}' || c == '\u{205F}' || c == '\u{3000}'
}

/// First index in `[a, b)` that is not whitespace, or `b`.
pub open spec fn trim_start(s: Seq<char>, a: int, b: int) -> int
    decreases b - a,
{
    if a < b && is_space(s[a]) {
        trim_start(s, a + 1, b)
    } else {
        a
    }
}

/// One past the last index in `[a, b)` that is not whitespace, or `a`.
pub open spec fn trim_end(s: Seq<char>, a: int, b: int) -> int
    decreases b - a,
{
    if a < b && is_space(s[b - 1]) {
        trim_end(s, a, b - 1)
    } else {
        b
    }
}

/// `s[a..b].trim()`.
pub open spec fn trimmed(s: Seq<char>, a: int, b: int) -> Seq<char> {
    let x = trim_start(s, a, b);
    s.subrange(x, trim_end(s, x, b))
}

/// The bounds of `s[a..b].trim()`.
pub fn trim_bounds(s: &Vec<char>, a: usize, b: usize) -> (r: (usize, usize))
    requires
        a <= b <= s@.len(),
    ensures
        r.0 == trim_start(s@, a as int, b as int),
        r.1 == trim_end(s@, r.0 as int, b as int),
        a <= r.0 <= r.1 <= b,
{
    let mut x = a;
    while x < b && is_space_char(s[x])
        invariant
            a <= x <= b <= s@.len(),
            trim_start(s@, x as int, b as int) == trim_start(s@, a as int, b as int),
        decreases b - x,
    {
        x = x + 1;
    }
    let mut y = b;
    while y > x && is_space_char(s[y - 1])
        invariant
            x <= y <= b <= s@.len(),
            trim_end(s@, x as int, y as int) == trim_end(s@, x as int, b as int),
        decreases y - x,
    {
        y = y - 1;
    }
    (x, y)
}

/// A decimal rendering is a non-empty run of digits worth the number.
pub proof fn lemma_decimal_digits(n: nat)
    ensures
        decimal(n).len() > 0,
        all_digits(decimal(n)),
        digits_value(decimal(n)) == n,
    decreases n,
{
    let d = decimal(n);
    if n < 10 {
        assert(((n + 48) as char) as u32 == n + 48);
        assert(is_digit(d[0]));
        assert(d.drop_last() =~= Seq::<char>::empty());
        assert(digit_value(d.last()) == n);
        assert(digits_value(d.drop_last()) == 0);
        assert(digits_value(d) == 10 * digits_value(d.drop_last()) + digit_value(d.last()));
    } else {
        lemma_decimal_digits(n / 10);
        let q = (n % 10) as nat;
        assert(((q + 48) as char) as u32 == q + 48);
        assert(d.drop_last() =~= decimal(n / 10));
        assert(d.last() == digit_char(q));
        assert(digit_value(d.last()) == q);
        assert(10 * (n / 10) + q == n);
        assert(digits_value(d) == 10 * digits_value(d.drop_last()) + digit_value(d.last()));
        assert forall|i: int| 0 <= i < d.len() implies is_digit(#[trigger] d[i]) by {
            if i < d.len() - 1 {
                assert(d[i] == decimal(n / 10)[i]);
            }
        }
    }
}

/// `str::parse::<u64>` reads a decimal rendering back.
pub proof fn lemma_decimal_parses(n: u64)
    ensures
        parse_u64_spec(decimal(n as nat)) == Some(n),
        is_digit(decimal(n as nat)[0]),
{
    lemma_decimal_digits(n as nat);
}

/// A hex digit is `0`–`9` or `a`–`f`.
pub open spec fn is_lower_hex(c: char) -> bool {
    ('0' <= c && c <= '9') || ('a' <= c && c <= 'f')
}

proof fn lemma_hex_digit(d: nat)
    requires
        d < 16,
    ensures
        hex_value(hex_digit(d)) == Some(d),
        is_lower_hex(hex_digit(d)),
{
    if d < 10 {
        assert(((d + 48) as char) as u32 == d + 48);
    } else {
        assert(((d + 87) as char) as u32 == d + 87);
    }
}

/// Lowercase hex reads back as the bytes it was written from.
pub proof fn lemma_hex_round_trip(b: Seq<u8>)
    ensures
        unhex_pairs(hex_chars(b)) == Some(b),
        hex_chars(b).len() == 2 * b.len(),
        forall|i: int| 0 <= i < hex_chars(b).len() ==> is_lower_hex(#[trigger] hex_chars(b)[i]),
    decreases b.len(),
{
    if b.len() > 0 {
        let rest = b.drop_last();
        let x = b.last();
        lemma_hex_round_trip(rest);
        lemma_hex_digit((x / 16) as nat);
        lemma_hex_digit((x % 16) as nat);
        let s = hex_chars(b);
        assert(s.subrange(0, s.len() - 2) =~= hex_chars(rest));
        assert(((x / 16) * 16 + x % 16) as u8 == x);
        assert(rest.push(x) =~= b);
        assert forall|i: int| 0 <= i < s.len() implies is_lower_hex(#[trigger] s[i]) by {
            if i < s.len() - 2 {
                assert(s[i] == hex_chars(rest)[i]);
            }
        }
    }
}

} // verus!
