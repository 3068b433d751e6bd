//! A minimal JSON value, its serialiser and its strict parser.
//!
//! Numbers are kept as their raw source text, never as a float, so an id or a
//! satoshi amount survives a round trip exactly as written.
use vstd::prelude::*;
use crate::text::{
    chars_of, decimal, hex_chars, hex_digit, hex_digit_char, hex_string, hex_value, hex_value_of, is_digit,
    parse_u64_chars, parse_u64_spec, push_str, string_of, u128_to_decimal, u64_to_decimal,
};


verus! {

broadcast use vstd::std_specs::vec::group_vec_axioms;

/// A JSON value.
#[derive(Debug, PartialEq)]
pub enum Json {
    Null,
    Bool(bool),
    /// Invariant: always a valid JSON number literal.
    Num(String),
    Str(String),
    Arr(Vec<Json>),
    Obj(Vec<(String, Json)>),
}

/// The mathematical value of a [`Json`].
pub enum JsonV {
    Null,
    Bool(bool),
    Num(Seq<char>),
    Str(Seq<char>),
    Arr(Seq<JsonV>),
    Obj(Seq<(Seq<char>, JsonV)>),
}

pub open spec fn json_view(j: Json) -> JsonV
    decreases j,
{
    match j {
        Json::Null => JsonV::Null,
        Json::Bool(b) => JsonV::Bool(b),
        Json::Num(raw) => JsonV::Num(raw@),
        Json::Str(s) => JsonV::Str(s@),
        Json::Arr(items) => JsonV::Arr(
            Seq::new(
                items@.len(),
                |i: int|
                    if 0 <= i < items@.len() {
                        json_view(items@[i])
                    } else {
                        JsonV::Null
                    },
            ),
        ),
        Json::Obj(fields) => JsonV::Obj(
            Seq::new(
                fields@.len(),
                |i: int|
                    if 0 <= i < fields@.len() {
                        (fields@[i].0@, json_view(fields@[i].1))
                    } else {
                        (Seq::empty(), JsonV::Null)
                    },
            ),
        ),
    }
}

impl View for Json {
    type V = JsonV;

    open spec fn view(&self) -> JsonV {
        json_view(*self)
    }
}


// ── Rendering ───────────────────────────────────────────────────────────────

/// How one character of a string is written: the two-character escapes for
/// quote, backslash, newline, return and tab, `\u00XX` for every other
/// control character, and the character itself otherwise.
pub open spec fn escape_char(c: char) -> Seq<char> {
    if c == '"' {
        seq!['\\', '"']
    } else if c == '\\' {
        seq!['\\', '\\']
    } else if c == '\n' {
        seq!['\\', 'n']
    } else if c == '\r' {
        seq!['\\', 'r']
    } else if c == '\t' {
        seq!['\\', 't']
    } else if (c as u32) < 0x20 {
        seq!['\\', 'u', '0', '0', hex_digit((c as u32 / 16) as nat), hex_digit((c as u32 % 16) as nat)]
    } else {
        seq![c]
    }
}

pub open spec fn escape(s: Seq<char>) -> Seq<char>
    decreases s.len(),
{
    if s.len() == 0 {
        Seq::empty()
    } else {
        escape(s.drop_last()) + escape_char(s.last())
    }
}

/// A string as a JSON string literal.
pub open spec fn quoted(s: Seq<char>) -> Seq<char> {
    seq!['"'] + escape(s) + seq!['"']
}

/// The text of a JSON value: no whitespace, members in order.
pub open spec fn render(v: JsonV) -> Seq<char>
    decreases v,
{
    match v {
        JsonV::Null => seq!['n', 'u', 'l', 'l'],
        JsonV::Bool(true) => seq!['t', 'r', 'u', 'e'],
        JsonV::Bool(false) => seq!['f', 'a', 'l', 's', 'e'],
        JsonV::Num(raw) => raw,
        JsonV::Str(s) => quoted(s),
        JsonV::Arr(items) => seq!['['] + render_items(items) + seq![']'],
        JsonV::Obj(fields) => seq!['{'] + render_fields(fields) + seq!['}'],
    }
}

pub open spec fn render_items(items: Seq<JsonV>) -> Seq<char>
    decreases items,
{
    if items.len() == 0 {
        Seq::empty()
    } else if items.len() == 1 {
        render(items[0])
    } else {
        render_items(items.drop_last()) + seq![','] + render(items.last())
    }
}

pub open spec fn render_field(f: (Seq<char>, JsonV)) -> Seq<char>
    decreases f,
{
    quoted(f.0) + seq![':'] + render(f.1)
}

pub open spec fn render_fields(fields: Seq<(Seq<char>, JsonV)>) -> Seq<char>
    decreases fields,
{
    if fields.len() == 0 {
        Seq::empty()
    } else if fields.len() == 1 {
        render_field(fields[0])
    } else {
        render_fields(fields.drop_last()) + seq![','] + render_field(fields.last())
    }
}

proof fn lemma_escape_push(s: Seq<char>, c: char)
    ensures
        escape(s.push(c)) == escape(s) + escape_char(c),
{
    assert(s.push(c).drop_last() =~= s);
}

/// Append `s` as a JSON string literal.
pub fn write_string(s: &str, out: &mut String)
    ensures
        final(out)@ == old(out)@ + quoted(s@),
{
    let cs = chars_of(s);
    out.push('"');
    let n = cs.len();
    let mut i: usize = 0;
    while i < n
        invariant
            i <= n,
            n == cs@.len(),
            cs@ == s@,
            out@ == old(out)@ + seq!['"'] + escape(cs@.subrange(0, i as int)),
        decreases n - i,
    {
        let c = cs[i];
        let ghost before = out@;
        if c == '"' {
            push_str(out, "\\\"");
        } else if c == '\\' {
            push_str(out, "\\\\");
        } else if c == '\n' {
            push_str(out, "\\n");
        } else if c == '\r' {
            push_str(out, "\\r");
        } else if c == '\t' {
            push_str(out, "\\t");
        } else if (c as u32) < 0x20 {
            out.push('\\');
            out.push('u');
            out.push('0');
            out.push('0');
            out.push(hex_digit_char((c as u32 / 16) as u8));
            out.push(hex_digit_char((c as u32 % 16) as u8));
        } else {
            out.push(c);
        }
        proof {
            reveal_strlit("\\\"");
            reveal_strlit("\\\\");
            reveal_strlit("\\n");
            reveal_strlit("\\r");
            reveal_strlit("\\t");
            assert(out@ =~= before + escape_char(c));
            lemma_escape_push(cs@.subrange(0, i as int), c);
            assert(cs@.subrange(0, i + 1) =~= cs@.subrange(0, i as int).push(c));
        }
        i = i + 1;
    }
    out.push('"');
    proof {
        assert(cs@.subrange(0, n as int) =~= s@);
        assert(out@ =~= old(out)@ + quoted(s@));
    }
}

proof fn lemma_render_items_push(items: Seq<JsonV>, v: JsonV)
    ensures
        render_items(items.push(v)) == if items.len() == 0 {
            render(v)
        } else {
            render_items(items) + seq![','] + render(v)
        },
{
    assert(items.push(v).drop_last() =~= items);
    if items.len() == 0 {
        assert(items.push(v)[0] == v);
    }
}

proof fn lemma_render_fields_push(fields: Seq<(Seq<char>, JsonV)>, f: (Seq<char>, JsonV))
    ensures
        render_fields(fields.push(f)) == if fields.len() == 0 {
            render_field(f)
        } else {
            render_fields(fields) + seq![','] + render_field(f)
        },
{
    assert(fields.push(f).drop_last() =~= fields);
    if fields.len() == 0 {
        assert(fields.push(f)[0] == f);
    }
}

impl Json {
    /// Serialise. Total: every value has a rendering.
    pub fn write(&self, out: &mut String)
        ensures
            final(out)@ == old(out)@ + render(self@),
        decreases self,
    {
        match self {
            Json::Null => {
                push_str(out, "null");
                proof {
                    reveal_strlit("null");
                    assert(out@ =~= old(out)@ + render(self@));
                }
            },
            Json::Bool(b) => {
                if *b {
                    push_str(out, "true");
                    proof {
                        reveal_strlit("true");
                    }
                } else {
                    push_str(out, "false");
                    proof {
                        reveal_strlit("false");
                    }
                }
            },
            Json::Num(raw) => {
                push_str(out, raw.as_str());
                assert(out@ =~= old(out)@ + render(self@));
            },
            Json::Str(s) => {
                write_string(s.as_str(), out);
                assert(out@ =~= old(out)@ + render(self@));
            },
            Json::Arr(items) => {
                let ghost vs = match self@ {
                    JsonV::Arr(x) => x,
                    _ => Seq::empty(),
                };
                assert(vs.len() == items@.len());
                assert(forall|j: int| 0 <= j < items@.len() ==> #[trigger] vs[j] == items@[j]@);
                out.push('[');
                let n = items.len();
                proof {
                    assert forall|j: int| 0 <= j < n implies decreases_to!(*self => #[trigger] items@[j]) by {
                        assert(decreases_to!(*self => *items));
                        assert(decreases_to!(*items => items@[j]));
                    }
                }
                let mut i: usize = 0;
                while i < n
                    invariant
                        i <= n,
                        n == items@.len(),
                        forall|j: int| 0 <= j < n ==> decreases_to!(*self => #[trigger] items@[j]),
                        vs.len() == n,
                        forall|j: int| 0 <= j < n ==> #[trigger] vs[j] == items@[j]@,
                        out@ == old(out)@ + seq!['['] + render_items(vs.take(i as int)),
                    decreases n - i,
                {
                    let ghost before = out@;
                    if i > 0 {
                        out.push(',');
                    }
                    items[i].write(out);
                    proof {
                        lemma_render_items_push(vs.take(i as int), vs[i as int]);
                        assert(vs.take(i + 1) =~= vs.take(i as int).push(vs[i as int]));
                        assert(out@ =~= old(out)@ + seq!['['] + render_items(vs.take(i + 1)));
                    }
                    i = i + 1;
                }
                out.push(']');
                proof {
                    assert(vs.take(n as int) =~= vs);
                    assert(self@ == JsonV::Arr(vs));
                    assert(out@ =~= old(out)@ + render(self@));
                }
            },
            Json::Obj(fields) => {
                let ghost vs = match self@ {
                    JsonV::Obj(x) => x,
                    _ => Seq::empty(),
                };
                assert(vs.len() == fields@.len());
                assert(forall|j: int| 0 <= j < fields@.len() ==> #[trigger] vs[j] == (fields@[j].0@, fields@[j].1@));
                out.push('{');
                let n = fields.len();
                proof {
                    assert forall|j: int| 0 <= j < n implies decreases_to!(*self => #[trigger] fields@[j].1) by {
                        assert(decreases_to!(*self => *fields));
                        assert(decreases_to!(*fields => fields@[j]));
                        assert(decreases_to!(fields@[j] => fields@[j].1));
                    }
                }
                let mut i: usize = 0;
                while i < n
                    invariant
                        i <= n,
                        n == fields@.len(),
                        forall|j: int| 0 <= j < n ==> decreases_to!(*self => #[trigger] fields@[j].1),
                        vs.len() == n,
                        forall|j: int|
                            0 <= j < n ==> #[trigger] vs[j] == (fields@[j].0@, fields@[j].1@),
                        out@ == old(out)@ + seq!['{'] + render_fields(vs.take(i as int)),
                    decreases n - i,
                {
                    if i > 0 {
                        out.push(',');
                    }
                    let (k, v) = &fields[i];
                    write_string(k.as_str(), out);
                    out.push(':');
                    v.write(out);
                    proof {
                        lemma_render_fields_push(vs.take(i as int), vs[i as int]);
                        assert(vs.take(i + 1) =~= vs.take(i as int).push(vs[i as int]));
                        assert(out@ =~= old(out)@ + seq!['{'] + render_fields(vs.take(i + 1)));
                    }
                    i = i + 1;
                }
                out.push('}');
                proof {
                    assert(vs.take(n as int) =~= vs);
                    assert(self@ == JsonV::Obj(vs));
                    assert(out@ =~= old(out)@ + render(self@));
                }
            },
        }
    }

    /// The rendering as a new string.
    pub fn to_string(&self) -> (r: String)
        ensures
            r@ == render(self@),
    {
        let mut s = String::new();
        self.write(&mut s);
        proof {
            assert(s@ =~= render(self@));
        }
        s
    }
}


// ── Parsing ─────────────────────────────────────────────────────────────────

/// Nesting depth accepted while parsing: the parser is recursive, and an
/// unbounded depth would let one request exhaust the stack.
pub const MAX_DEPTH: u32 = 64;

pub open spec fn is_ws(c: char) -> bool {
    c == ' ' || c == '\t' || c == '\n' || c == '\r'
}

/// The first position at or after `i` that is not whitespace.
pub open spec fn skip_ws(s: Seq<char>, i: int) -> int
    decreases s.len() - i,
{
    if 0 <= i < s.len() && is_ws(s[i]) {
        skip_ws(s, i + 1)
    } else {
        i
    }
}

pub proof fn lemma_skip_ws(s: Seq<char>, i: int)
    requires
        0 <= i <= s.len(),
    ensures
        i <= skip_ws(s, i) <= s.len(),
        skip_ws(s, i) < s.len() ==> !is_ws(s[skip_ws(s, i)]),
        skip_ws(s, skip_ws(s, i)) == skip_ws(s, i),
    decreases s.len() - i,
{
    if i < s.len() && is_ws(s[i]) {
        lemma_skip_ws(s, i + 1);
    }
}

/// The value of a run of hex digits of either case.
pub open spec fn hex_run(t: Seq<char>) -> Option<nat>
    decreases t.len(),
{
    if t.len() == 0 {
        Some(0)
    } else {
        match (hex_run(t.drop_last()), hex_value(t.last())) {
            (Some(a), Some(d)) => Some(a * 16 + d),
            _ => None,
        }
    }
}

/// The four characters of a `\u` escape, read the way `u32::from_str_radix(_, 16)`
/// reads them: hex digits, optionally after one `+`.
pub open spec fn hex4_spec(s: Seq<char>, i: int) -> Option<u32> {
    if 0 <= i && i + 4 <= s.len() {
        let t = s.subrange(i, i + 4);
        let r = if t[0] == '+' {
            hex_run(t.subrange(1, 4))
        } else {
            hex_run(t)
        };
        match r {
            Some(v) => Some(v as u32),
            None => None,
        }
    } else {
        None
    }
}

/// A `\u` escape at `i` (the backslash): its code point and the position
/// after it. A high surrogate takes the following low surrogate with it; a
/// lone surrogate becomes U+FFFD.
pub open spec fn u_escape(s: Seq<char>, i: int) -> Option<(u32, int)> {
    match hex4_spec(s, i + 2) {
        None => None,
        Some(hi) => if 0xD800 <= hi && hi < 0xDC00 {
            if i + 8 <= s.len() && s[i + 6] == '\\' && s[i + 7] == 'u' {
                match hex4_spec(s, i + 8) {
                    None => None,
                    Some(lo) => if 0xDC00 <= lo && lo < 0xE000 {
                        Some(((0x10000 + (hi - 0xD800) * 1024 + (lo - 0xDC00)) as u32, i + 12))
                    } else {
                        Some((0xFFFD, i + 6))
                    },
                }
            } else {
                Some((0xFFFD, i + 6))
            }
        } else if 0xDC00 <= hi && hi < 0xE000 {
            Some((0xFFFD, i + 6))
        } else {
            Some((hi, i + 6))
        },
    }
}

pub open spec fn is_scalar(cp: u32) -> bool {
    cp <= 0xD7FF || (0xE000 <= cp && cp <= 0x10FFFF)
}

/// `char::from_u32(cp).unwrap_or('\u{FFFD}')`.
pub open spec fn scalar_or_replacement(cp: u32) -> char {
    if is_scalar(cp) {
        cp as char
    } else {
        '\u{FFFD}'
    }
}

/// The character a two-character escape `\e` stands for, if `e` names one.
pub open spec fn simple_escape(e: char) -> Option<char> {
    if e == '"' {
        Some('"')
    } else if e == '\\' {
        Some('\\')
    } else if e == '/' {
        Some('/')
    } else if e == 'b' {
        Some('\u{08}')
    } else if e == 'f' {
        Some('\u{0c}')
    } else if e == 'n' {
        Some('\n')
    } else if e == 'r' {
        Some('\r')
    } else if e == 't' {
        Some('\t')
    } else {
        None
    }
}

/// The rest of a string literal from `i` (just past the opening quote, or
/// further in), with `acc` already decoded: the decoded text and the position
/// after the closing quote.
pub open spec fn p_str(s: Seq<char>, i: int, acc: Seq<char>) -> Option<(Seq<char>, int)>
    decreases s.len() - i,
{
    if !(0 <= i < s.len()) {
        None
    } else if s[i] == '"' {
        Some((acc, i + 1))
    } else if s[i] == '\\' {
        if i + 1 >= s.len() {
            None
        } else if s[i + 1] == 'u' {
            match u_escape(s, i) {
                None => None,
                Some((cp, next)) => if next <= s.len() {
                    p_str(s, next, acc.push(scalar_or_replacement(cp)))
                } else {
                    None
                },
            }
        } else {
            match simple_escape(s[i + 1]) {
                Some(c) => p_str(s, i + 2, acc.push(c)),
                None => None,
            }
        }
    } else if (s[i] as u32) < 0x20 {
        None
    } else {
        p_str(s, i + 1, acc.push(s[i]))
    }
}

/// The first position at or after `i` that is not an ASCII digit.
pub open spec fn digits_end(s: Seq<char>, i: int) -> int
    decreases s.len() - i,
{
    if 0 <= i < s.len() && is_digit(s[i]) {
        digits_end(s, i + 1)
    } else {
        i
    }
}

pub proof fn lemma_digits_end(s: Seq<char>, i: int)
    requires
        0 <= i <= s.len(),
    ensures
        i <= digits_end(s, i) <= s.len(),
        digits_end(s, i) < s.len() ==> !is_digit(s[digits_end(s, i)]),
    decreases s.len() - i,
{
    if i < s.len() && is_digit(s[i]) {
        lemma_digits_end(s, i + 1);
    }
}

/// End of the integer part at `a`: `0`, or a nonzero digit and any digits.
pub open spec fn num_int_end(s: Seq<char>, a: int) -> Option<int> {
    if 0 <= a < s.len() && s[a] == '0' {
        if a + 1 < s.len() && is_digit(s[a + 1]) {
            None
        } else {
            Some(a + 1)
        }
    } else if 0 <= a < s.len() && '1' <= s[a] && s[a] <= '9' {
        Some(digits_end(s, a))
    } else {
        None
    }
}

/// End of an optional fraction at `b`.
pub open spec fn num_frac_end(s: Seq<char>, b: int) -> Option<int> {
    if 0 <= b < s.len() && s[b] == '.' {
        let e = digits_end(s, b + 1);
        if e == b + 1 {
            None
        } else {
            Some(e)
        }
    } else {
        Some(b)
    }
}

/// End of an optional exponent at `c`.
pub open spec fn num_exp_end(s: Seq<char>, c: int) -> Option<int> {
    if 0 <= c < s.len() && (s[c] == 'e' || s[c] == 'E') {
        let k = if c + 1 < s.len() && (s[c + 1] == '+' || s[c + 1] == '-') {
            c + 2
        } else {
            c + 1
        };
        let e = digits_end(s, k);
        if e == k {
            None
        } else {
            Some(e)
        }
    } else {
        Some(c)
    }
}

/// A number literal at `i`: its exact text and the position after it.
pub open spec fn p_number(s: Seq<char>, i: int) -> Option<(Seq<char>, int)> {
    let a = if 0 <= i < s.len() && s[i] == '-' {
        i + 1
    } else {
        i
    };
    match num_int_end(s, a) {
        None => None,
        Some(b) => match num_frac_end(s, b) {
            None => None,
            Some(c) => match num_exp_end(s, c) {
                None => None,
                Some(d) => Some((s.subrange(i, d), d)),
            },
        },
    }
}

/// `w` occurs in `s` at `i`.
pub open spec fn has_lit(s: Seq<char>, i: int, w: Seq<char>) -> bool {
    0 <= i && i + w.len() <= s.len() && s.subrange(i, i + w.len()) == w
}

/// One JSON value at `i`, nested `d` deep: the value and the position after
/// it. Whitespace before `i` is the caller's business.
pub open spec fn p_value(s: Seq<char>, i: int, d: int) -> Option<(JsonV, int)>
    decreases s.len() - i, 2int,
{
    if d + 1 > MAX_DEPTH {
        None
    } else if !(0 <= i < s.len()) {
        None
    } else if s[i] == '{' {
        p_object(s, i, d + 1)
    } else if s[i] == '[' {
        p_array(s, i, d + 1)
    } else if s[i] == '"' {
        match p_str(s, i + 1, Seq::empty()) {
            Some((t, j)) => Some((JsonV::Str(t), j)),
            None => None,
        }
    } else if s[i] == 't' {
        if has_lit(s, i, seq!['t', 'r', 'u', 'e']) {
            Some((JsonV::Bool(true), i + 4))
        } else {
            None
        }
    } else if s[i] == 'f' {
        if has_lit(s, i, seq!['f', 'a', 'l', 's', 'e']) {
            Some((JsonV::Bool(false), i + 5))
        } else {
            None
        }
    } else if s[i] == 'n' {
        if has_lit(s, i, seq!['n', 'u', 'l', 'l']) {
            Some((JsonV::Null, i + 4))
        } else {
            None
        }
    } else if s[i] == '-' || is_digit(s[i]) {
        match p_number(s, i) {
            Some((raw, j)) => Some((JsonV::Num(raw), j)),
            None => None,
        }
    } else {
        None
    }
}

/// An object whose `{` is at `i`, its members nested `d` deep.
pub open spec fn p_object(s: Seq<char>, i: int, d: int) -> Option<(JsonV, int)>
    decreases s.len() - i, 1int,
{
    let j = skip_ws(s, i + 1);
    if !(0 <= i < j && j <= s.len()) {
        None
    } else if j < s.len() && s[j] == '}' {
        Some((JsonV::Obj(Seq::empty()), j + 1))
    } else {
        p_members(s, j, d, Seq::empty())
    }
}

/// The members of an object from `i` on, `acc` already read.
pub open spec fn p_members(s: Seq<char>, i: int, d: int, acc: Seq<(Seq<char>, JsonV)>) -> Option<
    (JsonV, int),
>
    decreases s.len() - i, 3int,
{
    let j = skip_ws(s, i);
    if !(0 <= i <= j && j < s.len() && s[j] == '"') {
        None
    } else {
        match p_str(s, j + 1, Seq::empty()) {
            None => None,
            Some((k, j2)) => {
                let j3 = skip_ws(s, j2);
                if !(0 <= j3 < s.len() && s[j3] == ':') {
                    None
                } else {
                    let j4 = skip_ws(s, j3 + 1);
                    if !(i < j4 && j4 <= s.len()) {
                        None
                    } else {
                        match p_value(s, j4, d) {
                            None => None,
                            Some((v, j5)) => {
                                let j6 = skip_ws(s, j5);
                                let acc2 = acc.push((k, v));
                                if 0 <= j6 < s.len() && s[j6] == ',' {
                                    if i < j6 + 1 {
                                        p_members(s, j6 + 1, d, acc2)
                                    } else {
                                        None
                                    }
                                } else if 0 <= j6 < s.len() && s[j6] == '}' {
                                    Some((JsonV::Obj(acc2), j6 + 1))
                                } else {
                                    None
                                }
                            },
                        }
                    }
                }
            },
        }
    }
}

/// An array whose `[` is at `i`, its elements nested `d` deep.
pub open spec fn p_array(s: Seq<char>, i: int, d: int) -> Option<(JsonV, int)>
    decreases s.len() - i, 1int,
{
    let j = skip_ws(s, i + 1);
    if !(0 <= i < j && j <= s.len()) {
        None
    } else if j < s.len() && s[j] == ']' {
        Some((JsonV::Arr(Seq::empty()), j + 1))
    } else {
        p_elems(s, j, d, Seq::empty())
    }
}

/// The elements of an array from `i` on, `acc` already read.
pub open spec fn p_elems(s: Seq<char>, i: int, d: int, acc: Seq<JsonV>) -> Option<(JsonV, int)>
    decreases s.len() - i, 3int,
{
    let j = skip_ws(s, i);
    if !(0 <= i <= j && j <= s.len()) {
        None
    } else {
        match p_value(s, j, d) {
            None => None,
            Some((v, j2)) => {
                let j3 = skip_ws(s, j2);
                let acc2 = acc.push(v);
                if 0 <= j3 < s.len() && s[j3] == ',' {
                    if i < j3 + 1 {
                        p_elems(s, j3 + 1, d, acc2)
                    } else {
                        None
                    }
                } else if 0 <= j3 < s.len() && s[j3] == ']' {
                    Some((JsonV::Arr(acc2), j3 + 1))
                } else {
                    None
                }
            },
        }
    }
}

/// The value a whole text denotes: one value, whitespace around it allowed,
/// nothing else.
pub open spec fn parse_spec(s: Seq<char>) -> Option<JsonV> {
    match p_value(s, skip_ws(s, 0), 0) {
        Some((v, j)) => if skip_ws(s, j) == s.len() {
            Some(v)
        } else {
            None
        },
        None => None,
    }
}


// ── Why a text is refused ───────────────────────────────────────────────────
//
// Each of these names the refusal the parser gives where the matching
// reading above has none; where that reading succeeds they say nothing.

pub open spec fn hex4_err(s: Seq<char>, i: int) -> &'static str {
    if 0 <= i && i + 4 <= s.len() {
        "invalid \\u escape"
    } else {
        "truncated \\u escape"
    }
}

pub open spec fn u_escape_err(s: Seq<char>, i: int) -> &'static str {
    match hex4_spec(s, i + 2) {
        None => hex4_err(s, i + 2),
        Some(_) => hex4_err(s, i + 8),
    }
}

pub open spec fn p_str_err(s: Seq<char>, i: int) -> &'static str
    decreases s.len() - i,
{
    if !(0 <= i < s.len()) {
        "unterminated string"
    } else if s[i] == '"' {
        ""
    } else if s[i] == '\\' {
        if i + 1 >= s.len() {
            "unterminated escape"
        } else if s[i + 1] == 'u' {
            match u_escape(s, i) {
                None => u_escape_err(s, i),
                Some((_, next)) => if i < next <= s.len() {
                    p_str_err(s, next)
                } else {
                    ""
                },
            }
        } else {
            match simple_escape(s[i + 1]) {
                Some(_) => p_str_err(s, i + 2),
                None => "invalid escape",
            }
        }
    } else if (s[i] as u32) < 0x20 {
        "control character in string"
    } else {
        p_str_err(s, i + 1)
    }
}

pub open spec fn p_number_err(s: Seq<char>, i: int) -> &'static str {
    let a = if 0 <= i < s.len() && s[i] == '-' {
        i + 1
    } else {
        i
    };
    match num_int_end(s, a) {
        None => if 0 <= a < s.len() && s[a] == '0' {
            "number has a leading zero"
        } else {
            "number has no integer part"
        },
        Some(b) => match num_frac_end(s, b) {
            None => "number has no fractional digits",
            Some(_) => "number has no exponent digits",
        },
    }
}

pub open spec fn p_value_err(s: Seq<char>, i: int, d: int) -> &'static str
    decreases s.len() - i, 2int,
{
    if d + 1 > MAX_DEPTH {
        "nesting too deep"
    } else if !(0 <= i < s.len()) {
        "unexpected end of input"
    } else if s[i] == '{' {
        p_object_err(s, i, d + 1)
    } else if s[i] == '[' {
        p_array_err(s, i, d + 1)
    } else if s[i] == '"' {
        p_str_err(s, i + 1)
    } else if s[i] == 't' || s[i] == 'f' || s[i] == 'n' {
        "invalid literal"
    } else if s[i] == '-' || is_digit(s[i]) {
        p_number_err(s, i)
    } else {
        "unexpected character"
    }
}

pub open spec fn p_object_err(s: Seq<char>, i: int, d: int) -> &'static str
    decreases s.len() - i, 1int,
{
    let j = skip_ws(s, i + 1);
    if !(0 <= i < j && j <= s.len()) {
        ""
    } else {
        p_members_err(s, j, d)
    }
}

pub open spec fn p_members_err(s: Seq<char>, i: int, d: int) -> &'static str
    decreases s.len() - i, 3int,
{
    let j = skip_ws(s, i);
    if !(0 <= i <= j && j < s.len() && s[j] == '"') {
        "object key must be a string"
    } else {
        match p_str(s, j + 1, Seq::empty()) {
            None => p_str_err(s, j + 1),
            Some((_, j2)) => {
                let j3 = skip_ws(s, j2);
                if !(0 <= j3 < s.len() && s[j3] == ':') {
                    "expected ':' after object key"
                } else {
                    let j4 = skip_ws(s, j3 + 1);
                    if !(i < j4 && j4 <= s.len()) {
                        "expected a value in object"
                    } else {
                        match p_value(s, j4, d) {
                            None => p_value_err(s, j4, d),
                            Some((_, j5)) => {
                                let j6 = skip_ws(s, j5);
                                if 0 <= j6 < s.len() && s[j6] == ',' && i < j6 + 1 {
                                    p_members_err(s, j6 + 1, d)
                                } else {
                                    "expected ',' or '}' in object"
                                }
                            },
                        }
                    }
                }
            },
        }
    }
}

pub open spec fn p_array_err(s: Seq<char>, i: int, d: int) -> &'static str
    decreases s.len() - i, 1int,
{
    let j = skip_ws(s, i + 1);
    if !(0 <= i < j && j <= s.len()) {
        ""
    } else {
        p_elems_err(s, j, d)
    }
}

pub open spec fn p_elems_err(s: Seq<char>, i: int, d: int) -> &'static str
    decreases s.len() - i, 3int,
{
    let j = skip_ws(s, i);
    if !(0 <= i <= j && j <= s.len()) {
        ""
    } else {
        match p_value(s, j, d) {
            None => p_value_err(s, j, d),
            Some((_, j2)) => {
                let j3 = skip_ws(s, j2);
                if 0 <= j3 < s.len() && s[j3] == ',' && i < j3 + 1 {
                    p_elems_err(s, j3 + 1, d)
                } else {
                    "expected ',' or ']' in array"
                }
            },
        }
    }
}

/// Why a whole text is refused: the first thing the parser finds wrong.
pub open spec fn parse_err(s: Seq<char>) -> &'static str {
    match p_value(s, skip_ws(s, 0), 0) {
        None => p_value_err(s, skip_ws(s, 0), 0),
        Some(_) => "trailing bytes after the top-level value",
    }
}

fn is_ws_char(c: char) -> (r: bool)
    ensures
        r == is_ws(c),
{
    c == ' ' || c == '\t' || c == '\n' || c == '\r'
}

fn is_digit_char(c: char) -> (r: bool)
    ensures
        r == is_digit(c),
{
    '0' <= c && c <= '9'
}

/// The character that `\e` stands for, when `e` names a two-character escape.
fn simple_escape_of(e: char) -> (r: Option<char>)
    ensures
        r == simple_escape(e),
{
    if e == '"' {
        Some('"')
    } else if e == '\\' {
        Some('\\')
    } else if e == '/' {
        Some('/')
    } else if e == 'b' {
        Some('\u{08}')
    } else if e == 'f' {
        Some('\u{0c}')
    } else if e == 'n' {
        Some('\n')
    } else if e == 'r' {
        Some('\r')
    } else if e == 't' {
        Some('\t')
    } else {
        None
    }
}

/// A cursor over the characters of the text being parsed.
struct Parser {
    b: Vec<char>,
    i: usize,
    depth: u32,
}

impl Parser {
    spec fn same_text(&self, other: &Parser) -> bool {
        self.b@ == other.b@ && self.depth == other.depth
    }

    fn ws(&mut self)
        requires
            old(self).i <= old(self).b@.len(),
        ensures
            final(self).same_text(old(self)),
            final(self).i == skip_ws(old(self).b@, old(self).i as int),
            old(self).i <= final(self).i <= final(self).b@.len(),
    {
        let n = self.b.len();
        while self.i < n && is_ws_char(self.b[self.i])
            invariant
                self.same_text(old(self)),
                n == self.b@.len(),
                old(self).i <= self.i <= n,
                skip_ws(self.b@, self.i as int) == skip_ws(self.b@, old(self).i as int),
            decreases n - self.i,
        {
            self.i = self.i + 1;
        }
    }

    fn peek(&self) -> (r: Option<char>)
        ensures
            r == (if self.i < self.b@.len() {
                Some(self.b@[self.i as int])
            } else {
                None::<char>
            }),
    {
        if self.i < self.b.len() {
            Some(self.b[self.i])
        } else {
            None
        }
    }

    fn peek_is(&self, c: char) -> (r: bool)
        ensures
            r == (self.i < self.b@.len() && self.b@[self.i as int] == c),
    {
        self.i < self.b.len() && self.b[self.i] == c
    }

    /// Consume `lit` if the text continues with it.
    fn eat(&mut self, lit: &[char]) -> (r: bool)
        requires
            old(self).i <= old(self).b@.len(),
        ensures
            final(self).same_text(old(self)),
            r == has_lit(old(self).b@, old(self).i as int, lit@),
            final(self).i == (if r {
                old(self).i + lit@.len()
            } else {
                old(self).i as int
            }),
    {
        let n = self.b.len();
        let m = lit.len();
        if n - self.i < m {
            return false;
        }
        let mut k: usize = 0;
        while k < m
            invariant
                self.same_text(old(self)),
                self.i == old(self).i,
                n == self.b@.len(),
                m == lit@.len(),
                self.i + m <= n,
                k <= m,
                forall|x: int| 0 <= x < k ==> self.b@[self.i + x] == lit@[x],
            decreases m - k,
        {
            if self.b[self.i + k] != lit[k] {
                proof {
                    assert(self.b@.subrange(self.i as int, self.i + m)[k as int] != lit@[k as int]);
                }
                return false;
            }
            k = k + 1;
        }
        proof {
            assert(self.b@.subrange(self.i as int, self.i + m) =~= lit@);
        }
        self.i = self.i + m;
        true
    }

    /// Four characters of a `\u` escape, as `u32::from_str_radix(_, 16)` reads them.
    fn hex4(&mut self) -> (r: Result<u32, &'static str>)
        requires
            old(self).i <= old(self).b@.len(),
        ensures
            final(self).same_text(old(self)),
            final(self).i <= final(self).b@.len(),
            match r {
                Ok(v) => hex4_spec(old(self).b@, old(self).i as int) == Some(v) && final(self).i
                    == old(self).i + 4,
                Err(e) => hex4_spec(old(self).b@, old(self).i as int) is None && e == hex4_err(
                    old(self).b@,
                    old(self).i as int,
                ),
            },
    {
        let n = self.b.len();
        if n - self.i < 4 {
            return Err("truncated \\u escape");
        }
        let ghost s = self.b@;
        let ghost t = s.subrange(self.i as int, self.i + 4);
        let start: usize = if self.b[self.i] == '+' {
            self.i + 1
        } else {
            self.i
        };
        let end = self.i + 4;
        let mut acc: u32 = 0;
        let mut k = start;
        proof {
            assert(s.subrange(start as int, start as int) =~= Seq::<char>::empty());
        }
        while k < end
            invariant
                self.same_text(old(self)),
                self.i == old(self).i,
                s == self.b@,
                n == s.len(),
                end == self.i + 4,
                end <= n,
                self.i <= start <= k <= end,
                t == s.subrange(self.i as int, self.i + 4),
                start == (if t[0] == '+' { self.i + 1 } else { self.i as int }),
                hex_run(s.subrange(start as int, k as int)) == Some(acc as nat),
                k - start == 0 ==> acc == 0,
                k - start == 1 ==> acc < 16,
                k - start == 2 ==> acc < 256,
                k - start == 3 ==> acc < 4096,
                k - start == 4 ==> acc < 65536,
            decreases end - k,
        {
            let ghost pre = s.subrange(start as int, k as int);
            let ghost nxt = s.subrange(start as int, k + 1);
            proof {
                assert(nxt.drop_last() =~= pre);
                assert(nxt.last() == s[k as int]);
            }
            match hex_value_of(self.b[k]) {
                Some(d) => {
                    acc = acc * 16 + d as u32;
                },
                None => {
                    proof {
                        lemma_hex_run_none_extends(s.subrange(start as int, end as int), k + 1 - start);
                        assert(s.subrange(start as int, end as int).subrange(0, k + 1 - start) =~= nxt);
                        if t[0] == '+' {
                            assert(t.subrange(1, 4) =~= s.subrange(start as int, end as int));
                        } else {
                            assert(t =~= s.subrange(start as int, end as int));
                        }
                    }
                    return Err("invalid \\u escape");
                },
            }
            k = k + 1;
        }
        proof {
            if t[0] == '+' {
                assert(t.subrange(1, 4) =~= s.subrange(start as int, end as int));
            } else {
                assert(t =~= s.subrange(start as int, end as int));
            }
        }
        self.i = end;
        Ok(acc)
    }
}

/// A bad digit anywhere spoils the whole run.
proof fn lemma_hex_run_none_extends(t: Seq<char>, k: int)
    requires
        0 <= k <= t.len(),
        hex_run(t.subrange(0, k)) is None,
    ensures
        hex_run(t) is None,
    decreases t.len() - k,
{
    if k < t.len() {
        let u = t.subrange(0, k + 1);
        assert(u.drop_last() =~= t.subrange(0, k));
        lemma_hex_run_none_extends(t, k + 1);
    } else {
        assert(t.subrange(0, k) =~= t);
    }
}


impl Parser {
    /// A string literal whose opening quote is at the cursor.
    fn string(&mut self) -> (r: Result<String, &'static str>)
        requires
            old(self).i < old(self).b@.len(),
        ensures
            final(self).same_text(old(self)),
            final(self).i <= final(self).b@.len(),
            match r {
                Ok(t) => p_str(old(self).b@, old(self).i + 1, Seq::empty()) == Some(
                    (t@, final(self).i as int),
                ),
                Err(e) => p_str(old(self).b@, old(self).i + 1, Seq::empty()) is None && e == p_str_err(
                    old(self).b@,
                    old(self).i + 1,
                ),
            },
    {
        let ghost s = self.b@;
        let n = self.b.len();
        self.i = self.i + 1;
        let mut out = String::new();
        loop
            invariant
                self.same_text(old(self)),
                s == self.b@,
                n == s.len(),
                self.i <= n,
                p_str(s, self.i as int, out@) == p_str(s, old(self).i + 1, Seq::empty()),
                p_str_err(s, self.i as int) == p_str_err(s, old(self).i + 1),
            decreases n - self.i,
        {
            let at = self.i;
            if at >= n {
                return Err("unterminated string");
            }
            let c = self.b[at];
            self.i = at + 1;
            if c == '"' {
                return Ok(out);
            } else if c == '\\' {
                if self.i >= n {
                    return Err("unterminated escape");
                }
                let e = self.b[self.i];
                self.i = self.i + 1;
                if e == 'u' {
                    let hi = match self.hex4() {
                        Ok(v) => v,
                        Err(why) => {
                            return Err(why);
                        },
                    };
                    let cp: u32;
                    if 0xD800 <= hi && hi < 0xDC00 {
                        if n - self.i >= 2 && self.b[self.i] == '\\' && self.b[self.i + 1] == 'u' {
                            let save = self.i;
                            self.i = self.i + 2;
                            let lo = match self.hex4() {
                                Ok(v) => v,
                                Err(why) => {
                                    return Err(why);
                                },
                            };
                            if 0xDC00 <= lo && lo < 0xE000 {
                                cp = 0x10000 + (hi - 0xD800) * 1024 + (lo - 0xDC00);
                            } else {
                                self.i = save;
                                cp = 0xFFFD;
                            }
                        } else {
                            cp = 0xFFFD;
                        }
                    } else if 0xDC00 <= hi && hi < 0xE000 {
                        cp = 0xFFFD;
                    } else {
                        cp = hi;
                    }
                    proof {
                        assert(u_escape(s, at as int) == Some((cp, self.i as int)));
                    }
                    let ch = match char::from_u32(cp) {
                        Some(x) => x,
                        None => '\u{FFFD}',
                    };
                    out.push(ch);
                } else {
                    match simple_escape_of(e) {
                        Some(x) => {
                            out.push(x);
                        },
                        None => {
                            return Err("invalid escape");
                        },
                    }
                }
            } else if (c as u32) < 0x20 {
                return Err("control character in string");
            } else {
                out.push(c);
            }
        }
    }
}


impl Parser {
    /// Skip a run of ASCII digits; how many there were.
    fn digits(&mut self) -> (r: usize)
        requires
            old(self).i <= old(self).b@.len(),
        ensures
            final(self).same_text(old(self)),
            final(self).i == digits_end(old(self).b@, old(self).i as int),
            final(self).i <= final(self).b@.len(),
            r == final(self).i - old(self).i,
    {
        let n = self.b.len();
        let start = self.i;
        while self.i < n && is_digit_char(self.b[self.i])
            invariant
                self.same_text(old(self)),
                n == self.b@.len(),
                start == old(self).i,
                start <= self.i <= n,
                digits_end(self.b@, self.i as int) == digits_end(self.b@, start as int),
            decreases n - self.i,
        {
            self.i = self.i + 1;
        }
        self.i - start
    }

    /// A number literal at the cursor, kept as its exact text.
    fn number(&mut self) -> (r: Result<Json, &'static str>)
        requires
            old(self).i <= old(self).b@.len(),
        ensures
            final(self).same_text(old(self)),
            final(self).i <= final(self).b@.len(),
            match r {
                Ok(v) => p_number(old(self).b@, old(self).i as int) matches Some((raw, j)) && v@
                    == JsonV::Num(raw) && j == final(self).i,
                Err(e) => p_number(old(self).b@, old(self).i as int) is None && e == p_number_err(
                    old(self).b@,
                    old(self).i as int,
                ),
            },
    {
        let ghost s = self.b@;
        let n = self.b.len();
        let start = self.i;
        if self.peek_is('-') {
            self.i = self.i + 1;
        }
        let a = self.i;
        if self.peek_is('0') {
            self.i = self.i + 1;
            if self.i < self.b.len() && is_digit_char(self.b[self.i]) {
                return Err("number has a leading zero");
            }
        } else if self.i < self.b.len() && '1' <= self.b[self.i] && self.b[self.i] <= '9' {
            self.digits();
        } else {
            return Err("number has no integer part");
        }
        assert(num_int_end(s, a as int) == Some(self.i as int));
        let b = self.i;
        if self.peek_is('.') {
            self.i = self.i + 1;
            if self.digits() == 0 {
                return Err("number has no fractional digits");
            }
        }
        assert(num_frac_end(s, b as int) == Some(self.i as int));
        let c = self.i;
        if self.peek_is('e') || self.peek_is('E') {
            self.i = self.i + 1;
            if self.peek_is('+') || self.peek_is('-') {
                self.i = self.i + 1;
            }
            if self.digits() == 0 {
                return Err("number has no exponent digits");
            }
        }
        assert(num_exp_end(s, c as int) == Some(self.i as int));
        let end = self.i;
        let mut raw = String::new();
        let mut k = start;
        while k < end
            invariant
                s == self.b@,
                start <= k <= end,
                end <= s.len(),
                raw@ == s.subrange(start as int, k as int),
            decreases end - k,
        {
            raw.push(self.b[k]);
            proof {
                assert(s.subrange(start as int, k + 1) =~= s.subrange(start as int, k as int).push(
                    s[k as int],
                ));
            }
            k = k + 1;
        }
        Ok(Json::Num(raw))
    }

    /// One value at the cursor, nested one level below `self.depth`.
    fn value(&mut self) -> (r: Result<Json, &'static str>)
        requires
            old(self).i <= old(self).b@.len(),
            old(self).depth <= MAX_DEPTH,
        ensures
            final(self).b@ == old(self).b@,
            final(self).i <= final(self).b@.len(),
            match r {
                Ok(v) => p_value(old(self).b@, old(self).i as int, old(self).depth as int) == Some(
                    (v@, final(self).i as int),
                ) && final(self).depth == old(self).depth,
                Err(e) => p_value(old(self).b@, old(self).i as int, old(self).depth as int) is None && e
                    == p_value_err(old(self).b@, old(self).i as int, old(self).depth as int),
            },
        decreases MAX_DEPTH - old(self).depth, 1int,
    {
        let ghost s = self.b@;
        let ghost d = self.depth as int;
        let at = self.i;
        if self.depth + 1 > MAX_DEPTH {
            return Err("nesting too deep");
        }
        self.depth = self.depth + 1;
        let c = match self.peek() {
            Some(c) => c,
            None => {
                return Err("unexpected end of input");
            },
        };
        let v = if c == '{' {
            self.object()
        } else if c == '[' {
            self.array()
        } else if c == '"' {
            match self.string() {
                Ok(t) => Ok(Json::Str(t)),
                Err(why) => Err(why),
            }
        } else if c == 't' {
            let lit = ['t', 'r', 'u', 'e'];
            proof {
                assert(lit@ =~= seq!['t', 'r', 'u', 'e']);
            }
            if self.eat(&lit) {
                Ok(Json::Bool(true))
            } else {
                Err("invalid literal")
            }
        } else if c == 'f' {
            let lit = ['f', 'a', 'l', 's', 'e'];
            proof {
                assert(lit@ =~= seq!['f', 'a', 'l', 's', 'e']);
            }
            if self.eat(&lit) {
                Ok(Json::Bool(false))
            } else {
                Err("invalid literal")
            }
        } else if c == 'n' {
            let lit = ['n', 'u', 'l', 'l'];
            proof {
                assert(lit@ =~= seq!['n', 'u', 'l', 'l']);
            }
            if self.eat(&lit) {
                Ok(Json::Null)
            } else {
                Err("invalid literal")
            }
        } else if c == '-' || is_digit_char(c) {
            self.number()
        } else {
            Err("unexpected character")
        };
        match v {
            Ok(x) => {
                self.depth = self.depth - 1;
                Ok(x)
            },
            Err(why) => Err(why),
        }
    }

    /// An object whose `{` is at the cursor; `self.depth` is its members' nesting.
    fn object(&mut self) -> (r: Result<Json, &'static str>)
        requires
            old(self).i < old(self).b@.len(),
            1 <= old(self).depth <= MAX_DEPTH,
        ensures
            final(self).b@ == old(self).b@,
            final(self).i <= final(self).b@.len(),
            match r {
                Ok(v) => p_object(old(self).b@, old(self).i as int, old(self).depth as int) == Some(
                    (v@, final(self).i as int),
                ) && final(self).depth == old(self).depth,
                Err(e) => p_object(old(self).b@, old(self).i as int, old(self).depth as int) is None && e
                    == p_object_err(old(self).b@, old(self).i as int, old(self).depth as int),
            },
        decreases MAX_DEPTH - old(self).depth + 1, 0int,
    {
        let ghost s = self.b@;
        let ghost d = self.depth as int;
        let n = self.b.len();
        let open = self.i;
        self.i = self.i + 1;
        let mut fields: Vec<(String, Json)> = Vec::new();
        self.ws();
        if self.peek_is('}') {
            self.i = self.i + 1;
            proof {
                lemma_obj_view(&fields, Seq::empty());
            }
            return Ok(Json::Obj(fields));
        }
        let ghost mut acc: Seq<(Seq<char>, JsonV)> = Seq::empty();
        loop
            invariant
                self.b@ == s,
                s == old(self).b@,
                open == old(self).i,
                self.depth == d,
                d == old(self).depth,
                n == s.len(),
                1 <= d <= MAX_DEPTH,
                open < self.i <= s.len(),
                acc.len() == fields@.len(),
                forall|k: int| 0 <= k < acc.len() ==> #[trigger] acc[k] == (fields@[k].0@, fields@[k].1@),
                p_object(s, open as int, d) == p_members(s, self.i as int, d, acc),
                p_object_err(s, open as int, d) == p_members_err(s, self.i as int, d),
            decreases s.len() - self.i,
        {
            let start = self.i;
            self.ws();
            if !self.peek_is('"') {
                return Err("object key must be a string");
            }
            let k = match self.string() {
                Ok(k) => k,
                Err(why) => {
                    return Err(why);
                },
            };
            self.ws();
            if !self.peek_is(':') {
                return Err("expected ':' after object key");
            }
            self.i = self.i + 1;
            self.ws();
            if self.i <= start {
                return Err("expected a value in object");
            }
            let v = match self.value() {
                Ok(v) => v,
                Err(why) => {
                    return Err(why);
                },
            };
            proof {
                acc = acc.push((k@, v@));
            }
            fields.push((k, v));
            self.ws();
            if self.peek_is(',') {
                if self.i + 1 <= start {
                    return Err("expected ',' or '}' in object");
                }
                self.i = self.i + 1;
            } else if self.peek_is('}') {
                self.i = self.i + 1;
                proof {
                    lemma_obj_view(&fields, acc);
                }
                return Ok(Json::Obj(fields));
            } else {
                return Err("expected ',' or '}' in object");
            }
        }
    }

    /// An array whose `[` is at the cursor; `self.depth` is its elements' nesting.
    fn array(&mut self) -> (r: Result<Json, &'static str>)
        requires
            old(self).i < old(self).b@.len(),
            1 <= old(self).depth <= MAX_DEPTH,
        ensures
            final(self).b@ == old(self).b@,
            final(self).i <= final(self).b@.len(),
            match r {
                Ok(v) => p_array(old(self).b@, old(self).i as int, old(self).depth as int) == Some(
                    (v@, final(self).i as int),
                ) && final(self).depth == old(self).depth,
                Err(e) => p_array(old(self).b@, old(self).i as int, old(self).depth as int) is None && e
                    == p_array_err(old(self).b@, old(self).i as int, old(self).depth as int),
            },
        decreases MAX_DEPTH - old(self).depth + 1, 0int,
    {
        let ghost s = self.b@;
        let ghost d = self.depth as int;
        let n = self.b.len();
        let open = self.i;
        self.i = self.i + 1;
        let mut items: Vec<Json> = Vec::new();
        self.ws();
        if self.peek_is(']') {
            self.i = self.i + 1;
            proof {
                lemma_arr_view(&items, Seq::empty());
            }
            return Ok(Json::Arr(items));
        }
        let ghost mut acc: Seq<JsonV> = Seq::empty();
        loop
            invariant
                self.b@ == s,
                s == old(self).b@,
                open == old(self).i,
                self.depth == d,
                d == old(self).depth,
                n == s.len(),
                1 <= d <= MAX_DEPTH,
                open < self.i <= s.len(),
                acc.len() == items@.len(),
                forall|k: int| 0 <= k < acc.len() ==> #[trigger] acc[k] == items@[k]@,
                p_array(s, open as int, d) == p_elems(s, self.i as int, d, acc),
                p_array_err(s, open as int, d) == p_elems_err(s, self.i as int, d),
            decreases s.len() - self.i,
        {
            let start = self.i;
            self.ws();
            let v = match self.value() {
                Ok(v) => v,
                Err(why) => {
                    return Err(why);
                },
            };
            proof {
                acc = acc.push(v@);
            }
            items.push(v);
            self.ws();
            if self.peek_is(',') {
                if self.i + 1 <= start {
                    return Err("expected ',' or ']' in array");
                }
                self.i = self.i + 1;
            } else if self.peek_is(']') {
                self.i = self.i + 1;
                proof {
                    lemma_arr_view(&items, acc);
                }
                return Ok(Json::Arr(items));
            } else {
                return Err("expected ',' or ']' in array");
            }
        }
    }
}

/// Parse one JSON value from `text`, which must contain nothing else.
pub fn parse_json(text: &str) -> (r: Result<Json, &'static str>)
    ensures
        match r {
            Ok(v) => parse_spec(text@) == Some(v@),
            Err(e) => parse_spec(text@) is None && e == parse_err(text@),
        },
{
    let mut p = Parser { b: chars_of(text), i: 0, depth: 0 };
    p.ws();
    let v = match p.value() {
        Ok(v) => v,
        Err(why) => {
            return Err(why);
        },
    };
    p.ws();
    if p.i != p.b.len() {
        return Err("trailing bytes after the top-level value");
    }
    Ok(v)
}


pub proof fn lemma_arr_view(items: &Vec<Json>, acc: Seq<JsonV>)
    requires
        acc.len() == items@.len(),
        forall|k: int| 0 <= k < acc.len() ==> #[trigger] acc[k] == items@[k]@,
    ensures
        json_view(Json::Arr(*items)) == JsonV::Arr(acc),
{
    match json_view(Json::Arr(*items)) {
        JsonV::Arr(x) => {
            assert(x =~= acc);
        },
        _ => {},
    }
}

proof fn lemma_obj_view(fields: &Vec<(String, Json)>, acc: Seq<(Seq<char>, JsonV)>)
    requires
        acc.len() == fields@.len(),
        forall|k: int| 0 <= k < acc.len() ==> #[trigger] acc[k] == (fields@[k].0@, fields@[k].1@),
    ensures
        json_view(Json::Obj(*fields)) == JsonV::Obj(acc),
{
    match json_view(Json::Obj(*fields)) {
        JsonV::Obj(x) => {
            assert(x =~= acc);
        },
        _ => {},
    }
}


// ── The string round trip ───────────────────────────────────────────────────

proof fn lemma_escape_front(c: char, t: Seq<char>)
    ensures
        escape(seq![c] + t) == escape_char(c) + escape(t),
    decreases t.len(),
{
    let u = seq![c] + t;
    if t.len() == 0 {
        assert(u.drop_last() =~= Seq::<char>::empty());
        assert(escape(Seq::<char>::empty()) =~= Seq::<char>::empty());
        assert(escape(u) =~= escape_char(c) + escape(t));
    } else {
        assert(u.drop_last() =~= seq![c] + t.drop_last());
        assert(u.last() == t.last());
        lemma_escape_front(c, t.drop_last());
        assert(escape(u) =~= escape_char(c) + escape(t));
    }
}

proof fn lemma_hex_value_of_digit(d: nat)
    requires
        d < 16,
    ensures
        hex_value(hex_digit(d)) == Some(d),
{
}

/// One escaped character at `i` decodes to itself.
proof fn lemma_p_str_step(s: Seq<char>, i: int, acc: Seq<char>, c: char)
    requires
        0 <= i,
        i + escape_char(c).len() < s.len(),
        s.subrange(i, i + escape_char(c).len()) == escape_char(c),
    ensures
        p_str(s, i, acc) == p_str(s, i + escape_char(c).len(), acc.push(c)),
{
    let e = escape_char(c);
    assert(s[i] == e[0]);
    if c == '"' || c == '\\' || c == '\n' || c == '\r' || c == '\t' {
        assert(s[i + 1] == e[1]);
    } else if (c as u32) < 0x20 {
        let cv = c as u32;
        let hi = (cv / 16) as nat;
        let lo = (cv % 16) as nat;
        assert(s[i + 1] == e[1]);
        let t = s.subrange(i + 2, i + 6);
        assert(t =~= seq!['0', '0', hex_digit(hi), hex_digit(lo)]);
        lemma_hex_value_of_digit(0);
        lemma_hex_value_of_digit(hi);
        lemma_hex_value_of_digit(lo);
        assert(hex_digit(0) == '0');
        let t1 = t.drop_last();
        let t2 = t1.drop_last();
        let t3 = t2.drop_last();
        let t4 = t3.drop_last();
        assert(t4 =~= Seq::<char>::empty());
        assert(hex_run(t4) == Some(0nat));
        assert(hex_run(t3) == Some(0nat));
        assert(hex_run(t2) == Some(0nat));
        assert(hex_run(t1) == Some(hi));
        assert(hex_run(t) == Some(hi * 16 + lo));
        assert(hi * 16 + lo == cv);
        assert(hex4_spec(s, i + 2) == Some(cv));
        assert(u_escape(s, i) == Some((cv, i + 6)));
        assert(is_scalar(cv));
        assert(scalar_or_replacement(cv) == c);
    } else {
    }
}

/// The escaped form of `t`, then a closing quote, decodes to `t`.
proof fn lemma_p_str_escaped(s: Seq<char>, i: int, acc: Seq<char>, t: Seq<char>)
    requires
        0 <= i,
        i + escape(t).len() + 1 <= s.len(),
        s.subrange(i, i + escape(t).len() + 1) == escape(t) + seq!['"'],
    ensures
        p_str(s, i, acc) == Some((acc + t, i + escape(t).len() + 1)),
    decreases t.len(),
{
    if t.len() == 0 {
        assert(escape(t) =~= Seq::<char>::empty());
        assert(escape(t) + seq!['"'] =~= seq!['"']);
        assert(s.subrange(i, i + 1)[0] == s[i]);
        assert(s[i] == '"');
        assert(acc + t =~= acc);
    } else {
        let c = t[0];
        let rest = t.drop_first();
        assert(t =~= seq![c] + rest);
        lemma_escape_front(c, rest);
        let e = escape_char(c);
        let k = e.len();
        assert(s.subrange(i, i + k) =~= s.subrange(i, i + escape(t).len() + 1).subrange(0, k as int));
        assert(s.subrange(i, i + k) =~= e);
        lemma_p_str_step(s, i, acc, c);
        assert(s.subrange(i + k, i + k + escape(rest).len() + 1) =~= s.subrange(
            i,
            i + escape(t).len() + 1,
        ).subrange(k as int, escape(t).len() + 1 as int));
        let whole = escape(t) + seq!['"'];
        assert(whole =~= e + (escape(rest) + seq!['"']));
        assert(whole.subrange(k as int, whole.len() as int) =~= escape(rest) + seq!['"']);
        lemma_p_str_escaped(s, i + k, acc.push(c), rest);
        assert(acc.push(c) + rest =~= acc + t);
    }
}

/// Reading back what [`Json::write`] writes for a string gives the string.
pub proof fn lemma_string_round_trip(t: Seq<char>)
    ensures
        parse_spec(render(JsonV::Str(t))) == Some(JsonV::Str(t)),
{
    let s = render(JsonV::Str(t));
    assert(s == seq!['"'] + escape(t) + seq!['"']);
    assert(s[0] == '"');
    assert(skip_ws(s, 0) == 0);
    assert(s.subrange(1, 1 + escape(t).len() + 1 as int) =~= escape(t) + seq!['"']);
    lemma_p_str_escaped(s, 1, Seq::empty(), t);
    assert(Seq::<char>::empty() + t =~= t);
    assert(p_value(s, 0, 0) == Some((JsonV::Str(t), s.len() as int)));
    assert(skip_ws(s, s.len() as int) == s.len());
}


// ── What is written reads back ──────────────────────────────────────────────

/// A character that can continue a number literal.
pub open spec fn number_char(c: char) -> bool {
    is_digit(c) || c == '.' || c == 'e' || c == 'E' || c == '+' || c == '-'
}

/// `raw` is a whole number literal, as the parser reads one.
pub open spec fn number_text(raw: Seq<char>) -> bool {
    p_number(raw, 0) == Some((raw, raw.len() as int))
}

/// `w` stands in `s` at `i`.
pub open spec fn stands_at(s: Seq<char>, i: int, w: Seq<char>) -> bool {
    0 <= i && i + w.len() <= s.len() && s.subrange(i, i + w.len()) == w
}

/// Nothing at `e` in `s` could continue a number.
pub open spec fn stops_at(s: Seq<char>, e: int) -> bool {
    e == s.len() || (0 <= e < s.len() && !number_char(s[e]))
}

pub open spec fn shifted(x: Option<int>, o: int) -> Option<int> {
    match x {
        Some(b) => Some(o + b),
        None => None,
    }
}

proof fn lemma_digits_end_local(raw: Seq<char>, s: Seq<char>, o: int, k: int)
    requires
        stands_at(s, o, raw),
        stops_at(s, o + raw.len()),
        0 <= k <= raw.len(),
    ensures
        digits_end(s, o + k) == o + digits_end(raw, k),
    decreases raw.len() - k,
{
    if k < raw.len() {
        assert(s[o + k] == s.subrange(o, o + raw.len())[k]);
        if is_digit(raw[k]) {
            lemma_digits_end_local(raw, s, o, k + 1);
        }
    }
}

proof fn lemma_number_parts_local(raw: Seq<char>, s: Seq<char>, o: int, a: int)
    requires
        stands_at(s, o, raw),
        stops_at(s, o + raw.len()),
        0 <= a <= raw.len(),
    ensures
        num_int_end(s, o + a) == shifted(num_int_end(raw, a), o),
        num_frac_end(s, o + a) == shifted(num_frac_end(raw, a), o),
        num_exp_end(s, o + a) == shifted(num_exp_end(raw, a), o),
{
    let n = raw.len() as int;
    assert forall|p: int| 0 <= p < n implies #[trigger] s[o + p] == raw[p] by {
        assert(s[o + p] == s.subrange(o, o + n)[p]);
    }
    if a < n {
        assert(s[o + a] == raw[a]);
    }
    if a + 1 < n {
        assert(s[o + a + 1] == raw[a + 1]);
    }
    if a + 1 <= n {
        lemma_digits_end_local(raw, s, o, a + 1);
    }
    if a + 2 <= n {
        lemma_digits_end_local(raw, s, o, a + 2);
    }
    lemma_digits_end_local(raw, s, o, a);
}

/// A number literal followed by anything that cannot continue it reads as
/// itself, wherever it stands.
proof fn lemma_p_number_local(raw: Seq<char>, s: Seq<char>, o: int)
    requires
        number_text(raw),
        stands_at(s, o, raw),
        stops_at(s, o + raw.len()),
    ensures
        p_number(s, o) == Some((raw, o + raw.len())),
        raw.len() > 0,
        raw[0] == '-' || is_digit(raw[0]),
{
    let n = raw.len() as int;
    let a = if 0 < n && raw[0] == '-' {
        1int
    } else {
        0int
    };
    if 0 < n {
        assert(s[o] == s.subrange(o, o + n)[0]);
    }
    lemma_number_parts_local(raw, s, o, a);
    let b = num_int_end(raw, a)->0;
    lemma_number_parts_local(raw, s, o, b);
    let c = num_frac_end(raw, b)->0;
    lemma_number_parts_local(raw, s, o, c);
    assert(s.subrange(o, o + n) =~= raw);
}

proof fn lemma_digits_end_prefix(s: Seq<char>, o: int, e: int, k: int)
    requires
        0 <= o <= o + k <= e <= s.len(),
        digits_end(s, o + k) <= e,
    ensures
        digits_end(s.subrange(o, e), k) == digits_end(s, o + k) - o,
    decreases e - (o + k),
{
    let raw = s.subrange(o, e);
    lemma_digits_end(s, o + k);
    if o + k < e {
        assert(raw[k] == s[o + k]);
        if is_digit(s[o + k]) {
            lemma_digits_end_prefix(s, o, e, k + 1);
        }
    }
}

/// The text the parser takes as a number is a whole number literal.
proof fn lemma_parsed_number_is_text(s: Seq<char>, i: int)
    ensures
        p_number(s, i) matches Some((raw, _)) ==> number_text(raw),
{
    if p_number(s, i) is None {
        return;
    }
    let a = if 0 <= i < s.len() && s[i] == '-' {
        i + 1
    } else {
        i
    };
    let b = num_int_end(s, a)->0;
    let c = num_frac_end(s, b)->0;
    let e = num_exp_end(s, c)->0;
    if a <= s.len() {
        lemma_digits_end(s, a);
    }
    if b + 1 <= s.len() {
        lemma_digits_end(s, b + 1);
    }
    if c + 1 <= s.len() {
        lemma_digits_end(s, c + 1);
    }
    if c + 2 <= s.len() {
        lemma_digits_end(s, c + 2);
    }
    let raw = s.subrange(i, e);
    assert(i <= a < b <= c <= e <= s.len());
    assert forall|p: int| 0 <= p < raw.len() implies #[trigger] raw[p] == s[i + p] by {}
    let ra = a - i;
    if s[a] != '0' {
        lemma_digits_end_prefix(s, i, e, ra);
    }
    assert(num_int_end(raw, ra) == Some(b - i));
    if b < s.len() && s[b] == '.' {
        lemma_digits_end_prefix(s, i, e, b + 1 - i);
    }
    assert(num_frac_end(raw, b - i) == Some(c - i));
    if c < s.len() && (s[c] == 'e' || s[c] == 'E') {
        let k = if c + 1 < s.len() && (s[c + 1] == '+' || s[c + 1] == '-') {
            c + 2
        } else {
            c + 1
        };
        lemma_digits_end_prefix(s, i, e, k - i);
    }
    assert(num_exp_end(raw, c - i) == Some(e - i));
    assert(raw.subrange(0, raw.len() as int) =~= raw);
}

/// `v` reads back as written when every number in it is a whole number
/// literal and it nests no deeper than `room` levels.
pub open spec fn readable(v: JsonV, room: int) -> bool
    decreases v,
{
    room >= 1 && match v {
        JsonV::Num(raw) => number_text(raw),
        JsonV::Arr(items) => forall|k: int| 0 <= k < items.len() ==> readable(#[trigger] items[k], room - 1),
        JsonV::Obj(fields) => forall|k: int| 0 <= k < fields.len() ==> readable(#[trigger] fields[k].1, room - 1),
        _ => true,
    }
}

proof fn lemma_render_items_front(items: Seq<JsonV>)
    requires
        items.len() >= 2,
    ensures
        render_items(items) == render(items[0]) + seq![','] + render_items(items.drop_first()),
    decreases items.len(),
{
    if items.len() == 2 {
        assert(items.drop_last() =~= seq![items[0]]);
        assert(render_items(items.drop_last()) == render(items[0]));
        assert(items.drop_first() =~= seq![items[1]]);
        assert(render_items(items.drop_first()) == render(items[1]));
    } else {
        lemma_render_items_front(items.drop_last());
        assert(items.drop_last().drop_first() =~= items.drop_first().drop_last());
        assert(items.drop_last()[0] == items[0]);
        assert(items.drop_first().last() == items.last());
    }
}

proof fn lemma_render_fields_front(fields: Seq<(Seq<char>, JsonV)>)
    requires
        fields.len() >= 2,
    ensures
        render_fields(fields) == render_field(fields[0]) + seq![','] + render_fields(fields.drop_first()),
    decreases fields.len(),
{
    if fields.len() == 2 {
        assert(fields.drop_last() =~= seq![fields[0]]);
        assert(render_fields(fields.drop_last()) == render_field(fields[0]));
        assert(fields.drop_first() =~= seq![fields[1]]);
        assert(render_fields(fields.drop_first()) == render_field(fields[1]));
    } else {
        lemma_render_fields_front(fields.drop_last());
        assert(fields.drop_last().drop_first() =~= fields.drop_first().drop_last());
        assert(fields.drop_last()[0] == fields[0]);
        assert(fields.drop_first().last() == fields.last());
    }
}

/// What a rendered value starts with: never whitespace, never nothing.
proof fn lemma_render_starts(v: JsonV, room: int)
    requires
        readable(v, room),
    ensures
        render(v).len() > 0,
        !is_ws(render(v)[0]),
        render(v)[0] == '{' <==> v is Obj,
        render(v)[0] == '[' <==> v is Arr,
        render(v)[0] == '"' <==> v is Str,
{
    match v {
        JsonV::Num(raw) => {
            lemma_p_number_local(raw, raw, 0);
            assert(raw.subrange(0, raw.len() as int) =~= raw);
        },
        _ => {},
    }
}

proof fn lemma_stands_split(s: Seq<char>, i: int, a: Seq<char>, b: Seq<char>)
    requires
        stands_at(s, i, a + b),
    ensures
        stands_at(s, i, a),
        stands_at(s, i + a.len(), b),
{
    let w = s.subrange(i, i + (a + b).len());
    assert(w == a + b);
    assert(w.subrange(0, a.len() as int) =~= a);
    assert(w.subrange(a.len() as int, (a + b).len() as int) =~= b);
    assert(s.subrange(i, i + a.len()) =~= w.subrange(0, a.len() as int));
    assert(s.subrange(i + a.len(), i + a.len() + b.len()) =~= w.subrange(a.len() as int, (a + b).len() as int));
}

proof fn lemma_stands_char(s: Seq<char>, i: int, w: Seq<char>, k: int)
    requires
        stands_at(s, i, w),
        0 <= k < w.len(),
    ensures
        s[i + k] == w[k],
{
    assert(s[i + k] == s.subrange(i, i + w.len())[k]);
}

/// A rendered value, standing where the parser reads one with nothing after
/// it that could continue a number, is read back as itself.
#[verifier::spinoff_prover]
#[verifier::rlimit(60)]
proof fn lemma_value_reads_back(v: JsonV, s: Seq<char>, i: int, d: int)
    requires
        0 <= d,
        readable(v, MAX_DEPTH - d),
        stands_at(s, i, render(v)),
        stops_at(s, i + render(v).len()),
    ensures
        p_value(s, i, d) == Some((v, i + render(v).len())),
    decreases v, 0int,
{
    lemma_render_starts(v, MAX_DEPTH - d);
    let r = render(v);
    lemma_stands_char(s, i, r, 0);
    match v {
        JsonV::Null => {
            assert(s.subrange(i, i + 4) =~= seq!['n', 'u', 'l', 'l']);
        },
        JsonV::Bool(b) => {
            if b {
                assert(s.subrange(i, i + 4) =~= seq!['t', 'r', 'u', 'e']);
            } else {
                assert(s.subrange(i, i + 5) =~= seq!['f', 'a', 'l', 's', 'e']);
            }
        },
        JsonV::Num(raw) => {
            lemma_p_number_local(raw, s, i);
        },
        JsonV::Str(t) => {
            assert(r =~= seq!['"'] + (escape(t) + seq!['"']));
            lemma_stands_split(s, i, seq!['"'], escape(t) + seq!['"']);
            lemma_p_str_escaped(s, i + 1, Seq::empty(), t);
            assert(Seq::<char>::empty() + t =~= t);
        },
        JsonV::Arr(items) => {
            let inner = render_items(items);
            assert(r =~= seq!['['] + (inner + seq![']']));
            lemma_stands_split(s, i, seq!['['], inner + seq![']']);
            if items.len() == 0 {
                lemma_stands_char(s, i + 1, inner + seq![']'], 0);
                assert(p_array(s, i, d + 1) == Some((JsonV::Arr(Seq::<JsonV>::empty()), i + 2)));
                assert(items =~= Seq::<JsonV>::empty());
            } else {
                assert(items.subrange(0, items.len() as int) =~= items);
                assert(items.subrange(0, 0) =~= Seq::<JsonV>::empty());
                lemma_elems_read_back(items, 0, s, i + 1, d + 1);
                lemma_render_starts(items[0], MAX_DEPTH - d - 1);
                if items.len() >= 2 {
                    lemma_render_items_front(items);
                }
                lemma_stands_char(s, i + 1, inner + seq![']'], 0);
                assert(s[i + 1] == render(items[0])[0]);
            }
        },
        JsonV::Obj(fields) => {
            let inner = render_fields(fields);
            assert(r =~= seq!['{'] + (inner + seq!['}']));
            lemma_stands_split(s, i, seq!['{'], inner + seq!['}']);
            if fields.len() == 0 {
                lemma_stands_char(s, i + 1, inner + seq!['}'], 0);
                assert(p_object(s, i, d + 1) == Some((JsonV::Obj(Seq::<(Seq<char>, JsonV)>::empty()), i + 2)));
                assert(fields =~= Seq::<(Seq<char>, JsonV)>::empty());
            } else {
                assert(fields.subrange(0, fields.len() as int) =~= fields);
                assert(fields.subrange(0, 0) =~= Seq::<(Seq<char>, JsonV)>::empty());
                lemma_members_read_back(fields, 0, s, i + 1, d + 1);
                if fields.len() >= 2 {
                    lemma_render_fields_front(fields);
                }
                lemma_stands_char(s, i + 1, inner + seq!['}'], 0);
                assert(s[i + 1] == '"');
            }
        },
    }
}

/// Elements `k..` of an array, rendered and closed, read back after the
/// elements before `k`.
proof fn lemma_elems_read_back(items: Seq<JsonV>, k: int, s: Seq<char>, j: int, d: int)
    requires
        1 <= d,
        0 <= k < items.len(),
        forall|m: int| 0 <= m < items.len() ==> readable(#[trigger] items[m], MAX_DEPTH - d),
        stands_at(s, j, render_items(items.subrange(k, items.len() as int)) + seq![']']),
    ensures
        p_elems(s, j, d, items.subrange(0, k)) == Some(
            (JsonV::Arr(items), j + render_items(items.subrange(k, items.len() as int)).len() + 1),
        ),
    decreases items, items.len() - k,
{
    let n = items.len() as int;
    let rest = items.subrange(k, n);
    let v = items[k];
    assert(rest[0] == v);
    assert(readable(v, MAX_DEPTH - d));
    lemma_render_starts(v, MAX_DEPTH - d);
    let rv = render(v);
    if rest.len() == 1 {
        assert(render_items(rest) == rv);
        lemma_stands_split(s, j, rv, seq![']']);
        lemma_stands_char(s, j + rv.len(), seq![']'], 0);
        lemma_stands_char(s, j, rv, 0);
        lemma_value_reads_back(v, s, j, d);
        assert(items.subrange(0, k).push(v) =~= items);
    } else {
        lemma_render_items_front(rest);
        let tail = rest.drop_first();
        assert(tail =~= items.subrange(k + 1, n));
        let more = render_items(tail) + seq![']'];
        assert(render_items(rest) + seq![']'] =~= rv + (seq![','] + more));
        lemma_stands_split(s, j, rv, seq![','] + more);
        lemma_stands_split(s, j + rv.len(), seq![','], more);
        lemma_stands_char(s, j + rv.len(), seq![','], 0);
        lemma_stands_char(s, j, rv, 0);
        lemma_value_reads_back(v, s, j, d);
        lemma_elems_read_back(items, k + 1, s, j + rv.len() + 1, d);
        assert(items.subrange(0, k).push(v) =~= items.subrange(0, k + 1));
    }
}

/// Members `k..` of an object, rendered and closed, read back after the
/// members before `k`.
#[verifier::spinoff_prover]
#[verifier::rlimit(80)]
proof fn lemma_members_read_back(fields: Seq<(Seq<char>, JsonV)>, k: int, s: Seq<char>, j: int, d: int)
    requires
        1 <= d,
        0 <= k < fields.len(),
        forall|m: int| 0 <= m < fields.len() ==> readable(#[trigger] fields[m].1, MAX_DEPTH - d),
        stands_at(s, j, render_fields(fields.subrange(k, fields.len() as int)) + seq!['}']),
    ensures
        p_members(s, j, d, fields.subrange(0, k)) == Some(
            (JsonV::Obj(fields), j + render_fields(fields.subrange(k, fields.len() as int)).len() + 1),
        ),
    decreases fields, fields.len() - k,
{
    let n = fields.len() as int;
    let rest = fields.subrange(k, n);
    let f = fields[k];
    assert(rest[0] == f);
    let v = f.1;
    assert(readable(v, MAX_DEPTH - d));
    lemma_render_starts(v, MAX_DEPTH - d);
    let rv = render(v);
    let key = quoted(f.0);
    let closing = if rest.len() == 1 {
        seq!['}']
    } else {
        seq![','] + render_fields(rest.drop_first()) + seq!['}']
    };
    if rest.len() == 1 {
        assert(render_fields(rest) == render_field(f));
    } else {
        lemma_render_fields_front(rest);
    }
    assert(render_fields(rest) + seq!['}'] =~= key + (seq![':'] + (rv + closing)));
    lemma_stands_split(s, j, key, seq![':'] + (rv + closing));
    lemma_stands_split(s, j + key.len(), seq![':'], rv + closing);
    lemma_stands_split(s, j + key.len() + 1, rv, closing);
    lemma_stands_char(s, j + key.len(), seq![':'], 0);
    lemma_stands_char(s, j + key.len() + 1, rv, 0);
    lemma_stands_char(s, j + key.len() + 1 + rv.len(), closing, 0);
    // The key.
    assert(key =~= seq!['"'] + (escape(f.0) + seq!['"']));
    lemma_stands_split(s, j, seq!['"'], escape(f.0) + seq!['"']);
    lemma_stands_char(s, j, seq!['"'], 0);
    lemma_p_str_escaped(s, j + 1, Seq::empty(), f.0);
    assert(Seq::<char>::empty() + f.0 =~= f.0);
    // The value.
    lemma_value_reads_back(v, s, j + key.len() + 1, d);
    if rest.len() == 1 {
        assert(fields.subrange(0, k).push((f.0, v)) =~= fields);
    } else {
        let tail = rest.drop_first();
        assert(tail =~= fields.subrange(k + 1, n));
        assert(closing =~= seq![','] + (render_fields(tail) + seq!['}']));
        lemma_stands_split(s, j + key.len() + 1 + rv.len(), seq![','], render_fields(tail) + seq!['}']);
        lemma_members_read_back(fields, k + 1, s, j + key.len() + 1 + rv.len() + 1, d);
        assert(fields.subrange(0, k).push((f.0, v)) =~= fields.subrange(0, k + 1));
    }
}

/// What the library writes for a value it reads back as that value, for
/// every value whose numbers are whole number literals and whose nesting
/// is within [`MAX_DEPTH`].
pub proof fn lemma_render_reads_back(v: JsonV)
    requires
        readable(v, MAX_DEPTH as int),
    ensures
        parse_spec(render(v)) == Some(v),
{
    let s = render(v);
    assert(s.subrange(0, s.len() as int) =~= s);
    lemma_render_starts(v, MAX_DEPTH as int);
    lemma_value_reads_back(v, s, 0, 0);
}

/// `w` is made of JSON's insignificant whitespace: space, tab, line feed
/// and carriage return.
pub open spec fn json_whitespace(w: Seq<char>) -> bool {
    forall|k: int| 0 <= k < w.len() ==> (#[trigger] w[k] == ' ' || w[k] == '\t' || w[k] == '\n' || w[k] == '\r')
}

proof fn lemma_skip_run(s: Seq<char>, k: int, e: int)
    requires
        0 <= k <= e <= s.len(),
        forall|j: int| k <= j < e ==> (#[trigger] s[j] == ' ' || s[j] == '\t' || s[j] == '\n' || s[j] == '\r'),
        e < s.len() ==> !is_ws(s[e]),
    ensures
        skip_ws(s, k) == e,
    decreases e - k,
{
    if k < e {
        assert(s[k] == ' ' || s[k] == '\t' || s[k] == '\n' || s[k] == '\r');
        lemma_skip_run(s, k + 1, e);
    }
}

/// Whitespace around a value is insignificant: any run of spaces, tabs,
/// line feeds and carriage returns before and after a value's text leaves
/// it reading as the same value.
pub proof fn lemma_whitespace_around_a_value_is_insignificant(v: JsonV, before: Seq<char>, after: Seq<char>)
    requires
        readable(v, MAX_DEPTH as int),
        json_whitespace(before),
        json_whitespace(after),
    ensures
        parse_spec(before + render(v) + after) == Some(v),
{
    let r = render(v);
    let s = before + r + after;
    let b = before.len() as int;
    let e = b + r.len();
    lemma_render_starts(v, MAX_DEPTH as int);
    assert(s[b] == r[0]);
    assert forall|j: int| 0 <= j < b implies (#[trigger] s[j] == ' ' || s[j] == '\t' || s[j] == '\n' || s[j] == '\r') by {
        assert(s[j] == before[j]);
    }
    lemma_skip_run(s, 0, b);
    assert(s.subrange(b, e) =~= r);
    if e < s.len() {
        assert(s[e] == after[0]);
    }
    lemma_value_reads_back(v, s, b, 0);
    assert forall|j: int| e <= j < s.len() implies (#[trigger] s[j] == ' ' || s[j] == '\t' || s[j] == '\n' || s[j] == '\r') by {
        assert(s[j] == after[j - e]);
    }
    lemma_skip_run(s, e, s.len() as int);
}

/// So any text a body parses to is read the same when its value is written
/// with whitespace around it.
pub proof fn lemma_parsed_value_reads_back_with_whitespace(text: Seq<char>, before: Seq<char>, after: Seq<char>)
    requires
        json_whitespace(before),
        json_whitespace(after),
    ensures
        parse_spec(text) matches Some(v) ==> parse_spec(before + render(v) + after) == Some(v),
{
    lemma_parsed_reads_back(text);
    if let Some(v) = parse_spec(text) {
        lemma_whitespace_around_a_value_is_insignificant(v, before, after);
    }
}

// ── Whitespace between tokens ───────────────────────────────────────────────

/// A value written with the whitespace `w` between every two of its tokens:
/// after each `[`, `{`, `:` and `,`, and before each `:`, `,`, `]` and `}`.
pub open spec fn spaced(v: JsonV, w: Seq<char>) -> Seq<char>
    decreases v,
{
    match v {
        JsonV::Arr(items) => if items.len() == 0 {
            seq!['['] + w + seq![']']
        } else {
            seq!['['] + w + spaced_items(items, w) + w + seq![']']
        },
        JsonV::Obj(fields) => if fields.len() == 0 {
            seq!['{'] + w + seq!['}']
        } else {
            seq!['{'] + w + spaced_fields(fields, w) + w + seq!['}']
        },
        _ => render(v),
    }
}

pub open spec fn spaced_items(items: Seq<JsonV>, w: Seq<char>) -> Seq<char>
    decreases items,
{
    if items.len() == 0 {
        Seq::empty()
    } else if items.len() == 1 {
        spaced(items[0], w)
    } else {
        spaced_items(items.drop_last(), w) + w + seq![','] + w + spaced(items.last(), w)
    }
}

pub open spec fn spaced_field(f: (Seq<char>, JsonV), w: Seq<char>) -> Seq<char>
    decreases f,
{
    quoted(f.0) + w + seq![':'] + w + spaced(f.1, w)
}

pub open spec fn spaced_fields(fields: Seq<(Seq<char>, JsonV)>, w: Seq<char>) -> Seq<char>
    decreases fields,
{
    if fields.len() == 0 {
        Seq::empty()
    } else if fields.len() == 1 {
        spaced_field(fields[0], w)
    } else {
        spaced_fields(fields.drop_last(), w) + w + seq![','] + w + spaced_field(fields.last(), w)
    }
}

proof fn lemma_spaced_items_front(items: Seq<JsonV>, w: Seq<char>)
    requires
        items.len() >= 2,
    ensures
        spaced_items(items, w) == spaced(items[0], w) + w + seq![','] + w + spaced_items(items.drop_first(), w),
    decreases items.len(),
{
    if items.len() == 2 {
        assert(items.drop_last() =~= seq![items[0]]);
        assert(spaced_items(items.drop_last(), w) == spaced(items[0], w));
        assert(items.drop_first() =~= seq![items[1]]);
        assert(spaced_items(items.drop_first(), w) == spaced(items[1], w));
    } else {
        lemma_spaced_items_front(items.drop_last(), w);
        assert(items.drop_last().drop_first() =~= items.drop_first().drop_last());
        assert(items.drop_last()[0] == items[0]);
        assert(items.drop_first().last() == items.last());
    }
}

proof fn lemma_spaced_fields_front(fields: Seq<(Seq<char>, JsonV)>, w: Seq<char>)
    requires
        fields.len() >= 2,
    ensures
        spaced_fields(fields, w) == spaced_field(fields[0], w) + w + seq![','] + w + spaced_fields(
            fields.drop_first(),
            w,
        ),
    decreases fields.len(),
{
    if fields.len() == 2 {
        assert(fields.drop_last() =~= seq![fields[0]]);
        assert(spaced_fields(fields.drop_last(), w) == spaced_field(fields[0], w));
        assert(fields.drop_first() =~= seq![fields[1]]);
        assert(spaced_fields(fields.drop_first(), w) == spaced_field(fields[1], w));
    } else {
        lemma_spaced_fields_front(fields.drop_last(), w);
        assert(fields.drop_last().drop_first() =~= fields.drop_first().drop_last());
        assert(fields.drop_last()[0] == fields[0]);
        assert(fields.drop_first().last() == fields.last());
    }
}

/// A spaced value starts with what its compact text starts with.
proof fn lemma_spaced_starts(v: JsonV, w: Seq<char>, room: int)
    requires
        readable(v, room),
    ensures
        spaced(v, w).len() > 0,
        spaced(v, w)[0] == render(v)[0],
        !is_ws(spaced(v, w)[0]),
{
    lemma_render_starts(v, room);
}

/// Whitespace `u` standing at `i`, followed by something else: the skip
/// lands right after it.
proof fn lemma_skip_w(s: Seq<char>, i: int, u: Seq<char>)
    requires
        stands_at(s, i, u),
        json_whitespace(u),
        i + u.len() < s.len() ==> !is_ws(s[i + u.len()]),
    ensures
        skip_ws(s, i) == i + u.len(),
{
    assert forall|j: int| i <= j < i + u.len() implies (#[trigger] s[j] == ' ' || s[j] == '\t' || s[j] == '\n' || s[j]
        == '\r') by {
        lemma_stands_char(s, i, u, j - i);
        assert(u[j - i] == ' ' || u[j - i] == '\t' || u[j - i] == '\n' || u[j - i] == '\r');
    }
    lemma_skip_run(s, i, i + u.len());
}

/// What follows a spaced value in a spaced text never continues a number.
proof fn lemma_stops_after(s: Seq<char>, e: int, w: Seq<char>, closer: char)
    requires
        stands_at(s, e, w + seq![closer]),
        json_whitespace(w),
        closer == ',' || closer == ']' || closer == '}',
    ensures
        stops_at(s, e),
{
    lemma_stands_char(s, e, w + seq![closer], 0);
    if w.len() > 0 {
        assert((w + seq![closer])[0] == w[0]);
        assert(w[0] == ' ' || w[0] == '\t' || w[0] == '\n' || w[0] == '\r');
    } else {
        assert((w + seq![closer])[0] == closer);
    }
}

#[verifier::spinoff_prover]
#[verifier::rlimit(80)]
proof fn lemma_spaced_value_reads_back(v: JsonV, w: Seq<char>, s: Seq<char>, i: int, d: int)
    requires
        0 <= d,
        readable(v, MAX_DEPTH - d),
        json_whitespace(w),
        stands_at(s, i, spaced(v, w)),
        stops_at(s, i + spaced(v, w).len()),
    ensures
        p_value(s, i, d) == Some((v, i + spaced(v, w).len())),
    decreases v, 0int,
{
    lemma_render_starts(v, MAX_DEPTH - d);
    let r = spaced(v, w);
    lemma_stands_char(s, i, r, 0);
    match v {
        JsonV::Arr(items) => {
            if items.len() == 0 {
                assert(r =~= seq!['['] + (w + seq![']']));
                lemma_stands_split(s, i, seq!['['], w + seq![']']);
                lemma_stands_split(s, i + 1, w, seq![']']);
                lemma_stands_char(s, i + 1 + w.len(), seq![']'], 0);
                lemma_skip_w(s, i + 1, w);
                assert(items =~= Seq::<JsonV>::empty());
            } else {
                let inner = spaced_items(items, w);
                let u = Seq::<char>::empty();
                assert(r =~= seq!['['] + (w + (u + inner + w + seq![']'])));
                lemma_stands_split(s, i, seq!['['], w + (u + inner + w + seq![']']));
                lemma_stands_split(s, i + 1, w, u + inner + w + seq![']']);
                lemma_spaced_starts(items[0], w, MAX_DEPTH - d - 1);
                if items.len() >= 2 {
                    lemma_spaced_items_front(items, w);
                }
                assert(inner[0] == spaced(items[0], w)[0]);
                lemma_stands_char(s, i + 1 + w.len(), u + inner + w + seq![']'], 0);
                lemma_skip_w(s, i + 1, w);
                assert(items.subrange(0, items.len() as int) =~= items);
                assert(items.subrange(0, 0) =~= Seq::<JsonV>::empty());
                lemma_spaced_elems_read_back(items, 0, w, u, s, i + 1 + w.len(), d + 1);
                assert(p_elems(s, i + 1 + w.len(), d + 1, Seq::<JsonV>::empty()) == Some(
                    (JsonV::Arr(items), i + r.len()),
                ));
                assert(p_array(s, i, d + 1) == Some((JsonV::Arr(items), i + r.len())));
            }
        },
        JsonV::Obj(fields) => {
            if fields.len() == 0 {
                assert(r =~= seq!['{'] + (w + seq!['}']));
                lemma_stands_split(s, i, seq!['{'], w + seq!['}']);
                lemma_stands_split(s, i + 1, w, seq!['}']);
                lemma_stands_char(s, i + 1 + w.len(), seq!['}'], 0);
                lemma_skip_w(s, i + 1, w);
                assert(fields =~= Seq::<(Seq<char>, JsonV)>::empty());
            } else {
                let inner = spaced_fields(fields, w);
                let u = Seq::<char>::empty();
                assert(r =~= seq!['{'] + (w + (u + inner + w + seq!['}'])));
                lemma_stands_split(s, i, seq!['{'], w + (u + inner + w + seq!['}']));
                lemma_stands_split(s, i + 1, w, u + inner + w + seq!['}']);
                if fields.len() >= 2 {
                    lemma_spaced_fields_front(fields, w);
                }
                assert(quoted(fields[0].0)[0] == '"');
                assert(spaced_field(fields[0], w)[0] == quoted(fields[0].0)[0]);
                assert(inner[0] == '"');
                lemma_stands_char(s, i + 1 + w.len(), u + inner + w + seq!['}'], 0);
                lemma_skip_w(s, i + 1, w);
                assert(fields.subrange(0, fields.len() as int) =~= fields);
                assert(fields.subrange(0, 0) =~= Seq::<(Seq<char>, JsonV)>::empty());
                lemma_spaced_members_read_back(fields, 0, w, u, s, i + 1 + w.len(), d + 1);
            }
        },
        _ => {
            assert(r == render(v));
            lemma_value_reads_back(v, s, i, d);
        },
    }
}

/// Elements `k..` of a spaced array, after whitespace `u`, read back after
/// the elements before `k`.
#[verifier::spinoff_prover]
#[verifier::rlimit(80)]
proof fn lemma_spaced_elems_read_back(
    items: Seq<JsonV>,
    k: int,
    w: Seq<char>,
    u: Seq<char>,
    s: Seq<char>,
    j: int,
    d: int,
)
    requires
        1 <= d,
        0 <= k < items.len(),
        forall|m: int| 0 <= m < items.len() ==> readable(#[trigger] items[m], MAX_DEPTH - d),
        json_whitespace(w),
        json_whitespace(u),
        stands_at(s, j, u + spaced_items(items.subrange(k, items.len() as int), w) + w + seq![']']),
    ensures
        p_elems(s, j, d, items.subrange(0, k)) == Some(
            (
                JsonV::Arr(items),
                j + u.len() + spaced_items(items.subrange(k, items.len() as int), w).len() + w.len() + 1,
            ),
        ),
    decreases items, items.len() - k,
{
    let n = items.len() as int;
    let rest = items.subrange(k, n);
    let v = items[k];
    assert(rest[0] == v);
    assert(readable(v, MAX_DEPTH - d));
    lemma_spaced_starts(v, w, MAX_DEPTH - d);
    let rv = spaced(v, w);
    let a = j + u.len();
    if rest.len() == 1 {
        assert(spaced_items(rest, w) == rv);
        let tail_text = w + seq![']'];
        assert(u + spaced_items(rest, w) + w + seq![']'] =~= u + (rv + tail_text));
        lemma_stands_split(s, j, u, rv + tail_text);
        lemma_stands_split(s, a, rv, tail_text);
        lemma_stands_char(s, a, rv, 0);
        lemma_skip_w(s, j, u);
        lemma_stops_after(s, a + rv.len(), w, ']');
        lemma_spaced_value_reads_back(v, w, s, a, d);
        lemma_stands_split(s, a + rv.len(), w, seq![']']);
        lemma_stands_char(s, a + rv.len() + w.len(), seq![']'], 0);
        lemma_skip_w(s, a + rv.len(), w);
        assert(items.subrange(0, k).push(v) =~= items);
    } else {
        lemma_spaced_items_front(rest, w);
        let tail = rest.drop_first();
        assert(tail =~= items.subrange(k + 1, n));
        let more = w + spaced_items(tail, w) + w + seq![']'];
        assert(u + spaced_items(rest, w) + w + seq![']'] =~= u + (rv + (w + (seq![','] + more))));
        lemma_stands_split(s, j, u, rv + (w + (seq![','] + more)));
        lemma_stands_split(s, a, rv, w + (seq![','] + more));
        lemma_stands_split(s, a + rv.len(), w, seq![','] + more);
        lemma_stands_split(s, a + rv.len() + w.len(), seq![','], more);
        lemma_stands_char(s, a + rv.len() + w.len(), seq![','], 0);
        lemma_stands_char(s, a, rv, 0);
        lemma_skip_w(s, j, u);
        assert(w + (seq![','] + more) =~= (w + seq![',']) + more);
        lemma_stands_split(s, a + rv.len(), w + seq![','], more);
        lemma_stops_after(s, a + rv.len(), w, ',');
        lemma_spaced_value_reads_back(v, w, s, a, d);
        lemma_skip_w(s, a + rv.len(), w);
        lemma_spaced_elems_read_back(items, k + 1, w, w, s, a + rv.len() + w.len() + 1, d);
        assert(items.subrange(0, k).push(v) =~= items.subrange(0, k + 1));
    }
}

/// Members `k..` of a spaced object, after whitespace `u`, read back after
/// the members before `k`.
#[verifier::spinoff_prover]
#[verifier::rlimit(100)]
proof fn lemma_spaced_members_read_back(
    fields: Seq<(Seq<char>, JsonV)>,
    k: int,
    w: Seq<char>,
    u: Seq<char>,
    s: Seq<char>,
    j: int,
    d: int,
)
    requires
        1 <= d,
        0 <= k < fields.len(),
        forall|m: int| 0 <= m < fields.len() ==> readable(#[trigger] fields[m].1, MAX_DEPTH - d),
        json_whitespace(w),
        json_whitespace(u),
        stands_at(s, j, u + spaced_fields(fields.subrange(k, fields.len() as int), w) + w + seq!['}']),
    ensures
        p_members(s, j, d, fields.subrange(0, k)) == Some(
            (
                JsonV::Obj(fields),
                j + u.len() + spaced_fields(fields.subrange(k, fields.len() as int), w).len() + w.len() + 1,
            ),
        ),
    decreases fields, fields.len() - k,
{
    let n = fields.len() as int;
    let rest = fields.subrange(k, n);
    let f = fields[k];
    assert(rest[0] == f);
    let v = f.1;
    assert(readable(v, MAX_DEPTH - d));
    lemma_spaced_starts(v, w, MAX_DEPTH - d);
    let rv = spaced(v, w);
    let key = quoted(f.0);
    let closer = if rest.len() == 1 {
        '}'
    } else {
        ','
    };
    let after = if rest.len() == 1 {
        Seq::<char>::empty()
    } else {
        w + spaced_fields(rest.drop_first(), w) + w + seq!['}']
    };
    if rest.len() == 1 {
        assert(spaced_fields(rest, w) == spaced_field(f, w));
    } else {
        lemma_spaced_fields_front(rest, w);
    }
    let whole = u + spaced_fields(rest, w) + w + seq!['}'];
    assert(whole =~= u + (key + (w + (seq![':'] + (w + (rv + (w + (seq![closer] + after))))))));
    let a = j + u.len();
    let b = a + key.len();
    let c = b + w.len();
    let e = c + 1 + w.len();
    let g = e + rv.len();
    let h = g + w.len();
    lemma_stands_split(s, j, u, key + (w + (seq![':'] + (w + (rv + (w + (seq![closer] + after)))))));
    lemma_stands_split(s, a, key, w + (seq![':'] + (w + (rv + (w + (seq![closer] + after))))));
    lemma_stands_split(s, b, w, seq![':'] + (w + (rv + (w + (seq![closer] + after)))));
    lemma_stands_split(s, c, seq![':'], w + (rv + (w + (seq![closer] + after))));
    lemma_stands_split(s, c + 1, w, rv + (w + (seq![closer] + after)));
    lemma_stands_split(s, e, rv, w + (seq![closer] + after));
    lemma_stands_split(s, g, w, seq![closer] + after);
    lemma_stands_char(s, c, seq![':'], 0);
    lemma_stands_char(s, e, rv, 0);
    lemma_stands_char(s, h, seq![closer] + after, 0);
    // The key.
    assert(key =~= seq!['"'] + (escape(f.0) + seq!['"']));
    lemma_stands_split(s, a, seq!['"'], escape(f.0) + seq!['"']);
    lemma_stands_char(s, a, seq!['"'], 0);
    lemma_skip_w(s, j, u);
    lemma_p_str_escaped(s, a + 1, Seq::empty(), f.0);
    assert(Seq::<char>::empty() + f.0 =~= f.0);
    lemma_skip_w(s, b, w);
    lemma_skip_w(s, c + 1, w);
    // The value.
    assert(w + (seq![closer] + after) =~= (w + seq![closer]) + after);
    lemma_stands_split(s, g, w + seq![closer], after);
    lemma_stops_after(s, g, w, closer);
    lemma_spaced_value_reads_back(v, w, s, e, d);
    lemma_skip_w(s, g, w);
    if rest.len() == 1 {
        assert(fields.subrange(0, k).push((f.0, v)) =~= fields);
    } else {
        let tail = rest.drop_first();
        assert(tail =~= fields.subrange(k + 1, n));
        assert(seq![closer] + after =~= seq![','] + (w + spaced_fields(tail, w) + w + seq!['}']));
        lemma_stands_split(s, h, seq![','], w + spaced_fields(tail, w) + w + seq!['}']);
        lemma_spaced_members_read_back(fields, k + 1, w, w, s, h + 1, d);
        assert(fields.subrange(0, k).push((f.0, v)) =~= fields.subrange(0, k + 1));
    }
}

/// Whitespace between tokens is insignificant: a value written with any run
/// of spaces, tabs, line feeds and carriage returns around it and between
/// every two of its tokens reads as the same value. Pretty-printed bodies
/// are read as their compact form is.
pub proof fn lemma_whitespace_between_tokens_is_insignificant(v: JsonV, w: Seq<char>)
    requires
        readable(v, MAX_DEPTH as int),
        json_whitespace(w),
    ensures
        parse_spec(w + spaced(v, w) + w) == Some(v),
{
    let r = spaced(v, w);
    let s = w + r + w;
    let b = w.len() as int;
    let e = b + r.len();
    lemma_spaced_starts(v, w, MAX_DEPTH as int);
    assert(s[b] == r[0]);
    assert forall|j: int| 0 <= j < b implies (#[trigger] s[j] == ' ' || s[j] == '\t' || s[j] == '\n' || s[j] == '\r') by {
        assert(s[j] == w[j]);
    }
    lemma_skip_run(s, 0, b);
    assert(s.subrange(b, e) =~= r);
    if e < s.len() {
        assert(s[e] == w[0]);
    }
    lemma_spaced_value_reads_back(v, w, s, b, 0);
    assert forall|j: int| e <= j < s.len() implies (#[trigger] s[j] == ' ' || s[j] == '\t' || s[j] == '\n' || s[j]
        == '\r') by {
        assert(s[j] == w[j - e]);
    }
    lemma_skip_run(s, e, s.len() as int);
}

proof fn lemma_value_parsed_readable(s: Seq<char>, i: int, d: int)
    requires
        0 <= d,
    ensures
        p_value(s, i, d) matches Some((v, _)) ==> readable(v, MAX_DEPTH - d),
    decreases s.len() - i, 2int,
{
    if d + 1 > MAX_DEPTH || !(0 <= i < s.len()) {
    } else if s[i] == '{' {
        lemma_object_parsed_readable(s, i, d + 1);
    } else if s[i] == '[' {
        lemma_array_parsed_readable(s, i, d + 1);
    } else if s[i] == '-' || is_digit(s[i]) {
        lemma_parsed_number_is_text(s, i);
    }
}

proof fn lemma_object_parsed_readable(s: Seq<char>, i: int, d: int)
    requires
        1 <= d <= MAX_DEPTH,
    ensures
        p_object(s, i, d) matches Some((v, _)) ==> readable(v, MAX_DEPTH - d + 1),
    decreases s.len() - i, 1int,
{
    let j = skip_ws(s, i + 1);
    if !(0 <= i < j && j <= s.len()) {
    } else if j < s.len() && s[j] == '}' {
    } else {
        lemma_members_parsed_readable(s, j, d, Seq::empty());
    }
}

proof fn lemma_members_parsed_readable(s: Seq<char>, i: int, d: int, acc: Seq<(Seq<char>, JsonV)>)
    requires
        1 <= d <= MAX_DEPTH,
        forall|k: int| 0 <= k < acc.len() ==> readable(#[trigger] acc[k].1, MAX_DEPTH - d),
    ensures
        p_members(s, i, d, acc) matches Some((v, _)) ==> readable(v, MAX_DEPTH - d + 1),
    decreases s.len() - i, 3int,
{
    let j = skip_ws(s, i);
    if !(0 <= i <= j && j < s.len() && s[j] == '"') {
    } else {
        match p_str(s, j + 1, Seq::empty()) {
            None => {},
            Some((key, j2)) => {
                let j3 = skip_ws(s, j2);
                if !(0 <= j3 < s.len() && s[j3] == ':') {
                } else {
                    let j4 = skip_ws(s, j3 + 1);
                    if !(i < j4 && j4 <= s.len()) {
                    } else {
                        lemma_value_parsed_readable(s, j4, d);
                        match p_value(s, j4, d) {
                            None => {},
                            Some((v, j5)) => {
                                let j6 = skip_ws(s, j5);
                                let acc2 = acc.push((key, v));
                                assert forall|k: int| 0 <= k < acc2.len() implies readable(
                                    #[trigger] acc2[k].1,
                                    MAX_DEPTH - d,
                                ) by {
                                    if k < acc.len() {
                                        assert(acc2[k] == acc[k]);
                                    }
                                }
                                if 0 <= j6 < s.len() && s[j6] == ',' {
                                    if i < j6 + 1 {
                                        lemma_members_parsed_readable(s, j6 + 1, d, acc2);
                                    }
                                }
                            },
                        }
                    }
                }
            },
        }
    }
}

proof fn lemma_array_parsed_readable(s: Seq<char>, i: int, d: int)
    requires
        1 <= d <= MAX_DEPTH,
    ensures
        p_array(s, i, d) matches Some((v, _)) ==> readable(v, MAX_DEPTH - d + 1),
    decreases s.len() - i, 1int,
{
    let j = skip_ws(s, i + 1);
    if !(0 <= i < j && j <= s.len()) {
    } else if j < s.len() && s[j] == ']' {
    } else {
        lemma_elems_parsed_readable(s, j, d, Seq::empty());
    }
}

proof fn lemma_elems_parsed_readable(s: Seq<char>, i: int, d: int, acc: Seq<JsonV>)
    requires
        1 <= d <= MAX_DEPTH,
        forall|k: int| 0 <= k < acc.len() ==> readable(#[trigger] acc[k], MAX_DEPTH - d),
    ensures
        p_elems(s, i, d, acc) matches Some((v, _)) ==> readable(v, MAX_DEPTH - d + 1),
    decreases s.len() - i, 3int,
{
    let j = skip_ws(s, i);
    if !(0 <= i <= j && j <= s.len()) {
    } else {
        lemma_value_parsed_readable(s, j, d);
        match p_value(s, j, d) {
            None => {},
            Some((v, j2)) => {
                let j3 = skip_ws(s, j2);
                let acc2 = acc.push(v);
                assert forall|k: int| 0 <= k < acc2.len() implies readable(#[trigger] acc2[k], MAX_DEPTH - d) by {
                    if k < acc.len() {
                        assert(acc2[k] == acc[k]);
                    }
                }
                if 0 <= j3 < s.len() && s[j3] == ',' {
                    if i < j3 + 1 {
                        lemma_elems_parsed_readable(s, j3 + 1, d, acc2);
                    }
                }
            },
        }
    }
}

/// Whatever the parser reads from a text, the library writes so that it
/// reads back as the same value: a request's id, echoed into a response,
/// is read by the client as it was sent.
pub proof fn lemma_parsed_reads_back(text: Seq<char>)
    ensures
        parse_spec(text) matches Some(v) ==> readable(v, MAX_DEPTH as int) && parse_spec(render(v)) == Some(v),
{
    lemma_value_parsed_readable(text, skip_ws(text, 0), 0);
    if let Some(v) = parse_spec(text) {
        lemma_render_reads_back(v);
    }
}

// ── Building and reading values ─────────────────────────────────────────────

/// The position of the first member of `fields` named `key`.
pub open spec fn first_key(fields: Seq<(Seq<char>, JsonV)>, key: Seq<char>) -> Option<int>
    decreases fields.len(),
{
    if fields.len() == 0 {
        None
    } else if fields[0].0 == key {
        Some(0)
    } else {
        match first_key(fields.drop_first(), key) {
            Some(k) => Some(k + 1),
            None => None,
        }
    }
}

proof fn lemma_first_key_prefix(fields: Seq<(Seq<char>, JsonV)>, key: Seq<char>, i: int)
    requires
        0 <= i < fields.len(),
        forall|j: int| 0 <= j < i ==> #[trigger] fields[j].0 != key,
    ensures
        fields[i].0 == key ==> first_key(fields, key) == Some(i),
        (forall|j: int| i <= j < fields.len() ==> #[trigger] fields[j].0 != key) ==> first_key(
            fields,
            key,
        ) is None,
    decreases fields.len(),
{
    if i > 0 {
        let rest = fields.drop_first();
        assert forall|j: int| 0 <= j < i - 1 implies #[trigger] rest[j].0 != key by {
            assert(rest[j] == fields[j + 1]);
        }
        lemma_first_key_prefix(rest, key, i - 1);
        if (forall|j: int| i <= j < fields.len() ==> #[trigger] fields[j].0 != key) {
            assert forall|j: int| i - 1 <= j < rest.len() implies #[trigger] rest[j].0 != key by {
                assert(rest[j] == fields[j + 1]);
            }
        }
    } else {
        if (forall|j: int| 0 <= j < fields.len() ==> #[trigger] fields[j].0 != key) {
            lemma_first_key_none(fields, key);
        }
    }
}

proof fn lemma_first_key_none(fields: Seq<(Seq<char>, JsonV)>, key: Seq<char>)
    requires
        forall|j: int| 0 <= j < fields.len() ==> #[trigger] fields[j].0 != key,
    ensures
        first_key(fields, key) is None,
    decreases fields.len(),
{
    if fields.len() > 0 {
        let rest = fields.drop_first();
        assert forall|j: int| 0 <= j < rest.len() implies #[trigger] rest[j].0 != key by {
            assert(rest[j] == fields[j + 1]);
        }
        lemma_first_key_none(rest, key);
    }
}

impl Json {
    /// An unsigned integer, as a JSON number. For counts, slots, epochs and
    /// indexes — never for satoshi amounts (see [`Json::sat`]).
    pub fn u(n: u64) -> (r: Json)
        ensures
            r@ == JsonV::Num(decimal(n as nat)),
    {
        Json::Num(u64_to_decimal(n))
    }

    /// A satoshi amount, as a decimal string: no lossy step between the
    /// `u128` and the wire.
    pub fn sat(v: u128) -> (r: Json)
        ensures
            r@ == JsonV::Str(decimal(v as nat)),
    {
        Json::Str(u128_to_decimal(v))
    }

    pub fn s(v: &str) -> (r: Json)
        ensures
            r@ == JsonV::Str(v@),
    {
        Json::Str(string_of(v))
    }

    /// A 32-byte digest, as 64 lowercase hex digits.
    pub fn hex(b: &[u8; 32]) -> (r: Json)
        ensures
            r@ == JsonV::Str(hex_chars(b@)),
    {
        Json::Str(hex_string(b))
    }

    /// An object with these members, in this order.
    pub fn obj(fields: Vec<(&str, Json)>) -> (r: Json)
        ensures
            r@ == JsonV::Obj(
                Seq::new(fields@.len(), |i: int| (fields@[i].0@, fields@[i].1@)),
            ),
    {
        let ghost want = Seq::new(fields@.len(), |i: int| (fields@[i].0@, fields@[i].1@));
        let ghost orig = fields@;
        let mut rest = fields;
        let mut out: Vec<(String, Json)> = Vec::new();
        let ghost mut acc: Seq<(Seq<char>, JsonV)> = Seq::empty();
        while rest.len() > 0
            invariant
                want.len() == orig.len(),
                forall|k: int| 0 <= k < orig.len() ==> #[trigger] want[k] == (orig[k].0@, orig[k].1@),
                acc.len() == out@.len(),
                forall|k: int| 0 <= k < acc.len() ==> #[trigger] acc[k] == (out@[k].0@, out@[k].1@),
                acc.len() + rest@.len() == orig.len(),
                rest@ == orig.subrange(acc.len() as int, orig.len() as int),
                acc == want.subrange(0, acc.len() as int),
            decreases rest@.len(),
        {
            let (k, v) = rest.remove(0);
            proof {
                assert(orig[acc.len() as int] == (k, v));
                acc = acc.push((k@, v@));
            }
            out.push((string_of(k), v));
            proof {
                assert(rest@ =~= orig.subrange(acc.len() as int, orig.len() as int));
                assert(acc =~= want.subrange(0, acc.len() as int));
            }
        }
        proof {
            assert(acc =~= want);
            lemma_obj_view(&out, acc);
        }
        Json::Obj(out)
    }

    pub fn as_str(&self) -> (r: Option<&str>)
        ensures
            match self@ {
                JsonV::Str(t) => r matches Some(x) && x@ == t,
                _ => r is None,
            },
    {
        match self {
            Json::Str(s) => Some(s.as_str()),
            _ => None,
        }
    }

    /// The value as a `u64`, from either a JSON number or a decimal string.
    /// Non-integers (`1.5`, `1e3`) and negatives are refused, not truncated.
    pub fn as_u64(&self) -> (r: Option<u64>)
        ensures
            r == match self@ {
                JsonV::Num(raw) => parse_u64_spec(raw),
                JsonV::Str(t) => parse_u64_spec(t),
                _ => None,
            },
    {
        match self {
            Json::Num(raw) => parse_u64_chars(&chars_of(raw.as_str())),
            Json::Str(s) => parse_u64_chars(&chars_of(s.as_str())),
            _ => None,
        }
    }

    /// The first member named `key`, if this is an object.
    pub fn get(&self, key: &str) -> (r: Option<&Json>)
        ensures
            match self@ {
                JsonV::Obj(fields) => match first_key(fields, key@) {
                    Some(k) => r matches Some(v) && v@ == fields[k].1,
                    None => r is None,
                },
                _ => r is None,
            },
    {
        match self {
            Json::Obj(fields) => {
                let ghost fs = match self@ {
                    JsonV::Obj(x) => x,
                    _ => Seq::empty(),
                };
                assert(fs.len() == fields@.len());
                assert(self@ == JsonV::Obj(fs));
                assert(forall|j: int|
                    0 <= j < fields@.len() ==> #[trigger] fs[j] == (fields@[j].0@, fields@[j].1@));
                let wanted = key.to_owned();
                let n = fields.len();
                let mut i: usize = 0;
                while i < n
                    invariant
                        i <= n,
                        n == fields@.len(),
                        wanted@ == key@,
                        self@ == JsonV::Obj(fs),
                        fs.len() == n,
                        forall|j: int|
                            0 <= j < n ==> #[trigger] fs[j] == (fields@[j].0@, fields@[j].1@),
                        forall|j: int| 0 <= j < i ==> #[trigger] fs[j].0 != key@,
                    decreases n - i,
                {
                    if fields[i].0 == wanted {
                        proof {
                            assert(fs[i as int] == (fields@[i as int].0@, fields@[i as int].1@));
                            assert(fs[i as int].0 == key@);
                            lemma_first_key_prefix(fs, key@, i as int);
                            assert(first_key(fs, key@) == Some(i as int));
                            assert(self@ == JsonV::Obj(fs));
                        }
                        let found = &fields[i].1;
                        assert(found@ == fs[i as int].1);
                        return Some(found);
                    }
                    i = i + 1;
                }
                proof {
                    lemma_first_key_none(fs, key@);
                }
                None
            },
            _ => None,
        }
    }

    /// The `i`-th element, if this is an array that long.
    pub fn at(&self, i: usize) -> (r: Option<&Json>)
        ensures
            match self@ {
                JsonV::Arr(items) => if i < items.len() {
                    r matches Some(v) && v@ == items[i as int]
                } else {
                    r is None
                },
                _ => r is None,
            },
    {
        match self {
            Json::Arr(items) => {
                if i < items.len() {
                    Some(&items[i])
                } else {
                    None
                }
            },
            _ => None,
        }
    }

    /// A copy of this value.
    pub fn clone_value(&self) -> (r: Json)
        ensures
            r@ == self@,
        decreases self,
    {
        match self {
            Json::Null => Json::Null,
            Json::Bool(b) => Json::Bool(*b),
            Json::Num(raw) => Json::Num(raw.clone()),
            Json::Str(t) => Json::Str(t.clone()),
            Json::Arr(items) => {
                let ghost vs = match self@ {
                    JsonV::Arr(x) => x,
                    _ => Seq::empty(),
                };
                assert(forall|j: int| 0 <= j < items@.len() ==> #[trigger] vs[j] == items@[j]@);
                let n = items.len();
                proof {
                    assert forall|j: int| 0 <= j < n implies decreases_to!(*self => #[trigger] items@[j]) by {
                        assert(decreases_to!(*self => *items));
                        assert(decreases_to!(*items => items@[j]));
                    }
                }
                let mut out: Vec<Json> = Vec::new();
                let mut i: usize = 0;
                while i < n
                    invariant
                        i <= n,
                        n == items@.len(),
                        vs.len() == n,
                        forall|j: int| 0 <= j < n ==> decreases_to!(*self => #[trigger] items@[j]),
                        forall|j: int| 0 <= j < n ==> #[trigger] vs[j] == items@[j]@,
                        out@.len() == i,
                        forall|j: int| 0 <= j < i ==> #[trigger] out@[j]@ == vs[j],
                    decreases n - i,
                {
                    let c = items[i].clone_value();
                    out.push(c);
                    i = i + 1;
                }
                proof {
                    lemma_arr_view(&out, vs);
                }
                Json::Arr(out)
            },
            Json::Obj(fields) => {
                let ghost vs = match self@ {
                    JsonV::Obj(x) => x,
                    _ => Seq::empty(),
                };
                assert(forall|j: int|
                    0 <= j < fields@.len() ==> #[trigger] vs[j] == (fields@[j].0@, fields@[j].1@));
                let n = fields.len();
                proof {
                    assert forall|j: int| 0 <= j < n implies decreases_to!(*self => #[trigger] fields@[j].1) by {
                        assert(decreases_to!(*self => *fields));
                        assert(decreases_to!(*fields => fields@[j]));
                        assert(decreases_to!(fields@[j] => fields@[j].1));
                    }
                }
                let mut out: Vec<(String, Json)> = Vec::new();
                let mut i: usize = 0;
                while i < n
                    invariant
                        i <= n,
                        n == fields@.len(),
                        vs.len() == n,
                        forall|j: int| 0 <= j < n ==> decreases_to!(*self => #[trigger] fields@[j].1),
                        forall|j: int|
                            0 <= j < n ==> #[trigger] vs[j] == (fields@[j].0@, fields@[j].1@),
                        out@.len() == i,
                        forall|j: int| 0 <= j < i ==> #[trigger] vs[j] == (out@[j].0@, out@[j].1@),
                    decreases n - i,
                {
                    let k = fields[i].0.clone();
                    let v = fields[i].1.clone_value();
                    out.push((k, v));
                    i = i + 1;
                }
                proof {
                    lemma_obj_view(&out, vs);
                }
                Json::Obj(out)
            },
        }
    }
}

} // verus!
