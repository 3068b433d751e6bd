//! Parameters of the laboratory native-DEX builder calls: a quote
//! (`create-pair`, `initialize`, `swap`) and a withdrawal. Each takes
//! exactly one object whose fields are strings: decimals without sign or
//! leading zeros, 32-byte hex hashes, and a hex owner key.
//!
//! Whether an owner key is a valid hybrid key is the signature scheme's to
//! say. So each call is read in two steps: `quote_owner` /
//! `withdrawal_owner` read the object up to the owner key, the caller asks
//! the signature scheme whether that key is valid, and `parse` /
//! `parse_withdrawal` take that verdict, refuse with [`INVALID_OWNER`] when
//! it is no, and read the rest. They refuse exactly what a single pass
//! would, with the same first error.
use vstd::prelude::*;
use crate::json::{first_key, Json, JsonV};
use crate::rpc::{err_view, from_hex, hex32_from, hex32_spec, invalid_params_v, opt_view, RpcError};
use crate::text::{all_digits, chars_of, from_hex_spec, is_digit, parse_u64_chars, parse_u64_spec, push_str, string_of};
use crate::bytes::read_h32;

verus! {

broadcast use vstd::std_specs::vec::group_vec_axioms;

pub const ONE_QUOTE: &'static str = "expected one quote object";
pub const ONE_WITHDRAWAL: &'static str = "expected one withdrawal object";
pub const NEEDS_COMMITTEE: &'static str = "withdrawal requires independently authorized committee approvals";
pub const UNSUPPORTED: &'static str = "unsupported laboratory builder operation";
pub const BAD_QUOTE_FIELD: &'static str = "unknown or duplicate quote field";
pub const BAD_WITHDRAWAL_FIELD: &'static str = "unknown or duplicate withdrawal field";
pub const QUOTE_OWNER_TOO_LONG: &'static str = "owner key exceeds limit";
pub const WITHDRAWAL_OWNER_TOO_LONG: &'static str = "owner exceeds limit";
pub const INVALID_OWNER: &'static str = "invalid hybrid owner key";
pub const FEE_OVERFLOW: &'static str = "feeBps overflow";
pub const RECIPIENT_LENGTH: &'static str = "recipientHex20 must be exactly 20 bytes";
pub const BAD_RECIPIENT: &'static str = "invalid recipientHex20";

/// Longest owner-key text accepted, in bytes.
pub const MAX_OWNER_HEX: usize = 16384;

/// A laboratory builder operation.
#[derive(Clone, Debug, PartialEq, Eq)]
pub enum Operation {
    CreatePair { asset: [u8; 32], seed: [u8; 32], blch_amount: u64, native_amount: u64 },
    Initialize { reserve: [u8; 32], fee_bps: u16, minimum_lp: u64 },
    Swap { pool: [u8; 32], input_asset: [u8; 32], amount: u64, minimum_out: u64 },
}

pub enum OperationV {
    CreatePair(Seq<u8>, Seq<u8>, u64, u64),
    Initialize(Seq<u8>, u16, u64),
    Swap(Seq<u8>, Seq<u8>, u64, u64),
}

impl View for Operation {
    type V = OperationV;

    open spec fn view(&self) -> OperationV {
        match self {
            Operation::CreatePair { asset, seed, blch_amount, native_amount } => OperationV::CreatePair(
                asset@,
                seed@,
                *blch_amount,
                *native_amount,
            ),
            Operation::Initialize { reserve, fee_bps, minimum_lp } => OperationV::Initialize(
                reserve@,
                *fee_bps,
                *minimum_lp,
            ),
            Operation::Swap { pool, input_asset, amount, minimum_out } => OperationV::Swap(
                pool@,
                input_asset@,
                *amount,
                *minimum_out,
            ),
        }
    }
}

/// A quote request: who asks, until when, for what.
#[derive(Clone, Debug, PartialEq, Eq)]
pub struct Query {
    pub owner: Vec<u8>,
    pub valid_until: u64,
    pub operation: Operation,
}

impl View for Query {
    /// Owner, validity bound, operation.
    type V = (Seq<u8>, u64, OperationV);

    open spec fn view(&self) -> (Seq<u8>, u64, OperationV) {
        (self.owner@, self.valid_until, self.operation@)
    }
}

/// A withdrawal request.
#[derive(Clone, Debug, PartialEq, Eq)]
pub struct WithdrawalQuery {
    pub owner: Vec<u8>,
    pub route: [u8; 32],
    pub amount: u64,
    pub recipient: [u8; 20],
    pub nonce: u64,
    pub valid_until: u64,
}

impl View for WithdrawalQuery {
    /// Owner, route, amount, recipient, nonce, validity bound.
    type V = (Seq<u8>, Seq<u8>, u64, Seq<u8>, u64, u64);

    open spec fn view(&self) -> (Seq<u8>, Seq<u8>, u64, Seq<u8>, u64, u64) {
        (self.owner@, self.route@, self.amount, self.recipient@, self.nonce, self.valid_until)
    }
}

/// Which fields an object may carry.
#[derive(Clone, Copy, Debug, PartialEq, Eq)]
pub enum KeySet {
    CreatePair,
    Initialize,
    Swap,
    Withdrawal,
}

// ── The specification ───────────────────────────────────────────────────────

/// The bytes of `s` in UTF-8.
pub open spec fn char_utf8_len(c: char) -> nat {
    if (c as u32) < 0x80 {
        1
    } else if (c as u32) < 0x800 {
        2
    } else if (c as u32) < 0x10000 {
        3
    } else {
        4
    }
}

pub open spec fn utf8_len(s: Seq<char>) -> nat
    decreases s.len(),
{
    if s.len() == 0 {
        0
    } else {
        utf8_len(s.drop_last()) + char_utf8_len(s.last())
    }
}

/// The single object of a one-element positional parameter list.
pub open spec fn one_object_spec(params: Option<JsonV>) -> Option<JsonV> {
    match params {
        Some(JsonV::Arr(args)) => if args.len() == 1 && args[0] is Obj {
            Some(args[0])
        } else {
            None
        },
        _ => None,
    }
}

pub open spec fn string_spec(obj: JsonV, name: Seq<char>) -> Result<Seq<char>, (i64, Seq<char>)> {
    match obj {
        JsonV::Obj(fields) => match first_key(fields, name) {
            Some(k) => match fields[k].1 {
                JsonV::Str(t) => Ok(t),
                _ => Err(invalid_params_v("missing string "@ + name)),
            },
            None => Err(invalid_params_v("missing string "@ + name)),
        },
        _ => Err(invalid_params_v("missing string "@ + name)),
    }
}

/// Decimal digits only, and no leading zero unless the number is 0.
pub open spec fn strict_decimal(t: Seq<char>) -> bool {
    t.len() > 0 && all_digits(t) && !(t.len() > 1 && t[0] == '0')
}

pub open spec fn number_spec(obj: JsonV, name: Seq<char>) -> Result<u64, (i64, Seq<char>)> {
    match string_spec(obj, name) {
        Err(e) => Err(e),
        Ok(t) => if !strict_decimal(t) {
            Err(invalid_params_v("invalid decimal "@ + name))
        } else {
            match parse_u64_spec(t) {
                Some(n) => Ok(n),
                None => Err(invalid_params_v("overflow "@ + name)),
            }
        },
    }
}

pub open spec fn hash_spec(obj: JsonV, name: Seq<char>) -> Result<Seq<u8>, (i64, Seq<char>)> {
    match string_spec(obj, name) {
        Err(e) => Err(e),
        Ok(t) => match hex32_spec(t) {
            Some(b) => Ok(b),
            None => Err(invalid_params_v("invalid hash "@ + name)),
        },
    }
}

pub open spec fn key_allowed(set: KeySet, k: Seq<char>) -> bool {
    match set {
        KeySet::Withdrawal => k == "ownerPublicKeyHex"@ || k == "expectedHead"@ || k == "route"@ || k
            == "amount"@ || k == "recipientHex20"@ || k == "nonce"@ || k == "validUntil"@,
        KeySet::CreatePair => k == "operation"@ || k == "ownerPublicKeyHex"@ || k == "expectedHead"@
            || k == "validUntil"@ || k == "asset"@ || k == "seed"@ || k == "blchAmount"@ || k
            == "nativeAmount"@,
        KeySet::Initialize => k == "operation"@ || k == "ownerPublicKeyHex"@ || k == "expectedHead"@
            || k == "validUntil"@ || k == "reserve"@ || k == "feeBps"@ || k == "minimumLp"@,
        KeySet::Swap => k == "operation"@ || k == "ownerPublicKeyHex"@ || k == "expectedHead"@ || k
            == "validUntil"@ || k == "pool"@ || k == "inputAsset"@ || k == "amount"@ || k
            == "minimumOut"@,
    }
}

/// Every field is one the object may carry, and none appears twice.
pub open spec fn keys_allowed_once(fields: Seq<(Seq<char>, JsonV)>, set: KeySet) -> bool {
    &&& forall|i: int| 0 <= i < fields.len() ==> key_allowed(set, #[trigger] fields[i].0)
    &&& forall|i: int, j: int| 0 <= i < j < fields.len() ==> #[trigger] fields[i].0 != #[trigger] fields[j].0
}

pub open spec fn quote_kind(op: Seq<char>) -> Option<KeySet> {
    if op == "create-pair"@ {
        Some(KeySet::CreatePair)
    } else if op == "initialize"@ {
        Some(KeySet::Initialize)
    } else if op == "swap"@ {
        Some(KeySet::Swap)
    } else {
        None
    }
}

/// The owner key's bytes, before its validity is judged.
pub open spec fn owner_spec(obj: JsonV, too_long: Seq<char>) -> Result<Seq<u8>, (i64, Seq<char>)> {
    match string_spec(obj, "ownerPublicKeyHex"@) {
        Err(e) => Err(e),
        Ok(h) => if utf8_len(h) > MAX_OWNER_HEX {
            Err(invalid_params_v(too_long))
        } else {
            match from_hex_spec(h) {
                Some(b) => Ok(b),
                None => Err(invalid_params_v(INVALID_OWNER@)),
            }
        },
    }
}

/// A quote read up to its owner key.
pub open spec fn quote_owner_spec(params: Option<JsonV>) -> Result<Seq<u8>, (i64, Seq<char>)> {
    match one_object_spec(params) {
        None => Err(invalid_params_v(ONE_QUOTE@)),
        Some(obj) => match string_spec(obj, "operation"@) {
            Err(e) => Err(e),
            Ok(op) => if op == "withdraw"@ {
                Err(invalid_params_v(NEEDS_COMMITTEE@))
            } else {
                match quote_kind(op) {
                    None => Err(invalid_params_v(UNSUPPORTED@)),
                    Some(kind) => if !keys_allowed_once(obj->Obj_0, kind) {
                        Err(invalid_params_v(BAD_QUOTE_FIELD@))
                    } else {
                        owner_spec(obj, QUOTE_OWNER_TOO_LONG@)
                    },
                }
            },
        },
    }
}

pub open spec fn operation_spec(obj: JsonV, kind: KeySet) -> Result<OperationV, (i64, Seq<char>)> {
    match kind {
        KeySet::CreatePair => match hash_spec(obj, "asset"@) {
            Err(e) => Err(e),
            Ok(asset) => match hash_spec(obj, "seed"@) {
                Err(e) => Err(e),
                Ok(seed) => match number_spec(obj, "blchAmount"@) {
                    Err(e) => Err(e),
                    Ok(b) => match number_spec(obj, "nativeAmount"@) {
                        Err(e) => Err(e),
                        Ok(n) => Ok(OperationV::CreatePair(asset, seed, b, n)),
                    },
                },
            },
        },
        KeySet::Initialize => match hash_spec(obj, "reserve"@) {
            Err(e) => Err(e),
            Ok(reserve) => match number_spec(obj, "feeBps"@) {
                Err(e) => Err(e),
                Ok(fee) => if fee > u16::MAX {
                    Err(invalid_params_v(FEE_OVERFLOW@))
                } else {
                    match number_spec(obj, "minimumLp"@) {
                        Err(e) => Err(e),
                        Ok(lp) => Ok(OperationV::Initialize(reserve, fee as u16, lp)),
                    }
                },
            },
        },
        _ => match hash_spec(obj, "pool"@) {
            Err(e) => Err(e),
            Ok(pool) => match hash_spec(obj, "inputAsset"@) {
                Err(e) => Err(e),
                Ok(input) => match number_spec(obj, "amount"@) {
                    Err(e) => Err(e),
                    Ok(a) => match number_spec(obj, "minimumOut"@) {
                        Err(e) => Err(e),
                        Ok(m) => Ok(OperationV::Swap(pool, input, a, m)),
                    },
                },
            },
        },
    }
}

/// A whole quote, given whether its owner key is a valid hybrid key: the
/// expected head and the query.
pub open spec fn parse_spec(params: Option<JsonV>, owner_key_valid: bool) -> Result<
    (Seq<u8>, (Seq<u8>, u64, OperationV)),
    (i64, Seq<char>),
> {
    match quote_owner_spec(params) {
        Err(e) => Err(e),
        Ok(owner) => if !owner_key_valid {
            Err(invalid_params_v(INVALID_OWNER@))
        } else {
            let obj = one_object_spec(params)->Some_0;
            let kind = quote_kind(string_spec(obj, "operation"@)->Ok_0)->Some_0;
            match number_spec(obj, "validUntil"@) {
                Err(e) => Err(e),
                Ok(valid_until) => match operation_spec(obj, kind) {
                    Err(e) => Err(e),
                    Ok(op) => match hash_spec(obj, "expectedHead"@) {
                        Err(e) => Err(e),
                        Ok(head) => Ok((head, (owner, valid_until, op))),
                    },
                },
            }
        },
    }
}

/// A quote reads each field into its own part of the query, and nothing
/// else: no field appears twice and none is outside the operation's own;
/// the owner key is accepted only when judged valid and is the key its
/// `ownerPublicKeyHex` spells; the expected head, the expiry and every
/// operation argument are the values of the fields of the same name; and
/// the operation is the one its `operation` field names.
pub proof fn lemma_quote_reads_its_fields(params: Option<JsonV>, owner_key_valid: bool)
    ensures
        parse_spec(params, owner_key_valid) matches Ok((head, (owner, valid_until, op))) ==> {
            let obj = one_object_spec(params)->Some_0;
            let fields = obj->Obj_0;
            &&& owner_key_valid
            &&& one_object_spec(params) is Some
            &&& forall|i: int, j: int| 0 <= i < j < fields.len() ==> #[trigger] fields[i].0 != #[trigger] fields[j].0
            &&& forall|i: int|
                0 <= i < fields.len() ==> {
                    let k = #[trigger] fields[i].0;
                    ||| k == "operation"@
                    ||| k == "ownerPublicKeyHex"@
                    ||| k == "expectedHead"@
                    ||| k == "validUntil"@
                    ||| (op is CreatePair && (k == "asset"@ || k == "seed"@ || k == "blchAmount"@ || k
                        == "nativeAmount"@))
                    ||| (op is Initialize && (k == "reserve"@ || k == "feeBps"@ || k == "minimumLp"@))
                    ||| (op is Swap && (k == "pool"@ || k == "inputAsset"@ || k == "amount"@ || k
                        == "minimumOut"@))
                }
            &&& owner_spec(obj, QUOTE_OWNER_TOO_LONG@) == Ok::<Seq<u8>, (i64, Seq<char>)>(owner)
            &&& hash_spec(obj, "expectedHead"@) == Ok::<Seq<u8>, (i64, Seq<char>)>(head)
            &&& number_spec(obj, "validUntil"@) == Ok::<u64, (i64, Seq<char>)>(valid_until)
            &&& match op {
                OperationV::CreatePair(asset, seed, blch, native) => {
                    &&& string_spec(obj, "operation"@) == Ok::<Seq<char>, (i64, Seq<char>)>("create-pair"@)
                    &&& hash_spec(obj, "asset"@) == Ok::<Seq<u8>, (i64, Seq<char>)>(asset)
                    &&& hash_spec(obj, "seed"@) == Ok::<Seq<u8>, (i64, Seq<char>)>(seed)
                    &&& number_spec(obj, "blchAmount"@) == Ok::<u64, (i64, Seq<char>)>(blch)
                    &&& number_spec(obj, "nativeAmount"@) == Ok::<u64, (i64, Seq<char>)>(native)
                },
                OperationV::Initialize(reserve, fee_bps, minimum_lp) => {
                    &&& string_spec(obj, "operation"@) == Ok::<Seq<char>, (i64, Seq<char>)>("initialize"@)
                    &&& hash_spec(obj, "reserve"@) == Ok::<Seq<u8>, (i64, Seq<char>)>(reserve)
                    &&& number_spec(obj, "feeBps"@) == Ok::<u64, (i64, Seq<char>)>(fee_bps as u64)
                    &&& number_spec(obj, "minimumLp"@) == Ok::<u64, (i64, Seq<char>)>(minimum_lp)
                },
                OperationV::Swap(pool, input_asset, amount, minimum_out) => {
                    &&& string_spec(obj, "operation"@) == Ok::<Seq<char>, (i64, Seq<char>)>("swap"@)
                    &&& hash_spec(obj, "pool"@) == Ok::<Seq<u8>, (i64, Seq<char>)>(pool)
                    &&& hash_spec(obj, "inputAsset"@) == Ok::<Seq<u8>, (i64, Seq<char>)>(input_asset)
                    &&& number_spec(obj, "amount"@) == Ok::<u64, (i64, Seq<char>)>(amount)
                    &&& number_spec(obj, "minimumOut"@) == Ok::<u64, (i64, Seq<char>)>(minimum_out)
                },
            }
        },
{
}

/// A withdrawal read up to its owner key.
pub open spec fn withdrawal_owner_spec(params: Option<JsonV>) -> Result<Seq<u8>, (i64, Seq<char>)> {
    match one_object_spec(params) {
        None => Err(invalid_params_v(ONE_WITHDRAWAL@)),
        Some(obj) => if !keys_allowed_once(obj->Obj_0, KeySet::Withdrawal) {
            Err(invalid_params_v(BAD_WITHDRAWAL_FIELD@))
        } else {
            owner_spec(obj, WITHDRAWAL_OWNER_TOO_LONG@)
        },
    }
}

pub open spec fn recipient_spec(obj: JsonV) -> Result<Seq<u8>, (i64, Seq<char>)> {
    match string_spec(obj, "recipientHex20"@) {
        Err(e) => Err(e),
        Ok(t) => if utf8_len(t) != 40 {
            Err(invalid_params_v(RECIPIENT_LENGTH@))
        } else {
            match from_hex_spec(t) {
                Some(b) => if b.len() == 20 {
                    Ok(b)
                } else {
                    Err(invalid_params_v(BAD_RECIPIENT@))
                },
                None => Err(invalid_params_v(BAD_RECIPIENT@)),
            }
        },
    }
}

/// A whole withdrawal, given whether its owner key is a valid hybrid key:
/// the expected head and the query.
pub open spec fn parse_withdrawal_spec(params: Option<JsonV>, owner_key_valid: bool) -> Result<
    (Seq<u8>, (Seq<u8>, Seq<u8>, u64, Seq<u8>, u64, u64)),
    (i64, Seq<char>),
> {
    match withdrawal_owner_spec(params) {
        Err(e) => Err(e),
        Ok(owner) => if !owner_key_valid {
            Err(invalid_params_v(INVALID_OWNER@))
        } else {
            let obj = one_object_spec(params)->Some_0;
            match recipient_spec(obj) {
                Err(e) => Err(e),
                Ok(recipient) => match hash_spec(obj, "expectedHead"@) {
                    Err(e) => Err(e),
                    Ok(head) => match hash_spec(obj, "route"@) {
                        Err(e) => Err(e),
                        Ok(route) => match number_spec(obj, "amount"@) {
                            Err(e) => Err(e),
                            Ok(amount) => match number_spec(obj, "nonce"@) {
                                Err(e) => Err(e),
                                Ok(nonce) => match number_spec(obj, "validUntil"@) {
                                    Err(e) => Err(e),
                                    Ok(valid_until) => Ok(
                                        (head, (owner, route, amount, recipient, nonce, valid_until)),
                                    ),
                                },
                            },
                        },
                    },
                },
            }
        },
    }
}

/// A withdrawal reads each field into its own part of the query: no field
/// appears twice and none is outside a withdrawal's own; the owner key is accepted only when judged valid, and the expected head,
/// route, amount, recipient, nonce and expiry are the values of the fields
/// of the same name.
pub proof fn lemma_withdrawal_reads_its_fields(params: Option<JsonV>, owner_key_valid: bool)
    ensures
        parse_withdrawal_spec(params, owner_key_valid) matches Ok(
            (head, (owner, route, amount, recipient, nonce, valid_until)),
        ) ==> {
            let obj = one_object_spec(params)->Some_0;
            let fields = obj->Obj_0;
            &&& owner_key_valid
            &&& one_object_spec(params) is Some
            &&& forall|i: int, j: int| 0 <= i < j < fields.len() ==> #[trigger] fields[i].0 != #[trigger] fields[j].0
            &&& forall|i: int|
                0 <= i < fields.len() ==> {
                    let k = #[trigger] fields[i].0;
                    ||| k == "ownerPublicKeyHex"@
                    ||| k == "expectedHead"@
                    ||| k == "route"@
                    ||| k == "amount"@
                    ||| k == "recipientHex20"@
                    ||| k == "nonce"@
                    ||| k == "validUntil"@
                }
            &&& owner_spec(obj, WITHDRAWAL_OWNER_TOO_LONG@) == Ok::<Seq<u8>, (i64, Seq<char>)>(owner)
            &&& hash_spec(obj, "expectedHead"@) == Ok::<Seq<u8>, (i64, Seq<char>)>(head)
            &&& hash_spec(obj, "route"@) == Ok::<Seq<u8>, (i64, Seq<char>)>(route)
            &&& number_spec(obj, "amount"@) == Ok::<u64, (i64, Seq<char>)>(amount)
            &&& recipient_spec(obj) == Ok::<Seq<u8>, (i64, Seq<char>)>(recipient)
            &&& number_spec(obj, "nonce"@) == Ok::<u64, (i64, Seq<char>)>(nonce)
            &&& number_spec(obj, "validUntil"@) == Ok::<u64, (i64, Seq<char>)>(valid_until)
        },
{
}

// ── Reading the object ──────────────────────────────────────────────────────

fn named_error(prefix: &str, name: &str) -> (r: RpcError)
    ensures
        r@ == invalid_params_v(prefix@ + name@),
{
    let mut d = string_of(prefix);
    push_str(&mut d, name);
    RpcError::invalid_params(d.as_str())
}

fn str_is(s: &str, lit: &str) -> (r: bool)
    ensures
        r == (s@ == lit@),
{
    string_of(s) == string_of(lit)
}

fn key_is(k: &String, lit: &str) -> (r: bool)
    ensures
        r == (k@ == lit@),
{
    *k == string_of(lit)
}

fn one_object<'a>(params: Option<&'a Json>) -> (r: Option<&'a Json>)
    ensures
        opt_view(r) == one_object_spec(opt_view(params)),
{
    match params {
        Some(p) => match p {
            Json::Arr(args) => {
                if args.len() == 1 {
                    match p.at(0) {
                        Some(o) => match o {
                            Json::Obj(_) => Some(o),
                            _ => None,
                        },
                        None => None,
                    }
                } else {
                    None
                }
            },
            _ => None,
        },
        None => None,
    }
}

fn field_str<'a>(obj: &'a Json, name: &str) -> (r: Result<&'a str, RpcError>)
    ensures
        match r {
            Ok(t) => string_spec(obj@, name@) == Ok::<Seq<char>, (i64, Seq<char>)>(t@),
            Err(e) => string_spec(obj@, name@) == Err::<Seq<char>, (i64, Seq<char>)>(e@),
        },
{
    match obj.get(name) {
        Some(v) => match v.as_str() {
            Some(t) => Ok(t),
            None => Err(named_error("missing string ", name)),
        },
        None => Err(named_error("missing string ", name)),
    }
}

fn strict_decimal_chars(cs: &Vec<char>) -> (r: bool)
    ensures
        r == strict_decimal(cs@),
{
    let n = cs.len();
    if n == 0 {
        return false;
    }
    let mut i: usize = 0;
    while i < n
        invariant
            i <= n,
            n == cs@.len(),
            forall|k: int| 0 <= k < i ==> is_digit(#[trigger] cs@[k]),
        decreases n - i,
    {
        if !(cs[i] >= '0' && cs[i] <= '9') {
            assert(!is_digit(cs@[i as int]));
            return false;
        }
        i = i + 1;
    }
    !(n > 1 && cs[0] == '0')
}

fn field_number(obj: &Json, name: &str) -> (r: Result<u64, RpcError>)
    ensures
        err_view(r) == number_spec(obj@, name@),
{
    let raw = match field_str(obj, name) {
        Ok(t) => t,
        Err(e) => {
            return Err(e);
        },
    };
    let cs = chars_of(raw);
    if !strict_decimal_chars(&cs) {
        return Err(named_error("invalid decimal ", name));
    }
    match parse_u64_chars(&cs) {
        Some(n) => Ok(n),
        None => Err(named_error("overflow ", name)),
    }
}

fn field_hash(obj: &Json, name: &str) -> (r: Result<[u8; 32], RpcError>)
    ensures
        match r {
            Ok(a) => hash_spec(obj@, name@) == Ok::<Seq<u8>, (i64, Seq<char>)>(a@),
            Err(e) => hash_spec(obj@, name@) == Err::<Seq<u8>, (i64, Seq<char>)>(e@),
        },
{
    let t = match field_str(obj, name) {
        Ok(t) => t,
        Err(e) => {
            return Err(e);
        },
    };
    match hex32_from(t) {
        Some(a) => Ok(a),
        None => Err(named_error("invalid hash ", name)),
    }
}

fn key_allowed_exec(set: KeySet, k: &String) -> (r: bool)
    ensures
        r == key_allowed(set, k@),
{
    match set {
        KeySet::Withdrawal => key_is(k, "ownerPublicKeyHex") || key_is(k, "expectedHead") || key_is(
            k,
            "route",
        ) || key_is(k, "amount") || key_is(k, "recipientHex20") || key_is(k, "nonce") || key_is(
            k,
            "validUntil",
        ),
        KeySet::CreatePair => key_is(k, "operation") || key_is(k, "ownerPublicKeyHex") || key_is(
            k,
            "expectedHead",
        ) || key_is(k, "validUntil") || key_is(k, "asset") || key_is(k, "seed") || key_is(
            k,
            "blchAmount",
        ) || key_is(k, "nativeAmount"),
        KeySet::Initialize => key_is(k, "operation") || key_is(k, "ownerPublicKeyHex") || key_is(
            k,
            "expectedHead",
        ) || key_is(k, "validUntil") || key_is(k, "reserve") || key_is(k, "feeBps") || key_is(
            k,
            "minimumLp",
        ),
        KeySet::Swap => key_is(k, "operation") || key_is(k, "ownerPublicKeyHex") || key_is(
            k,
            "expectedHead",
        ) || key_is(k, "validUntil") || key_is(k, "pool") || key_is(k, "inputAsset") || key_is(
            k,
            "amount",
        ) || key_is(k, "minimumOut"),
    }
}

fn keys_ok(obj: &Json, set: KeySet) -> (r: bool)
    requires
        obj@ is Obj,
    ensures
        r == keys_allowed_once(obj@->Obj_0, set),
{
    match obj {
        Json::Obj(fields) => {
            let ghost fs = obj@->Obj_0;
            assert(fs.len() == fields@.len());
            assert(forall|j: int|
                0 <= j < fields@.len() ==> #[trigger] fs[j] == (fields@[j].0@, fields@[j].1@));
            let n = fields.len();
            let mut i: usize = 0;
            while i < n
                invariant
                    i <= n,
                    n == fields@.len(),
                    fs == obj@->Obj_0,
                    fs.len() == n,
                    forall|j: int| 0 <= j < n ==> #[trigger] fs[j] == (fields@[j].0@, fields@[j].1@),
                    forall|a: int| 0 <= a < i ==> key_allowed(set, #[trigger] fs[a].0),
                    forall|a: int, b: int| 0 <= a < b < i ==> #[trigger] fs[a].0 != #[trigger] fs[b].0,
                decreases n - i,
            {
                if !key_allowed_exec(set, &fields[i].0) {
                    assert(fs[i as int].0 == fields@[i as int].0@);
                    return false;
                }
                let mut j: usize = 0;
                while j < i
                    invariant
                        j <= i,
                        i < n,
                        n == fields@.len(),
                        fs == obj@->Obj_0,
                        fs.len() == n,
                        forall|q: int| 0 <= q < n ==> #[trigger] fs[q] == (fields@[q].0@, fields@[q].1@),
                        forall|a: int| 0 <= a < j ==> #[trigger] fs[a].0 != fs[i as int].0,
                    decreases i - j,
                {
                    if fields[j].0 == fields[i].0 {
                        assert(fs[j as int].0 == fields@[j as int].0@);
                        assert(fs[i as int].0 == fields@[i as int].0@);
                        assert(fs[j as int].0 == fs[i as int].0);
                        return false;
                    }
                    assert(fs[j as int].0 == fields@[j as int].0@);
                    assert(fs[i as int].0 == fields@[i as int].0@);
                    j = j + 1;
                }
                assert(key_allowed(set, fs[i as int].0)) by {
                    assert(fs[i as int].0 == fields@[i as int].0@);
                }
                i = i + 1;
            }
            true
        },
        _ => false,
    }
}

proof fn lemma_utf8_prefix(s: Seq<char>, i: int)
    requires
        0 <= i <= s.len(),
    ensures
        utf8_len(s.subrange(0, i)) <= utf8_len(s),
    decreases s.len() - i,
{
    if i < s.len() {
        lemma_utf8_prefix(s, i + 1);
        assert(s.subrange(0, i + 1).drop_last() =~= s.subrange(0, i));
    } else {
        assert(s.subrange(0, i) =~= s);
    }
}

/// Is `s` longer than `limit` bytes in UTF-8?
fn utf8_len_exceeds(s: &str, limit: usize) -> (r: bool)
    requires
        limit <= 0x10000,
    ensures
        r == (utf8_len(s@) > limit),
{
    let cs = chars_of(s);
    let n = cs.len();
    let mut total: usize = 0;
    let mut i: usize = 0;
    while i < n
        invariant
            i <= n,
            n == cs@.len(),
            cs@ == s@,
            limit <= 0x10000,
            total == utf8_len(cs@.subrange(0, i as int)),
            total <= limit,
        decreases n - i,
    {
        let c = cs[i] as u32;
        let w: usize = if c < 0x80 {
            1
        } else if c < 0x800 {
            2
        } else if c < 0x10000 {
            3
        } else {
            4
        };
        proof {
            assert(cs@.subrange(0, i + 1).drop_last() =~= cs@.subrange(0, i as int));
        }
        if total + w > limit {
            proof {
                lemma_utf8_prefix(cs@, i + 1);
            }
            return true;
        }
        total = total + w;
        i = i + 1;
    }
    proof {
        assert(cs@.subrange(0, n as int) =~= cs@);
    }
    false
}

fn owner_bytes(obj: &Json, too_long: &str) -> (r: Result<Vec<u8>, RpcError>)
    ensures
        match r {
            Ok(b) => owner_spec(obj@, too_long@) == Ok::<Seq<u8>, (i64, Seq<char>)>(b@),
            Err(e) => owner_spec(obj@, too_long@) == Err::<Seq<u8>, (i64, Seq<char>)>(e@),
        },
{
    let h = match field_str(obj, "ownerPublicKeyHex") {
        Ok(t) => t,
        Err(e) => {
            return Err(e);
        },
    };
    if utf8_len_exceeds(h, MAX_OWNER_HEX) {
        return Err(RpcError::invalid_params(too_long));
    }
    match from_hex(h) {
        Some(b) => Ok(b),
        None => Err(RpcError::invalid_params(INVALID_OWNER)),
    }
}

fn quote_kind_of(op: &str) -> (r: Option<KeySet>)
    ensures
        r == quote_kind(op@),
{
    if str_is(op, "create-pair") {
        Some(KeySet::CreatePair)
    } else if str_is(op, "initialize") {
        Some(KeySet::Initialize)
    } else if str_is(op, "swap") {
        Some(KeySet::Swap)
    } else {
        None
    }
}

// ── Quotes ──────────────────────────────────────────────────────────────────

/// Read a quote's parameters up to its owner key: the key's bytes, whose
/// validity as a hybrid key the caller judges next.
pub fn quote_owner(params: Option<&Json>) -> (r: Result<Vec<u8>, RpcError>)
    ensures
        match r {
            Ok(b) => quote_owner_spec(opt_view(params)) == Ok::<Seq<u8>, (i64, Seq<char>)>(b@),
            Err(e) => quote_owner_spec(opt_view(params)) == Err::<Seq<u8>, (i64, Seq<char>)>(e@),
        },
{
    let obj = match one_object(params) {
        Some(o) => o,
        None => {
            return Err(RpcError::invalid_params(ONE_QUOTE));
        },
    };
    let op = match field_str(obj, "operation") {
        Ok(t) => t,
        Err(e) => {
            return Err(e);
        },
    };
    if str_is(op, "withdraw") {
        return Err(RpcError::invalid_params(NEEDS_COMMITTEE));
    }
    let kind = match quote_kind_of(op) {
        Some(k) => k,
        None => {
            return Err(RpcError::invalid_params(UNSUPPORTED));
        },
    };
    if !keys_ok(obj, kind) {
        return Err(RpcError::invalid_params(BAD_QUOTE_FIELD));
    }
    owner_bytes(obj, QUOTE_OWNER_TOO_LONG)
}

fn operation_of(obj: &Json, kind: KeySet) -> (r: Result<Operation, RpcError>)
    ensures
        match r {
            Ok(op) => operation_spec(obj@, kind) == Ok::<OperationV, (i64, Seq<char>)>(op@),
            Err(e) => operation_spec(obj@, kind) == Err::<OperationV, (i64, Seq<char>)>(e@),
        },
{
    match kind {
        KeySet::CreatePair => {
            let asset = match field_hash(obj, "asset") {
                Ok(a) => a,
                Err(e) => {
                    return Err(e);
                },
            };
            let seed = match field_hash(obj, "seed") {
                Ok(a) => a,
                Err(e) => {
                    return Err(e);
                },
            };
            let blch_amount = match field_number(obj, "blchAmount") {
                Ok(n) => n,
                Err(e) => {
                    return Err(e);
                },
            };
            let native_amount = match field_number(obj, "nativeAmount") {
                Ok(n) => n,
                Err(e) => {
                    return Err(e);
                },
            };
            Ok(Operation::CreatePair { asset, seed, blch_amount, native_amount })
        },
        KeySet::Initialize => {
            let reserve = match field_hash(obj, "reserve") {
                Ok(a) => a,
                Err(e) => {
                    return Err(e);
                },
            };
            let fee = match field_number(obj, "feeBps") {
                Ok(n) => n,
                Err(e) => {
                    return Err(e);
                },
            };
            if fee > 0xFFFF {
                return Err(RpcError::invalid_params(FEE_OVERFLOW));
            }
            let minimum_lp = match field_number(obj, "minimumLp") {
                Ok(n) => n,
                Err(e) => {
                    return Err(e);
                },
            };
            Ok(Operation::Initialize { reserve, fee_bps: fee as u16, minimum_lp })
        },
        _ => {
            let pool = match field_hash(obj, "pool") {
                Ok(a) => a,
                Err(e) => {
                    return Err(e);
                },
            };
            let input_asset = match field_hash(obj, "inputAsset") {
                Ok(a) => a,
                Err(e) => {
                    return Err(e);
                },
            };
            let amount = match field_number(obj, "amount") {
                Ok(n) => n,
                Err(e) => {
                    return Err(e);
                },
            };
            let minimum_out = match field_number(obj, "minimumOut") {
                Ok(n) => n,
                Err(e) => {
                    return Err(e);
                },
            };
            Ok(Operation::Swap { pool, input_asset, amount, minimum_out })
        },
    }
}

/// Read a whole quote, given whether the owner key [`quote_owner`] returns
/// is a valid hybrid key: the expected head and the query.
pub fn parse(params: Option<&Json>, owner_key_valid: bool) -> (r: Result<([u8; 32], Query), RpcError>)
    ensures
        match r {
            Ok((head, q)) => parse_spec(opt_view(params), owner_key_valid) == Ok::<
                (Seq<u8>, (Seq<u8>, u64, OperationV)),
                (i64, Seq<char>),
            >((head@, q@)),
            Err(e) => parse_spec(opt_view(params), owner_key_valid) == Err::<
                (Seq<u8>, (Seq<u8>, u64, OperationV)),
                (i64, Seq<char>),
            >(e@),
        },
{
    let owner = match quote_owner(params) {
        Ok(k) => k,
        Err(e) => {
            return Err(e);
        },
    };
    if !owner_key_valid {
        return Err(RpcError::invalid_params(INVALID_OWNER));
    }
    let obj = match one_object(params) {
        Some(o) => o,
        None => {
            return Err(RpcError::invalid_params(ONE_QUOTE));
        },
    };
    let op = match field_str(obj, "operation") {
        Ok(t) => t,
        Err(e) => {
            return Err(e);
        },
    };
    let kind = match quote_kind_of(op) {
        Some(k) => k,
        None => {
            return Err(RpcError::invalid_params(UNSUPPORTED));
        },
    };
    let valid_until = match field_number(obj, "validUntil") {
        Ok(n) => n,
        Err(e) => {
            return Err(e);
        },
    };
    let operation = match operation_of(obj, kind) {
        Ok(o) => o,
        Err(e) => {
            return Err(e);
        },
    };
    let head = match field_hash(obj, "expectedHead") {
        Ok(a) => a,
        Err(e) => {
            return Err(e);
        },
    };
    Ok((head, Query { owner, valid_until, operation }))
}

// ── Withdrawals ─────────────────────────────────────────────────────────────

/// Read a withdrawal's parameters up to its owner key: the key's bytes,
/// whose validity as a hybrid key the caller judges next.
pub fn withdrawal_owner(params: Option<&Json>) -> (r: Result<Vec<u8>, RpcError>)
    ensures
        match r {
            Ok(b) => withdrawal_owner_spec(opt_view(params)) == Ok::<Seq<u8>, (i64, Seq<char>)>(b@),
            Err(e) => withdrawal_owner_spec(opt_view(params)) == Err::<Seq<u8>, (i64, Seq<char>)>(
                e@,
            ),
        },
{
    let obj = match one_object(params) {
        Some(o) => o,
        None => {
            return Err(RpcError::invalid_params(ONE_WITHDRAWAL));
        },
    };
    if !keys_ok(obj, KeySet::Withdrawal) {
        return Err(RpcError::invalid_params(BAD_WITHDRAWAL_FIELD));
    }
    owner_bytes(obj, WITHDRAWAL_OWNER_TOO_LONG)
}

fn recipient_of(obj: &Json) -> (r: Result<[u8; 20], RpcError>)
    ensures
        match r {
            Ok(a) => recipient_spec(obj@) == Ok::<Seq<u8>, (i64, Seq<char>)>(a@),
            Err(e) => recipient_spec(obj@) == Err::<Seq<u8>, (i64, Seq<char>)>(e@),
        },
{
    let t = match field_str(obj, "recipientHex20") {
        Ok(t) => t,
        Err(e) => {
            return Err(e);
        },
    };
    if utf8_len_exceeds(t, 40) || !utf8_len_exceeds(t, 39) {
        return Err(RpcError::invalid_params(RECIPIENT_LENGTH));
    }
    match from_hex(t) {
        Some(b) => {
            if b.len() == 20 {
                let mut out = [0u8; 20];
                let mut i: usize = 0;
                while i < 20
                    invariant
                        i <= 20,
                        b@.len() == 20,
                        forall|k: int| 0 <= k < i ==> out@[k] == b@[k],
                    decreases 20 - i,
                {
                    out[i] = b[i];
                    i = i + 1;
                }
                proof {
                    assert(out@ =~= b@);
                }
                Ok(out)
            } else {
                Err(RpcError::invalid_params(BAD_RECIPIENT))
            }
        },
        None => Err(RpcError::invalid_params(BAD_RECIPIENT)),
    }
}

/// Read a whole withdrawal, given whether the owner key
/// [`withdrawal_owner`] returns is a valid hybrid key: the expected head and
/// the query.
pub fn parse_withdrawal(params: Option<&Json>, owner_key_valid: bool) -> (r: Result<([u8; 32], WithdrawalQuery), RpcError>)
    ensures
        match r {
            Ok((head, q)) => parse_withdrawal_spec(opt_view(params), owner_key_valid) == Ok::<
                (Seq<u8>, (Seq<u8>, Seq<u8>, u64, Seq<u8>, u64, u64)),
                (i64, Seq<char>),
            >((head@, q@)),
            Err(e) => parse_withdrawal_spec(opt_view(params), owner_key_valid) == Err::<
                (Seq<u8>, (Seq<u8>, Seq<u8>, u64, Seq<u8>, u64, u64)),
                (i64, Seq<char>),
            >(e@),
        },
{
    let owner = match withdrawal_owner(params) {
        Ok(k) => k,
        Err(e) => {
            return Err(e);
        },
    };
    if !owner_key_valid {
        return Err(RpcError::invalid_params(INVALID_OWNER));
    }
    let obj = match one_object(params) {
        Some(o) => o,
        None => {
            return Err(RpcError::invalid_params(ONE_WITHDRAWAL));
        },
    };
    let recipient = match recipient_of(obj) {
        Ok(a) => a,
        Err(e) => {
            return Err(e);
        },
    };
    let head = match field_hash(obj, "expectedHead") {
        Ok(a) => a,
        Err(e) => {
            return Err(e);
        },
    };
    let route = match field_hash(obj, "route") {
        Ok(a) => a,
        Err(e) => {
            return Err(e);
        },
    };
    let amount = match field_number(obj, "amount") {
        Ok(n) => n,
        Err(e) => {
            return Err(e);
        },
    };
    let nonce = match field_number(obj, "nonce") {
        Ok(n) => n,
        Err(e) => {
            return Err(e);
        },
    };
    let valid_until = match field_number(obj, "validUntil") {
        Ok(n) => n,
        Err(e) => {
            return Err(e);
        },
    };
    Ok((head, WithdrawalQuery { owner, route, amount, recipient, nonce, valid_until }))
}

} // verus!
