//! The JSON-RPC 2.0 surface: the error contract, argument decoding, method
//! routing, the response envelope, and the HTTP request head.
//!
//! Nothing here decides anything about the chain: a request is decoded into
//! an [`RpcRequest`], something else answers it, and the answer is wrapped in
//! an envelope. Every satoshi amount leaves as a decimal string, and every
//! failure is the top-level `error` object.
use vstd::prelude::*;
use crate::bytes::read_h32;
use crate::digest::{sha3, sha3_256};
pub use crate::json::{parse_json, Json};
use crate::json::{
    digits_end, first_key, lemma_arr_view, lemma_parsed_reads_back, lemma_render_reads_back, number_text, parse_err,
    parse_spec, readable, render, JsonV, MAX_DEPTH,
};
use crate::text::{
    chars_of, decimal, hex_chars, from_hex_chars, from_hex_spec, is_digit, parse_u64_spec, push_str, string_of, trim_bounds,
    trimmed, u64_to_decimal,
};

verus! {

broadcast use vstd::std_specs::vec::group_vec_axioms;

/// Largest request body accepted.
pub const MAX_BODY_BYTES: usize = 1048576;

/// Largest request head (request line and headers) accepted before the body.
pub const MAX_HEADER_BYTES: usize = 16384;

/// Connections served at once; past this the listener answers 503.
pub const MAX_CONNECTIONS: usize = 64;

/// Default and maximum page size of a `getutxos` answer.
pub const UTXO_PAGE_DEFAULT: usize = 100;
pub const UTXO_PAGE_MAX: usize = 1000;

/// No block with that id is known to this node.
pub const BLOCK_NOT_FOUND: i64 = -32000;
/// The validator index is not in the committed registry.
pub const VALIDATOR_NOT_FOUND: i64 = -32001;
/// Valid hex, but not a canonical transaction encoding.
pub const TX_DECODE_FAILED: i64 = -32002;
/// The mempool is at capacity; the transaction itself was not judged invalid.
pub const MEMPOOL_FULL: i64 = -32003;
/// The consensus thread could not be reached.
pub const NODE_UNAVAILABLE: i64 = -32004;
/// There is no txid-to-block index (and, at this layer, no txid).
pub const NO_TRANSACTION_INDEX: i64 = -32005;
/// This node has no wallet and no frozen address format.
pub const NO_WALLET: i64 = -32006;
/// The slot carries no canonical block: a missed proposal, not an error state.
pub const SLOT_EMPTY: i64 = -32007;
/// The node refused a submitted transaction on its merits.
pub const TX_REFUSED: i64 = -32008;

/// A JSON-RPC error object: a code a client can branch on and a message a
/// human can act on.
#[derive(Clone, Debug, PartialEq, Eq)]
pub struct RpcError {
    pub code: i64,
    pub message: String,
}

impl View for RpcError {
    type V = (i64, Seq<char>);

    open spec fn view(&self) -> (i64, Seq<char>) {
        (self.code, self.message@)
    }
}

pub open spec fn invalid_params_v(detail: Seq<char>) -> (i64, Seq<char>) {
    (-32602i64, "invalid params: "@ + detail)
}

pub open spec fn invalid_request_v(detail: Seq<char>) -> (i64, Seq<char>) {
    (-32600i64, "invalid request: "@ + detail)
}

pub open spec fn parse_error_v(detail: Seq<char>) -> (i64, Seq<char>) {
    (-32700i64, "parse error: "@ + detail)
}

pub open spec fn method_not_found_v(method: Seq<char>) -> (i64, Seq<char>) {
    (-32601i64, "method not found: "@ + method)
}

fn concat2(a: &str, b: &str) -> (r: String)
    ensures
        r@ == a@ + b@,
{
    let mut s = string_of(a);
    push_str(&mut s, b);
    s
}

impl RpcError {
    pub fn new(code: i64, message: &str) -> (r: RpcError)
        ensures
            r@ == (code, message@),
    {
        RpcError { code, message: string_of(message) }
    }

    /// -32700: the body was not JSON.
    pub fn parse_error(detail: &str) -> (r: RpcError)
        ensures
            r@ == parse_error_v(detail@),
    {
        RpcError { code: -32700, message: concat2("parse error: ", detail) }
    }

    /// -32600: it was JSON, but not a JSON-RPC 2.0 request.
    pub fn invalid_request(detail: &str) -> (r: RpcError)
        ensures
            r@ == invalid_request_v(detail@),
    {
        RpcError { code: -32600, message: concat2("invalid request: ", detail) }
    }

    /// -32601: no such method on this node.
    pub fn method_not_found(method: &str) -> (r: RpcError)
        ensures
            r@ == method_not_found_v(method@),
    {
        RpcError { code: -32601, message: concat2("method not found: ", method) }
    }

    /// -32602: the method exists, the arguments do not fit it.
    pub fn invalid_params(detail: &str) -> (r: RpcError)
        ensures
            r@ == invalid_params_v(detail@),
    {
        RpcError { code: -32602, message: concat2("invalid params: ", detail) }
    }

    /// [`NODE_UNAVAILABLE`]: the consensus thread could not be reached.
    pub fn unavailable(detail: &str) -> (r: RpcError)
        ensures
            r@ == (NODE_UNAVAILABLE, detail@),
    {
        RpcError { code: NODE_UNAVAILABLE, message: string_of(detail) }
    }

    /// [`NO_TRANSACTION_INDEX`]: `gettransaction`'s permanent answer. A
    /// transaction carries no id at this layer and the block store keeps no
    /// txid index, so there is nothing to look up.
    pub fn no_transaction_index() -> (r: RpcError)
        ensures
            r@ == (NO_TRANSACTION_INDEX, NO_TRANSACTION_INDEX_TEXT@),
    {
        RpcError { code: NO_TRANSACTION_INDEX, message: string_of(NO_TRANSACTION_INDEX_TEXT) }
    }

    /// [`NO_WALLET`]: `getnewaddress` cannot be served. A node RPC must never
    /// mint key material, and no address format is frozen.
    pub fn no_wallet() -> (r: RpcError)
        ensures
            r@ == (NO_WALLET, NO_WALLET_TEXT@),
    {
        RpcError { code: NO_WALLET, message: string_of(NO_WALLET_TEXT) }
    }
}

/// The explanation that goes with [`NO_TRANSACTION_INDEX`].
pub const NO_TRANSACTION_INDEX_TEXT: &'static str = "this node cannot look up a transaction by id: at Genesis-4's current \
     layer a transaction carries no id (the transfer format is not yet \
     specified — `PosTransaction::Transfer` encodes only fee-market terms), \
     and the block store keeps no txid index. Track deposits by scanning \
     blocks via `getblockbyslot` and reading the eUTXO set via `getbalance` \
     / `listunspent`, both of which are exact. This is a permanent answer \
     for this build, not a transient failure — do not retry.";

/// The explanation that goes with [`NO_WALLET`].
pub const NO_WALLET_TEXT: &'static str = "this node holds no wallet and does not generate addresses. Two reasons, \
     both permanent for this build: a node RPC must never mint key material \
     (production keys are generated by a human on an air-gapped machine, per \
     BLOCH-GENESIS-KEYS.md), and Genesis-4 has not frozen an address format \
     yet — `withdrawal_credentials` is opaque bytes by declaration, so any \
     address returned here could not be honoured later. Generate deposit \
     addresses in your own wallet and watch them with `getbalance` / \
     `listunspent`, which take a 32-byte script hash.";


// ── Hex ─────────────────────────────────────────────────────────────────────

/// Decode a hex string, optionally `0x`-prefixed. `None` on any malformed
/// input (odd length, a non-hex digit) rather than a partial decode.
pub fn from_hex(s: &str) -> (r: Option<Vec<u8>>)
    ensures
        match r {
            Some(v) => from_hex_spec(s@) == Some(v@),
            None => from_hex_spec(s@) is None,
        },
{
    from_hex_chars(&chars_of(s))
}

/// Exactly 32 bytes of hex.
pub open spec fn hex32_spec(s: Seq<char>) -> Option<Seq<u8>> {
    match from_hex_spec(s) {
        Some(b) => if b.len() == 32 {
            Some(b)
        } else {
            None
        },
        None => None,
    }
}

pub(crate) fn hex32_from(s: &str) -> (r: Option<[u8; 32]>)
    ensures
        match r {
            Some(a) => hex32_spec(s@) == Some(a@),
            None => hex32_spec(s@) is None,
        },
{
    match from_hex(s) {
        Some(v) => {
            if v.len() == 32 {
                let a = read_h32(v.as_slice(), 0);
                proof {
                    assert(v@.subrange(0, 32) =~= v@);
                }
                Some(a)
            } else {
                None
            }
        },
        None => None,
    }
}

// ── The request surface ─────────────────────────────────────────────────────

/// A decoded call, with its arguments already validated.
///
/// `SendRawTransaction` carries the submitted canonical bytes; turning them
/// into a transaction is the consensus codec's work, done before the request
/// reaches the node.
#[derive(Clone, Debug, PartialEq, Eq)]
pub enum RpcRequest {
    ChainInfo,
    /// `getblockcount`: the polling method, carrying finality with it.
    BlockCount,
    BlockBySlot(u64),
    BlockById([u8; 32]),
    Validator(u32),
    ValidatorCount,
    Balance([u8; 32]),
    Utxos { script_hash: [u8; 32], limit: usize },
    /// `gettxout`: is this one output still unspent?
    TxOut { txid: [u8; 32], vout: u32 },
    SendRawTransaction(Vec<u8>),
    MempoolInfo,
}

/// The mathematical value of an [`RpcRequest`].
pub enum RequestV {
    ChainInfo,
    BlockCount,
    BlockBySlot(u64),
    BlockById(Seq<u8>),
    Validator(u32),
    ValidatorCount,
    Balance(Seq<u8>),
    Utxos(Seq<u8>, usize),
    TxOut(Seq<u8>, u32),
    SendRawTransaction(Seq<u8>),
    MempoolInfo,
}

impl View for RpcRequest {
    type V = RequestV;

    open spec fn view(&self) -> RequestV {
        match self {
            RpcRequest::ChainInfo => RequestV::ChainInfo,
            RpcRequest::BlockCount => RequestV::BlockCount,
            RpcRequest::BlockBySlot(s) => RequestV::BlockBySlot(*s),
            RpcRequest::BlockById(id) => RequestV::BlockById(id@),
            RpcRequest::Validator(i) => RequestV::Validator(*i),
            RpcRequest::ValidatorCount => RequestV::ValidatorCount,
            RpcRequest::Balance(h) => RequestV::Balance(h@),
            RpcRequest::Utxos { script_hash, limit } => RequestV::Utxos(script_hash@, *limit),
            RpcRequest::TxOut { txid, vout } => RequestV::TxOut(txid@, *vout),
            RpcRequest::SendRawTransaction(b) => RequestV::SendRawTransaction(b@),
            RpcRequest::MempoolInfo => RequestV::MempoolInfo,
        }
    }
}

pub open spec fn opt_view(p: Option<&Json>) -> Option<JsonV> {
    match p {
        Some(j) => Some(j@),
        None => None,
    }
}

pub open spec fn err_view<T>(r: Result<T, RpcError>) -> Result<T, (i64, Seq<char>)> {
    match r {
        Ok(v) => Ok(v),
        Err(e) => Err(e@),
    }
}

/// Argument `pos` of a positional list, or `name` of a named one.
pub open spec fn pick_spec(params: Option<JsonV>, pos: int, name: Seq<char>) -> Option<JsonV> {
    match params {
        Some(JsonV::Arr(items)) => if 0 <= pos < items.len() {
            Some(items[pos])
        } else {
            None
        },
        Some(JsonV::Obj(fields)) => match first_key(fields, name) {
            Some(k) => Some(fields[k].1),
            None => None,
        },
        _ => None,
    }
}

/// What [`Json::as_u64`] reads out of a value.
pub open spec fn json_u64(v: JsonV) -> Option<u64> {
    match v {
        JsonV::Num(raw) => parse_u64_spec(raw),
        JsonV::Str(t) => parse_u64_spec(t),
        _ => None,
    }
}

pub open spec fn quoted_name(name: Seq<char>) -> Seq<char> {
    seq!['`'] + name + seq!['`']
}

pub open spec fn missing_v(name: Seq<char>) -> (i64, Seq<char>) {
    invalid_params_v("missing "@ + quoted_name(name))
}

pub open spec fn want_u64_spec(params: Option<JsonV>, pos: int, name: Seq<char>) -> Result<u64, (i64, Seq<char>)> {
    match pick_spec(params, pos, name) {
        None => Err(missing_v(name)),
        Some(v) => match json_u64(v) {
            Some(n) => Ok(n),
            None => Err(invalid_params_v(quoted_name(name) + " must be a non-negative integer"@)),
        },
    }
}

pub open spec fn want_u32_spec(params: Option<JsonV>, pos: int, name: Seq<char>) -> Result<u32, (i64, Seq<char>)> {
    match want_u64_spec(params, pos, name) {
        Err(e) => Err(e),
        Ok(v) => if v <= u32::MAX {
            Ok(v as u32)
        } else {
            Err(
                invalid_params_v(
                    quoted_name(name) + " must fit in 32 bits (got "@ + decimal(v as nat) + ")"@,
                ),
            )
        },
    }
}

pub open spec fn want_hex32_spec(params: Option<JsonV>, pos: int, name: Seq<char>) -> Result<Seq<u8>, (i64, Seq<char>)> {
    match pick_spec(params, pos, name) {
        None => Err(missing_v(name)),
        Some(JsonV::Str(t)) => match hex32_spec(t) {
            Some(b) => Ok(b),
            None => Err(invalid_params_v(quoted_name(name) + " must be 32 bytes of hex (64 characters)"@)),
        },
        Some(_) => Err(invalid_params_v(quoted_name(name) + " must be a hex string"@)),
    }
}

fn quote_name(name: &str) -> (r: String)
    ensures
        r@ == quoted_name(name@),
{
    let mut s = String::new();
    s.push('`');
    push_str(&mut s, name);
    s.push('`');
    proof {
        assert(s@ =~= quoted_name(name@));
    }
    s
}

/// Read argument `pos` (positional) or `name` (named).
fn pick<'a>(params: Option<&'a Json>, pos: usize, name: &str) -> (r: Option<&'a Json>)
    ensures
        opt_view(r) == pick_spec(opt_view(params), pos as int, name@),
{
    match params {
        Some(p) => match p {
            Json::Arr(_) => p.at(pos),
            Json::Obj(_) => p.get(name),
            _ => None,
        },
        None => None,
    }
}

fn want_u64(params: Option<&Json>, pos: usize, name: &str) -> (r: Result<u64, RpcError>)
    ensures
        err_view(r) == want_u64_spec(opt_view(params), pos as int, name@),
{
    match pick(params, pos, name) {
        None => {
            let mut d = string_of("missing ");
            let q = quote_name(name);
            push_str(&mut d, q.as_str());
            Err(RpcError::invalid_params(d.as_str()))
        },
        Some(v) => match v.as_u64() {
            Some(n) => Ok(n),
            None => {
                let mut d = quote_name(name);
                push_str(&mut d, " must be a non-negative integer");
                Err(RpcError::invalid_params(d.as_str()))
            },
        },
    }
}

fn want_u32(params: Option<&Json>, pos: usize, name: &str) -> (r: Result<u32, RpcError>)
    ensures
        err_view(r) == want_u32_spec(opt_view(params), pos as int, name@),
{
    let v = match want_u64(params, pos, name) {
        Ok(v) => v,
        Err(e) => {
            return Err(e);
        },
    };
    if v <= 0xFFFF_FFFF {
        Ok(v as u32)
    } else {
        let mut d = quote_name(name);
        push_str(&mut d, " must fit in 32 bits (got ");
        let n = u64_to_decimal(v);
        push_str(&mut d, n.as_str());
        push_str(&mut d, ")");
        Err(RpcError::invalid_params(d.as_str()))
    }
}

fn want_hex32(params: Option<&Json>, pos: usize, name: &str) -> (r: Result<[u8; 32], RpcError>)
    ensures
        match r {
            Ok(a) => want_hex32_spec(opt_view(params), pos as int, name@) == Ok::<Seq<u8>, (i64, Seq<char>)>(a@),
            Err(e) => want_hex32_spec(opt_view(params), pos as int, name@) == Err::<Seq<u8>, (i64, Seq<char>)>(e@),
        },
{
    let v = match pick(params, pos, name) {
        Some(v) => v,
        None => {
            let mut d = string_of("missing ");
            let q = quote_name(name);
            push_str(&mut d, q.as_str());
            return Err(RpcError::invalid_params(d.as_str()));
        },
    };
    let raw = match v.as_str() {
        Some(raw) => raw,
        None => {
            let mut d = quote_name(name);
            push_str(&mut d, " must be a hex string");
            return Err(RpcError::invalid_params(d.as_str()));
        },
    };
    match hex32_from(raw) {
        Some(a) => Ok(a),
        None => {
            let mut d = quote_name(name);
            push_str(&mut d, " must be 32 bytes of hex (64 characters)");
            Err(RpcError::invalid_params(d.as_str()))
        },
    }
}


// ── Routing ─────────────────────────────────────────────────────────────────

pub open spec fn vout_spec(arg: Option<JsonV>) -> Result<u32, (i64, Seq<char>)> {
    match arg {
        None => Ok(0),
        Some(JsonV::Null) => Ok(0),
        Some(v) => match json_u64(v) {
            None => Err(invalid_params_v("`vout` must be a non-negative integer"@)),
            Some(n) => if n <= u32::MAX {
                Ok(n as u32)
            } else {
                Err(invalid_params_v("`vout` does not fit in 32 bits"@))
            },
        },
    }
}

pub open spec fn clamp_limit(n: usize) -> usize {
    if n < 1 {
        1
    } else if n > UTXO_PAGE_MAX {
        UTXO_PAGE_MAX
    } else {
        n
    }
}

pub open spec fn limit_spec(arg: Option<JsonV>) -> Result<usize, (i64, Seq<char>)> {
    match arg {
        None => Ok(UTXO_PAGE_DEFAULT),
        Some(JsonV::Null) => Ok(UTXO_PAGE_DEFAULT),
        Some(v) => match json_u64(v) {
            None => Err(invalid_params_v("`limit` must be a non-negative integer"@)),
            Some(n) => Ok(clamp_limit(n as usize)),
        },
    }
}

pub open spec fn raw_tx_spec(arg: Option<JsonV>) -> Result<Seq<u8>, (i64, Seq<char>)> {
    match arg {
        None => Err(invalid_params_v("missing `hex`"@)),
        Some(JsonV::Str(t)) => match from_hex_spec(t) {
            None => Err(invalid_params_v("`hex` is not valid hexadecimal"@)),
            Some(b) => if b.len() == 0 {
                Err(invalid_params_v("`hex` decoded to zero bytes"@))
            } else {
                Ok(b)
            },
        },
        Some(_) => Err(invalid_params_v("`hex` must be a hex string of the canonical bytes"@)),
    }
}

/// What [`route`] answers for a method name and its params.
pub open spec fn route_spec(method: Seq<char>, p: Option<JsonV>) -> Result<RequestV, (i64, Seq<char>)> {
    if method == "getchaininfo"@ {
        Ok(RequestV::ChainInfo)
    } else if method == "getblockcount"@ {
        Ok(RequestV::BlockCount)
    } else if method == "getblockbyslot"@ {
        match want_u64_spec(p, 0, "slot"@) {
            Ok(n) => Ok(RequestV::BlockBySlot(n)),
            Err(e) => Err(e),
        }
    } else if method == "getblockbyid"@ {
        match want_hex32_spec(p, 0, "block_id"@) {
            Ok(b) => Ok(RequestV::BlockById(b)),
            Err(e) => Err(e),
        }
    } else if method == "getvalidator"@ {
        match want_u32_spec(p, 0, "index"@) {
            Ok(n) => Ok(RequestV::Validator(n)),
            Err(e) => Err(e),
        }
    } else if method == "getvalidatorcount"@ {
        Ok(RequestV::ValidatorCount)
    } else if method == "getbalance"@ {
        match want_hex32_spec(p, 0, "script_hash"@) {
            Ok(b) => Ok(RequestV::Balance(b)),
            Err(e) => Err(e),
        }
    } else if method == "gettransaction"@ {
        Err((NO_TRANSACTION_INDEX, NO_TRANSACTION_INDEX_TEXT@))
    } else if method == "getnewaddress"@ {
        Err((NO_WALLET, NO_WALLET_TEXT@))
    } else if method == "gettxout"@ {
        match want_hex32_spec(p, 0, "txid"@) {
            Err(e) => Err(e),
            Ok(txid) => match vout_spec(pick_spec(p, 1, "vout"@)) {
                Ok(v) => Ok(RequestV::TxOut(txid, v)),
                Err(e) => Err(e),
            },
        }
    } else if method == "getutxos"@ || method == "listunspent"@ {
        match want_hex32_spec(p, 0, "script_hash"@) {
            Err(e) => Err(e),
            Ok(h) => match limit_spec(pick_spec(p, 1, "limit"@)) {
                Ok(l) => Ok(RequestV::Utxos(h, l)),
                Err(e) => Err(e),
            },
        }
    } else if method == "sendrawtransaction"@ {
        match raw_tx_spec(pick_spec(p, 0, "hex"@)) {
            Ok(b) => Ok(RequestV::SendRawTransaction(b)),
            Err(e) => Err(e),
        }
    } else if method == "getmempoolinfo"@ {
        Ok(RequestV::MempoolInfo)
    } else {
        Err(method_not_found_v(method))
    }
}

/// The method names this build answers: everything else is refused as an
/// unknown method.
pub open spec fn served_method(m: Seq<char>) -> bool {
    ||| m == "getchaininfo"@
    ||| m == "getblockcount"@
    ||| m == "getblockbyslot"@
    ||| m == "getblockbyid"@
    ||| m == "getvalidator"@
    ||| m == "getvalidatorcount"@
    ||| m == "getbalance"@
    ||| m == "gettransaction"@
    ||| m == "getnewaddress"@
    ||| m == "gettxout"@
    ||| m == "getutxos"@
    ||| m == "listunspent"@
    ||| m == "sendrawtransaction"@
    ||| m == "getmempoolinfo"@
}

/// The method namespace is closed: a name outside it is refused by name
/// with `-32601`, whatever its params, and no name inside it ever is.
/// `listunspent` and `getutxos` are two names for one request.
pub proof fn lemma_only_served_names_route(m: Seq<char>, p: Option<JsonV>)
    ensures
        !served_method(m) ==> route_spec(m, p) == Err::<RequestV, (i64, Seq<char>)>(method_not_found_v(m)),
        served_method(m) ==> !(route_spec(m, p) matches Err((code, _)) && code == -32601),
        route_spec("listunspent"@, p) == route_spec("getutxos"@, p),
{
    reveal_strlit("listunspent");
    reveal_strlit("getutxos");
    reveal_strlit("getchaininfo");
    reveal_strlit("getblockcount");
    reveal_strlit("getblockbyslot");
    reveal_strlit("getblockbyid");
    reveal_strlit("getvalidator");
    reveal_strlit("getvalidatorcount");
    reveal_strlit("getbalance");
    reveal_strlit("gettransaction");
    reveal_strlit("getnewaddress");
    reveal_strlit("gettxout");
    // Neither name is spelled like an earlier one: the lengths differ,
    // except `gettxout`, which differs from `getutxos` in its fourth letter.
    assert("listunspent"@ != "getchaininfo"@) by { assert("listunspent"@.len() != "getchaininfo"@.len()); }
    assert("listunspent"@ != "getblockcount"@) by { assert("listunspent"@.len() != "getblockcount"@.len()); }
    assert("listunspent"@ != "getblockbyslot"@) by { assert("listunspent"@.len() != "getblockbyslot"@.len()); }
    assert("listunspent"@ != "getblockbyid"@) by { assert("listunspent"@.len() != "getblockbyid"@.len()); }
    assert("listunspent"@ != "getvalidator"@) by { assert("listunspent"@.len() != "getvalidator"@.len()); }
    assert("listunspent"@ != "getvalidatorcount"@) by { assert("listunspent"@.len() != "getvalidatorcount"@.len()); }
    assert("listunspent"@ != "getbalance"@) by { assert("listunspent"@.len() != "getbalance"@.len()); }
    assert("listunspent"@ != "gettransaction"@) by { assert("listunspent"@.len() != "gettransaction"@.len()); }
    assert("listunspent"@ != "getnewaddress"@) by { assert("listunspent"@.len() != "getnewaddress"@.len()); }
    assert("listunspent"@ != "gettxout"@) by { assert("listunspent"@.len() != "gettxout"@.len()); }
    assert("getutxos"@ != "getchaininfo"@) by { assert("getutxos"@.len() != "getchaininfo"@.len()); }
    assert("getutxos"@ != "getblockcount"@) by { assert("getutxos"@.len() != "getblockcount"@.len()); }
    assert("getutxos"@ != "getblockbyslot"@) by { assert("getutxos"@.len() != "getblockbyslot"@.len()); }
    assert("getutxos"@ != "getblockbyid"@) by { assert("getutxos"@.len() != "getblockbyid"@.len()); }
    assert("getutxos"@ != "getvalidator"@) by { assert("getutxos"@.len() != "getvalidator"@.len()); }
    assert("getutxos"@ != "getvalidatorcount"@) by { assert("getutxos"@.len() != "getvalidatorcount"@.len()); }
    assert("getutxos"@ != "getbalance"@) by { assert("getutxos"@.len() != "getbalance"@.len()); }
    assert("getutxos"@ != "gettransaction"@) by { assert("getutxos"@.len() != "gettransaction"@.len()); }
    assert("getutxos"@ != "getnewaddress"@) by { assert("getutxos"@.len() != "getnewaddress"@.len()); }
    assert("getutxos"@ != "gettxout"@) by { assert("getutxos"@[3] != "gettxout"@[3]); }
}

/// `m` spells exactly `lit`.
fn spells(m: &Vec<char>, lit: &str) -> (r: bool)
    ensures
        r == (m@ == lit@),
{
    let l = chars_of(lit);
    if m.len() != l.len() {
        return false;
    }
    let n = m.len();
    let mut i: usize = 0;
    while i < n
        invariant
            i <= n,
            n == m@.len(),
            n == l@.len(),
            l@ == lit@,
            forall|k: int| 0 <= k < i ==> m@[k] == l@[k],
        decreases n - i,
    {
        if m[i] != l[i] {
            return false;
        }
        i = i + 1;
    }
    proof {
        assert(m@ =~= l@);
    }
    true
}

/// Turn a method name and its params into a request, or say precisely why
/// not. `gettransaction` and `getnewaddress` exist and answer with their own
/// permanent refusals rather than falling through to "method not found".
pub fn route(method: &str, params: Option<&Json>) -> (r: Result<RpcRequest, RpcError>)
    ensures
        match r {
            Ok(req) => route_spec(method@, opt_view(params)) == Ok::<RequestV, (i64, Seq<char>)>(req@),
            Err(e) => route_spec(method@, opt_view(params)) == Err::<RequestV, (i64, Seq<char>)>(e@),
        },
{
    let m = chars_of(method);
    if spells(&m, "getchaininfo") {
        Ok(RpcRequest::ChainInfo)
    } else if spells(&m, "getblockcount") {
        Ok(RpcRequest::BlockCount)
    } else if spells(&m, "getblockbyslot") {
        match want_u64(params, 0, "slot") {
            Ok(n) => Ok(RpcRequest::BlockBySlot(n)),
            Err(e) => Err(e),
        }
    } else if spells(&m, "getblockbyid") {
        match want_hex32(params, 0, "block_id") {
            Ok(b) => Ok(RpcRequest::BlockById(b)),
            Err(e) => Err(e),
        }
    } else if spells(&m, "getvalidator") {
        match want_u32(params, 0, "index") {
            Ok(n) => Ok(RpcRequest::Validator(n)),
            Err(e) => Err(e),
        }
    } else if spells(&m, "getvalidatorcount") {
        Ok(RpcRequest::ValidatorCount)
    } else if spells(&m, "getbalance") {
        match want_hex32(params, 0, "script_hash") {
            Ok(b) => Ok(RpcRequest::Balance(b)),
            Err(e) => Err(e),
        }
    } else if spells(&m, "gettransaction") {
        Err(RpcError::no_transaction_index())
    } else if spells(&m, "getnewaddress") {
        Err(RpcError::no_wallet())
    } else if spells(&m, "gettxout") {
        let txid = match want_hex32(params, 0, "txid") {
            Ok(t) => t,
            Err(e) => {
                return Err(e);
            },
        };
        let vout: u32 = match pick(params, 1, "vout") {
            None => 0,
            Some(Json::Null) => 0,
            Some(v) => match v.as_u64() {
                None => {
                    return Err(RpcError::invalid_params("`vout` must be a non-negative integer"));
                },
                Some(n) => {
                    if n <= 0xFFFF_FFFF {
                        n as u32
                    } else {
                        return Err(RpcError::invalid_params("`vout` does not fit in 32 bits"));
                    }
                },
            },
        };
        Ok(RpcRequest::TxOut { txid, vout })
    } else if spells(&m, "getutxos") || spells(&m, "listunspent") {
        let script_hash = match want_hex32(params, 0, "script_hash") {
            Ok(t) => t,
            Err(e) => {
                return Err(e);
            },
        };
        let limit: usize = match pick(params, 1, "limit") {
            None => UTXO_PAGE_DEFAULT,
            Some(Json::Null) => UTXO_PAGE_DEFAULT,
            Some(v) => match v.as_u64() {
                None => {
                    return Err(RpcError::invalid_params("`limit` must be a non-negative integer"));
                },
                Some(n) => {
                    let n = n as usize;
                    if n < 1 {
                        1
                    } else if n > UTXO_PAGE_MAX {
                        UTXO_PAGE_MAX
                    } else {
                        n
                    }
                },
            },
        };
        Ok(RpcRequest::Utxos { script_hash, limit })
    } else if spells(&m, "sendrawtransaction") {
        let raw = match pick(params, 0, "hex") {
            None => {
                return Err(RpcError::invalid_params("missing `hex`"));
            },
            Some(v) => match v.as_str() {
                Some(raw) => raw,
                None => {
                    return Err(
                        RpcError::invalid_params("`hex` must be a hex string of the canonical bytes"),
                    );
                },
            },
        };
        let bytes = match from_hex(raw) {
            Some(b) => b,
            None => {
                return Err(RpcError::invalid_params("`hex` is not valid hexadecimal"));
            },
        };
        if bytes.len() == 0 {
            return Err(RpcError::invalid_params("`hex` decoded to zero bytes"));
        }
        Ok(RpcRequest::SendRawTransaction(bytes))
    } else if spells(&m, "getmempoolinfo") {
        Ok(RpcRequest::MempoolInfo)
    } else {
        Err(RpcError::method_not_found(method))
    }
}


// ── The envelope ────────────────────────────────────────────────────────────

/// A signed integer's decimal text.
pub open spec fn signed_decimal(c: int) -> Seq<char> {
    if c < 0 {
        seq!['-'] + decimal((-c) as nat)
    } else {
        decimal(c as nat)
    }
}

fn i64_to_decimal(c: i64) -> (r: String)
    ensures
        r@ == signed_decimal(c as int),
{
    if c < 0 {
        let mag: u64 = if c == i64::MIN {
            0x8000_0000_0000_0000
        } else {
            (-c) as u64
        };
        let mut s = String::new();
        s.push('-');
        let d = u64_to_decimal(mag);
        push_str(&mut s, d.as_str());
        proof {
            assert(s@ =~= signed_decimal(c as int));
        }
        s
    } else {
        u64_to_decimal(c as u64)
    }
}

pub open spec fn outcome_view(r: Result<Json, RpcError>) -> Result<JsonV, (i64, Seq<char>)> {
    match r {
        Ok(v) => Ok(v@),
        Err(e) => Err(e@),
    }
}

/// The response object: `jsonrpc`, the echoed `id`, then `result` on
/// success or a top-level `error` object on failure, never both.
pub open spec fn envelope_v(id: JsonV, outcome: Result<JsonV, (i64, Seq<char>)>) -> JsonV {
    match outcome {
        Ok(res) => JsonV::Obj(
            seq![("jsonrpc"@, JsonV::Str("2.0"@)), ("id"@, id), ("result"@, res)],
        ),
        Err((code, message)) => JsonV::Obj(
            seq![
                ("jsonrpc"@, JsonV::Str("2.0"@)),
                ("id"@, id),
                (
                    "error"@,
                    JsonV::Obj(
                        seq![
                            ("code"@, JsonV::Num(signed_decimal(code as int))),
                            ("message"@, JsonV::Str(message)),
                        ],
                    ),
                ),
            ],
        ),
    }
}

proof fn lemma_decimal_lead(n: nat)
    requires
        n > 0,
    ensures
        decimal(n)[0] != '0',
    decreases n,
{
    if n >= 10 {
        lemma_decimal_lead(n / 10);
        crate::text::lemma_decimal_digits(n / 10);
        assert(decimal(n)[0] == decimal(n / 10)[0]);
    }
}

proof fn lemma_digits_to_end(s: Seq<char>, k: int)
    requires
        0 <= k <= s.len(),
        forall|p: int| k <= p < s.len() ==> is_digit(#[trigger] s[p]),
    ensures
        digits_end(s, k) == s.len(),
    decreases s.len() - k,
{
    if k < s.len() {
        lemma_digits_to_end(s, k + 1);
    }
}

/// An error code as written is a number literal the parser reads whole.
proof fn lemma_code_is_a_number(c: int)
    ensures
        number_text(signed_decimal(c)),
{
    let m: nat = if c < 0 {
        (-c) as nat
    } else {
        c as nat
    };
    let d = decimal(m);
    let raw = signed_decimal(c);
    let a: int = if c < 0 {
        1
    } else {
        0
    };
    crate::text::lemma_decimal_digits(m);
    assert(raw.len() == a + d.len());
    assert forall|p: int| a <= p < raw.len() implies is_digit(#[trigger] raw[p]) by {
        assert(raw[p] == d[p - a]);
    }
    assert(raw[a] == d[0]);
    if m > 0 {
        lemma_decimal_lead(m);
    } else {
        assert(d.len() == 1);
    }
    lemma_digits_to_end(raw, a);
    assert(raw.subrange(0, raw.len() as int) =~= raw);
}

/// The value an envelope carries under its third key.
pub open spec fn envelope_third(outcome: Result<JsonV, (i64, Seq<char>)>) -> JsonV {
    match outcome {
        Ok(res) => res,
        Err((code, message)) => JsonV::Obj(
            seq![("code"@, JsonV::Num(signed_decimal(code as int))), ("message"@, JsonV::Str(message))],
        ),
    }
}

proof fn lemma_error_object_readable(code: i64, message: Seq<char>)
    ensures
        readable(envelope_third(Err((code, message))), MAX_DEPTH - 1),
{
    lemma_code_is_a_number(code as int);
    let inner = seq![("code"@, JsonV::Num(signed_decimal(code as int))), ("message"@, JsonV::Str(message))];
    assert(readable(JsonV::Num(signed_decimal(code as int)), MAX_DEPTH - 2));
    assert forall|k: int| 0 <= k < inner.len() implies readable(#[trigger] inner[k].1, MAX_DEPTH - 2) by {
        if k == 0 {
            assert(inner[k].1 == JsonV::Num(signed_decimal(code as int)));
        } else {
            assert(inner[k].1 == JsonV::Str(message));
        }
    }
}

/// Every response envelope reads back as itself when its id and result
/// do: the error object's code is written as a number literal, and the
/// envelope adds one level of nesting.
#[verifier::spinoff_prover]
pub proof fn lemma_envelope_reads_back(id: JsonV, outcome: Result<JsonV, (i64, Seq<char>)>)
    requires
        readable(id, MAX_DEPTH - 1),
        outcome matches Ok(res) ==> readable(res, MAX_DEPTH - 1),
    ensures
        parse_spec(render(envelope_v(id, outcome))) == Some(envelope_v(id, outcome)),
{
    let third = envelope_third(outcome);
    match outcome {
        Ok(_) => {},
        Err((code, message)) => {
            lemma_error_object_readable(code, message);
        },
    }
    let third_key = if outcome is Ok {
        "result"@
    } else {
        "error"@
    };
    let fields = seq![("jsonrpc"@, JsonV::Str("2.0"@)), ("id"@, id), (third_key, third)];
    assert(envelope_v(id, outcome) == JsonV::Obj(fields));
    assert forall|k: int| 0 <= k < fields.len() implies readable(#[trigger] fields[k].1, MAX_DEPTH - 1) by {
        if k == 0 {
            assert(fields[k].1 == JsonV::Str("2.0"@));
        } else if k == 1 {
            assert(fields[k].1 == id);
        } else {
            assert(fields[k].1 == third);
        }
    }
    assert(readable(JsonV::Obj(fields), MAX_DEPTH as int));
    lemma_render_reads_back(JsonV::Obj(fields));
}

/// The response body for one outcome.
pub fn envelope(id: Json, outcome: Result<Json, RpcError>) -> (r: String)
    ensures
        r@ == render(envelope_v(id@, outcome_view(outcome))),
{
    let ghost idv = id@;
    let ghost ov = outcome_view(outcome);
    let body = match outcome {
        Ok(result) => {
            let fields = vec![("jsonrpc", Json::s("2.0")), ("id", id), ("result", result)];
            let j = Json::obj(fields);
            proof {
                let want = seq![("jsonrpc"@, JsonV::Str("2.0"@)), ("id"@, idv), ("result"@, result@)];
                match j@ {
                    JsonV::Obj(x) => {
                        assert(x =~= want);
                    },
                    _ => {},
                }
            }
            j
        },
        Err(e) => {
            let code = Json::Num(i64_to_decimal(e.code));
            let message = Json::Str(e.message);
            let inner = Json::obj(vec![("code", code), ("message", message)]);
            proof {
                let want = seq![
                    ("code"@, JsonV::Num(signed_decimal(e.code as int))),
                    ("message"@, JsonV::Str(e.message@)),
                ];
                match inner@ {
                    JsonV::Obj(x) => {
                        assert(x =~= want);
                    },
                    _ => {},
                }
            }
            let ghost innerv = inner@;
            let fields = vec![("jsonrpc", Json::s("2.0")), ("id", id), ("error", inner)];
            let j = Json::obj(fields);
            proof {
                let want = seq![("jsonrpc"@, JsonV::Str("2.0"@)), ("id"@, idv), ("error"@, innerv)];
                match j@ {
                    JsonV::Obj(x) => {
                        assert(x =~= want);
                    },
                    _ => {},
                }
            }
            j
        },
    };
    body.to_string()
}

// ── One request body ────────────────────────────────────────────────────────

/// What to do with a request body: answer it at once, or have the node
/// answer `request` and wrap that answer with `id`.
pub enum BodyAction {
    Reply(String),
    Call { id: Json, request: RpcRequest },
}

pub enum ActionV {
    Reply(Seq<char>),
    Call(JsonV, RequestV),
}

pub open spec fn action_view(a: BodyAction) -> ActionV {
    match a {
        BodyAction::Reply(s) => ActionV::Reply(s@),
        BodyAction::Call { id, request } => ActionV::Call(id@, request@),
    }
}

pub open spec fn reply_error(id: JsonV, e: (i64, Seq<char>)) -> ActionV {
    ActionV::Reply(render(envelope_v(id, Err(e))))
}

pub open spec fn member(fields: Seq<(Seq<char>, JsonV)>, key: Seq<char>) -> Option<JsonV> {
    match first_key(fields, key) {
        Some(k) => Some(fields[k].1),
        None => None,
    }
}

/// The dispatch of a body that parsed as `v`.
pub open spec fn dispatch_parsed(v: JsonV) -> ActionV {
    match v {
        JsonV::Arr(_) => reply_error(
            JsonV::Null,
            invalid_request_v("batch requests are not supported; send one call per request"@),
        ),
        JsonV::Obj(fields) => {
            let id = match member(fields, "id"@) {
                Some(x) => x,
                None => JsonV::Null,
            };
            if member(fields, "jsonrpc"@) is Some && member(fields, "jsonrpc"@) != Some(
                JsonV::Str("2.0"@),
            ) {
                reply_error(id, invalid_request_v("`jsonrpc` must be \"2.0\""@))
            } else {
                match member(fields, "method"@) {
                    Some(JsonV::Str(m)) => {
                        let params = match member(fields, "params"@) {
                            Some(JsonV::Null) => None,
                            other => other,
                        };
                        match route_spec(m, params) {
                            Ok(req) => ActionV::Call(id, req),
                            Err(e) => reply_error(id, e),
                        }
                    },
                    _ => reply_error(id, invalid_request_v("`method` must be a string"@)),
                }
            }
        },
        _ => reply_error(JsonV::Null, invalid_request_v("a request must be a JSON object"@)),
    }
}

fn is_null(v: &Json) -> (r: bool)
    ensures
        r == (v@ == JsonV::Null),
{
    match v {
        Json::Null => true,
        _ => false,
    }
}

proof fn lemma_first_key_in_range(fields: Seq<(Seq<char>, JsonV)>, key: Seq<char>)
    ensures
        first_key(fields, key) matches Some(k) ==> 0 <= k < fields.len(),
    decreases fields.len(),
{
    if fields.len() > 0 && fields[0].0 != key {
        lemma_first_key_in_range(fields.drop_first(), key);
    }
}

/// Every response to a body reads back as the envelope it is. A body that
/// is not JSON, and every request the library refuses itself, is answered
/// with an error envelope that parses as such, under the request's id; a
/// routed call is answered under an id that reads back, so a result that
/// reads back, and every error the backend answers, gives a response that
/// does.
pub proof fn lemma_responses_read_back(body: Seq<char>)
    ensures
        parse_spec(body) is None ==> parse_spec(render(envelope_v(JsonV::Null, Err(parse_error_v(parse_err(body)@)))))
            == Some(envelope_v(JsonV::Null, Err(parse_error_v(parse_err(body)@)))),
        parse_spec(body) matches Some(v) ==> match dispatch_parsed(v) {
            ActionV::Reply(s) => exists|id: JsonV, e: (i64, Seq<char>)|
                #![trigger envelope_v(id, Err(e))]
                s == render(envelope_v(id, Err(e))) && parse_spec(s) == Some(envelope_v(id, Err(e))),
            ActionV::Call(id, _) => {
                &&& forall|res: JsonV|
                    readable(res, MAX_DEPTH - 1) ==> #[trigger] parse_spec(render(envelope_v(id, Ok(res)))) == Some(
                        envelope_v(id, Ok(res)),
                    )
                &&& forall|e: (i64, Seq<char>)| #[trigger]
                    parse_spec(render(envelope_v(id, Err(e)))) == Some(envelope_v(id, Err(e)))
            },
        },
{
    assert(readable(JsonV::Null, MAX_DEPTH - 1));
    lemma_envelope_reads_back(JsonV::Null, Err(parse_error_v(parse_err(body)@)));
    lemma_parsed_reads_back(body);
    if let Some(v) = parse_spec(body) {
        let id = match v {
            JsonV::Obj(fields) => request_id(fields),
            _ => JsonV::Null,
        };
        if let JsonV::Obj(fields) = v {
            lemma_first_key_in_range(fields, "id"@);
            match first_key(fields, "id"@) {
                Some(k) => {
                    assert(readable(fields[k].1, MAX_DEPTH - 1));
                },
                None => {},
            }
            lemma_request_id_is_echoed(fields);
        }
        assert(readable(id, MAX_DEPTH - 1));
        match dispatch_parsed(v) {
            ActionV::Reply(s) => {
                let e = choose|e: (i64, Seq<char>)| s == #[trigger] render(envelope_v(id, Err(e)));
                if !(v is Obj) {
                    if v is Arr {
                        let e0 = invalid_request_v("batch requests are not supported; send one call per request"@);
                        assert(s == render(envelope_v(id, Err(e0))));
                    } else {
                        let e0 = invalid_request_v("a request must be a JSON object"@);
                        assert(s == render(envelope_v(id, Err(e0))));
                    }
                }
                assert(s == render(envelope_v(id, Err(e))));
                lemma_envelope_reads_back(id, Err(e));
            },
            ActionV::Call(cid, _) => {
                assert(cid == id);
                assert forall|res: JsonV| readable(res, MAX_DEPTH - 1) implies #[trigger] parse_spec(
                    render(envelope_v(cid, Ok(res))),
                ) == Some(envelope_v(cid, Ok(res))) by {
                    lemma_envelope_reads_back(cid, Ok(res));
                }
                assert forall|e: (i64, Seq<char>)| #[trigger] parse_spec(render(envelope_v(cid, Err(e)))) == Some(
                    envelope_v(cid, Err(e)),
                ) by {
                    lemma_envelope_reads_back(cid, Err(e));
                }
            },
        }
    }
}

/// Handle one request body up to the point where the node must answer.
///
/// Total: every text yields either a finished JSON-RPC response or a
/// routed request; nothing in here can fail any other way.
pub fn dispatch_body(body: &str) -> (r: BodyAction)
    ensures
        match parse_spec(body@) {
            None => r matches BodyAction::Reply(s) && s@ == render(
                envelope_v(JsonV::Null, Err(parse_error_v(parse_err(body@)@))),
            ),
            Some(v) => action_view(r) == dispatch_parsed(v),
        },
{
    let request = match parse_json(body) {
        Ok(v) => v,
        Err(why) => {
            let s = envelope(Json::Null, Err(RpcError::parse_error(why)));
            proof {
                assert(s@ == render(envelope_v(JsonV::Null, Err(parse_error_v(why@)))));
            }
            return BodyAction::Reply(s);
        },
    };
    let ghost v = request@;
    match request {
        Json::Arr(_) => {
            return BodyAction::Reply(
                envelope(
                    Json::Null,
                    Err(
                        RpcError::invalid_request(
                            "batch requests are not supported; send one call per request",
                        ),
                    ),
                ),
            );
        },
        Json::Obj(_) => {},
        _ => {
            return BodyAction::Reply(
                envelope(Json::Null, Err(RpcError::invalid_request("a request must be a JSON object"))),
            );
        },
    }
    let ghost fields = match v {
        JsonV::Obj(f) => f,
        _ => Seq::empty(),
    };
    let id = match request.get("id") {
        Some(x) => x.clone_value(),
        None => Json::Null,
    };
    match request.get("jsonrpc") {
        Some(x) => {
            let ok = match x.as_str() {
                Some(t) => spells(&chars_of(t), "2.0"),
                None => false,
            };
            if !ok {
                return BodyAction::Reply(
                    envelope(id, Err(RpcError::invalid_request("`jsonrpc` must be \"2.0\""))),
                );
            }
        },
        None => {},
    }
    let method = match request.get("method") {
        Some(x) => match x.as_str() {
            Some(m) => m,
            None => {
                return BodyAction::Reply(
                    envelope(id, Err(RpcError::invalid_request("`method` must be a string"))),
                );
            },
        },
        None => {
            return BodyAction::Reply(
                envelope(id, Err(RpcError::invalid_request("`method` must be a string"))),
            );
        },
    };
    let params = match request.get("params") {
        Some(x) => if is_null(x) {
            None
        } else {
            Some(x)
        },
        None => None,
    };
    match route(method, params) {
        Ok(req) => BodyAction::Call { id, request: req },
        Err(e) => BodyAction::Reply(envelope(id, Err(e))),
    }
}


/// The `id` of a request object, `null` when it has none.
pub open spec fn request_id(fields: Seq<(Seq<char>, JsonV)>) -> JsonV {
    match member(fields, "id"@) {
        Some(x) => x,
        None => JsonV::Null,
    }
}

/// The answer to a request object carries its id: a refusal is an error
/// envelope under that id, a routed call is answered under it.
pub open spec fn echoes_id(fields: Seq<(Seq<char>, JsonV)>) -> bool {
    match dispatch_parsed(JsonV::Obj(fields)) {
        ActionV::Reply(s) => exists|e: (i64, Seq<char>)| s == #[trigger] render(envelope_v(request_id(fields), Err(e))),
        ActionV::Call(i, _) => i == request_id(fields),
    }
}

/// Whatever else a request object gets wrong, its answer carries its `id`
/// back unchanged (`null` when it had none): a refusal is the error
/// envelope with that id, and a routed call is answered under it.
pub proof fn lemma_request_id_is_echoed(fields: Seq<(Seq<char>, JsonV)>)
    ensures
        echoes_id(fields),
{
    let id = request_id(fields);
    let d = dispatch_parsed(JsonV::Obj(fields));
    if member(fields, "jsonrpc"@) is Some && member(fields, "jsonrpc"@) != Some(JsonV::Str("2.0"@)) {
        let e = invalid_request_v("`jsonrpc` must be \"2.0\""@);
        assert(d == ActionV::Reply(render(envelope_v(id, Err(e)))));
        assert(echoes_id(fields));
    } else {
        match member(fields, "method"@) {
            Some(JsonV::Str(m)) => {
                let params = match member(fields, "params"@) {
                    Some(JsonV::Null) => None,
                    other => other,
                };
                match route_spec(m, params) {
                    Ok(req) => {
                        assert(d == ActionV::Call(id, req));
                        assert(echoes_id(fields));
                    },
                    Err(e) => {
                        assert(d == ActionV::Reply(render(envelope_v(id, Err(e)))));
                        assert(echoes_id(fields));
                    },
                }
            },
            _ => {
                let e = invalid_request_v("`method` must be a string"@);
                assert(d == ActionV::Reply(render(envelope_v(id, Err(e)))));
                assert(echoes_id(fields));
            },
        }
    }
}

/// The node side of the RPC surface: answer a routed request.
pub trait RpcBackend {
    /// Whether `out` is an answer this backend may give to `req`. A relation,
    /// not a function: a node answers from state that moves between calls.
    /// A backend that states nothing of itself allows every answer.
    open spec fn answers(&self, req: RequestV, out: Result<JsonV, (i64, Seq<char>)>) -> bool {
        true
    }

    fn call(&self, req: RpcRequest) -> (r: Result<Json, RpcError>)
        ensures
            self.answers(req@, outcome_view(r)),
    ;
}

/// Handle one request body and return one response body.
///
/// Total on every input: any text produces a JSON-RPC response. A body that
/// dispatches to a routed request is answered by `backend`, asked exactly
/// that request: its result is the response's `result`, its error the
/// response's top-level `error` object, under the request's own `id`.
pub fn handle_body<B: RpcBackend>(body: &str, backend: &B) -> (r: String)
    ensures
        match parse_spec(body@) {
            None => r@ == render(envelope_v(JsonV::Null, Err(parse_error_v(parse_err(body@)@)))),
            Some(v) => match dispatch_parsed(v) {
                ActionV::Reply(s) => r@ == s,
                ActionV::Call(id, req) => exists|out: Result<JsonV, (i64, Seq<char>)>|
                    #[trigger] backend.answers(req, out) && r@ == render(envelope_v(id, out)),
            },
        },
{
    match dispatch_body(body) {
        BodyAction::Reply(s) => s,
        BodyAction::Call { id, request } => {
            let out = backend.call(request);
            let r = envelope(id, out);
            proof {
                assert(r@ == render(envelope_v(id@, outcome_view(out))));
            }
            r
        },
    }
}

// ── HTTP/1.1, the subset a JSON-RPC client uses ─────────────────────────────

/// An HTTP-level refusal: the status line to answer with and why.
#[derive(Clone, Copy, Debug, PartialEq, Eq)]
pub struct HttpError {
    pub status: u16,
    pub message: &'static str,
}

pub fn http_err(status: u16, message: &'static str) -> (r: HttpError)
    ensures
        r.status == status,
        r.message == message,
{
    HttpError { status, message }
}

/// Where the head of a request ends: the first `\r\n\r\n`.
pub open spec fn is_head_end(b: Seq<u8>, p: int) -> bool {
    0 <= p && p + 4 <= b.len() && b[p] == 13 && b[p + 1] == 10 && b[p + 2] == 13 && b[p + 3] == 10
}

pub fn find_head_end(buf: &[u8]) -> (r: Option<usize>)
    ensures
        match r {
            Some(p) => is_head_end(buf@, p as int) && forall|q: int| 0 <= q < p ==> !is_head_end(buf@, q),
            None => forall|q: int| 0 <= q ==> !is_head_end(buf@, q),
        },
{
    let n = buf.len();
    if n < 4 {
        return None;
    }
    let mut p: usize = 0;
    while p <= n - 4
        invariant
            n == buf@.len(),
            4 <= n,
            p <= n - 3,
            forall|q: int| 0 <= q < p ==> !is_head_end(buf@, q),
        decreases n - p,
    {
        if buf[p] == 13 && buf[p + 1] == 10 && buf[p + 2] == 13 && buf[p + 3] == 10 {
            return Some(p);
        }
        p = p + 1;
    }
    None
}

pub open spec fn ascii_lower(c: char) -> char {
    if 'A' <= c && c <= 'Z' {
        ((c as u32) + 32) as char
    } else {
        c
    }
}

/// `eq_ignore_ascii_case` against a lowercase word.
pub open spec fn same_word(t: Seq<char>, lower: Seq<char>) -> bool {
    t.len() == lower.len() && forall|k: int| 0 <= k < t.len() ==> ascii_lower(#[trigger] t[k]) == lower[k]
}

/// `\r\n` starts at `k`.
pub open spec fn crlf_at(s: Seq<char>, k: int) -> bool {
    0 <= k && k + 1 < s.len() && s[k] == '\r' && s[k + 1] == '\n'
}

/// Where the line starting at `i` ends: the next `\r\n`, or the end.
pub open spec fn line_end(s: Seq<char>, i: int) -> int
    decreases s.len() - i,
{
    if i >= s.len() {
        s.len() as int
    } else if crlf_at(s, i) {
        i
    } else {
        line_end(s, i + 1)
    }
}

/// The first `:` in `[a, b)`, if any.
pub open spec fn colon_in(s: Seq<char>, a: int, b: int) -> Option<int>
    decreases b - a,
{
    if a >= b {
        None
    } else if s[a] == ':' {
        Some(a)
    } else {
        colon_in(s, a + 1, b)
    }
}

/// `parse::<usize>()`.
pub open spec fn parse_usize_spec(t: Seq<char>) -> Option<usize> {
    match parse_u64_spec(t) {
        Some(n) => if n <= usize::MAX {
            Some(n as usize)
        } else {
            None
        },
        None => None,
    }
}

/// The header lines from `i` on, with the `Content-Length` seen so far.
/// A `Transfer-Encoding` header refuses the request; a later
/// `Content-Length` replaces an earlier one.
pub open spec fn headers_spec(s: Seq<char>, i: int, cl: Option<usize>) -> Result<Option<usize>, HttpError>
    decreases s.len() - i,
{
    if !(0 <= i <= s.len()) {
        Ok(cl)
    } else {
        let e = line_end(s, i);
        let cl2 = match colon_in(s, i, e) {
            None => Ok(cl),
            Some(c) => {
                let name = trimmed(s, i, c);
                if same_word(name, "content-length"@) {
                    Ok(parse_usize_spec(trimmed(s, c + 1, e)))
                } else if same_word(name, "transfer-encoding"@) {
                    Err(
                        HttpError {
                            status: 411,
                            message: "chunked transfer-encoding is not supported; send Content-Length",
                        },
                    )
                } else {
                    Ok(cl)
                }
            },
        };
        match cl2 {
            Err(x) => Err(x),
            Ok(c2) => if e < s.len() && e + 2 <= s.len() && i < e + 2 {
                headers_spec(s, e + 2, c2)
            } else {
                Ok(c2)
            },
        }
    }
}

/// The verb of the request line: everything before its first space.
pub open spec fn verb_end(s: Seq<char>, i: int, e: int) -> int
    decreases e - i,
{
    if i >= e || s[i] == ' ' {
        i
    } else {
        verb_end(s, i + 1, e)
    }
}

/// What [`parse_head`] answers for a request head.
pub open spec fn parse_head_spec(s: Seq<char>) -> Result<usize, HttpError> {
    let e0 = line_end(s, 0);
    let verb = s.subrange(0, verb_end(s, 0, e0));
    if !same_word(verb, "post"@) {
        Err(HttpError { status: 405, message: "this endpoint accepts POST only" })
    } else {
        let hs = if e0 < s.len() {
            headers_spec(s, e0 + 2, None)
        } else {
            Ok(None)
        };
        match hs {
            Err(x) => Err(x),
            Ok(None) => Err(HttpError { status: 411, message: "Content-Length is required" }),
            Ok(Some(len)) => if len > MAX_BODY_BYTES {
                Err(HttpError { status: 413, message: "request body too large" })
            } else {
                Ok(len)
            },
        }
    }
}

fn lower_char(c: char) -> (r: char)
    ensures
        r == ascii_lower(c),
{
    if 'A' <= c && c <= 'Z' {
        ((c as u32) + 32) as u8 as char
    } else {
        c
    }
}

/// `s[a..b]` equals the lowercase word `lower`, ignoring ASCII case.
fn same_word_at(s: &Vec<char>, a: usize, b: usize, lower: &str) -> (r: bool)
    requires
        a <= b <= s@.len(),
    ensures
        r == same_word(s@.subrange(a as int, b as int), lower@),
{
    let w = chars_of(lower);
    if b - a != w.len() {
        return false;
    }
    let ghost t = s@.subrange(a as int, b as int);
    let mut k: usize = 0;
    while k < w.len()
        invariant
            a <= b <= s@.len(),
            w@ == lower@,
            b - a == w@.len(),
            t == s@.subrange(a as int, b as int),
            k <= w@.len(),
            forall|x: int| 0 <= x < k ==> ascii_lower(#[trigger] t[x]) == w@[x],
        decreases w@.len() - k,
    {
        if lower_char(s[a + k]) != w[k] {
            assert(ascii_lower(t[k as int]) != w@[k as int]);
            return false;
        }
        k = k + 1;
    }
    true
}

fn parse_usize_range(s: &Vec<char>, a: usize, b: usize) -> (r: Option<usize>)
    requires
        a <= b <= s@.len(),
    ensures
        r == parse_usize_spec(s@.subrange(a as int, b as int)),
{
    let mut t: Vec<char> = Vec::new();
    let mut k = a;
    while k < b
        invariant
            a <= k <= b <= s@.len(),
            t@ == s@.subrange(a as int, k as int),
        decreases b - k,
    {
        t.push(s[k]);
        proof {
            assert(s@.subrange(a as int, k + 1) =~= s@.subrange(a as int, k as int).push(s@[k as int]));
        }
        k = k + 1;
    }
    match crate::text::parse_u64_chars(&t) {
        Some(n) => {
            if n as u128 <= usize::MAX as u128 {
                Some(n as usize)
            } else {
                None
            }
        },
        None => None,
    }
}

/// Read the request head (everything before the blank line): POST only,
/// a `Content-Length` that fits [`MAX_BODY_BYTES`], no chunked bodies.
/// Answers the body length to read.
pub fn parse_head(head: &str) -> (r: Result<usize, HttpError>)
    ensures
        r == parse_head_spec(head@),
{
    let s = chars_of(head);
    let n = s.len();
    let mut e0: usize = 0;
    while e0 < n && !(e0 + 1 < n && s[e0] == '\r' && s[e0 + 1] == '\n')
        invariant
            e0 <= n,
            n == s@.len(),
            line_end(s@, e0 as int) == line_end(s@, 0),
        decreases n - e0,
    {
        e0 = e0 + 1;
    }
    let mut v: usize = 0;
    while v < e0 && s[v] != ' '
        invariant
            v <= e0 <= n,
            n == s@.len(),
            verb_end(s@, v as int, e0 as int) == verb_end(s@, 0, e0 as int),
        decreases e0 - v,
    {
        v = v + 1;
    }
    if !same_word_at(&s, 0, v, "post") {
        return Err(http_err(405, "this endpoint accepts POST only"));
    }
    let mut content_length: Option<usize> = None;
    if e0 < n {
        let mut i = e0 + 2;
        loop
            invariant
                n == s@.len(),
                s@ == head@,
                e0 < n,
                e0 == line_end(s@, 0),
                same_word(s@.subrange(0, verb_end(s@, 0, e0 as int)), "post"@),
                e0 + 2 <= i <= n,
                headers_spec(s@, i as int, content_length) == headers_spec(s@, e0 + 2, None),
            ensures
                headers_spec(s@, e0 + 2, None) == Ok::<Option<usize>, HttpError>(content_length),
            decreases n - i,
        {
            let mut e = i;
            while e < n && !(e + 1 < n && s[e] == '\r' && s[e + 1] == '\n')
                invariant
                    i <= e <= n,
                    n == s@.len(),
                    line_end(s@, e as int) == line_end(s@, i as int),
                decreases n - e,
            {
                e = e + 1;
            }
            let mut c = i;
            while c < e && s[c] != ':'
                invariant
                    i <= c <= e <= n,
                    n == s@.len(),
                    colon_in(s@, c as int, e as int) == colon_in(s@, i as int, e as int),
                decreases e - c,
            {
                c = c + 1;
            }
            if c < e {
                let (x, y) = trim_bounds(&s, i, c);
                if same_word_at(&s, x, y, "content-length") {
                    let (vx, vy) = trim_bounds(&s, c + 1, e);
                    content_length = parse_usize_range(&s, vx, vy);
                } else if same_word_at(&s, x, y, "transfer-encoding") {
                    return Err(
                        http_err(
                            411,
                            "chunked transfer-encoding is not supported; send Content-Length",
                        ),
                    );
                }
            }
            if e < n {
                i = e + 2;
            } else {
                break;
            }
        }
    }
    match content_length {
        None => Err(http_err(411, "Content-Length is required")),
        Some(len) => {
            if len > MAX_BODY_BYTES {
                Err(http_err(413, "request body too large"))
            } else {
                Ok(len)
            }
        },
    }
}

/// The reason phrase sent with a status code.
#[verifier::allow_in_spec]
pub fn reason_phrase(status: u16) -> &'static str
    returns
        (if status == 200 {
            "OK"
        } else if status == 400 {
            "Bad Request"
        } else if status == 405 {
            "Method Not Allowed"
        } else if status == 408 {
            "Request Timeout"
        } else if status == 411 {
            "Length Required"
        } else if status == 413 {
            "Payload Too Large"
        } else if status == 431 {
            "Request Header Fields Too Large"
        } else if status == 503 {
            "Service Unavailable"
        } else {
            "Error"
        }),
{
    if status == 200 {
        "OK"
    } else if status == 400 {
        "Bad Request"
    } else if status == 405 {
        "Method Not Allowed"
    } else if status == 408 {
        "Request Timeout"
    } else if status == 411 {
        "Length Required"
    } else if status == 413 {
        "Payload Too Large"
    } else if status == 431 {
        "Request Header Fields Too Large"
    } else if status == 503 {
        "Service Unavailable"
    } else {
        "Error"
    }
}

/// The response head: status line, JSON content type, the exact body
/// length, and `Connection: close` (one request per connection).
pub fn response_head(status: u16, body_len: usize) -> (r: String)
    ensures
        r@ == "HTTP/1.1 "@ + decimal(status as nat) + " "@ + reason_phrase(status)@
            + "\r\nContent-Type: application/json\r\nContent-Length: "@ + decimal(body_len as nat)
            + "\r\nConnection: close\r\n\r\n"@,
{
    let mut s = string_of("HTTP/1.1 ");
    let st = u64_to_decimal(status as u64);
    push_str(&mut s, st.as_str());
    push_str(&mut s, " ");
    push_str(&mut s, reason_phrase(status));
    push_str(&mut s, "\r\nContent-Type: application/json\r\nContent-Length: ");
    let n = u64_to_decimal(body_len as u64);
    push_str(&mut s, n.as_str());
    push_str(&mut s, "\r\nConnection: close\r\n\r\n");
    s
}


// ── Formatting: pure projections of committed state ────────────────────────

/// Slots in one epoch.
pub const SLOTS_PER_EPOCH: u64 = 32;

/// The epoch a slot falls in.
pub open spec fn epoch_of(slot: u64) -> u64 {
    (slot / SLOTS_PER_EPOCH) as u64
}

/// How a block stands relative to this node's own checkpoints. This is this
/// node's own judgement; `Finalized` is the strongest classification it
/// offers and is not a settlement guarantee.
#[derive(Clone, Copy, Debug, PartialEq, Eq)]
pub enum Finality {
    /// At or below the finalised checkpoint.
    Finalized,
    /// At or below the justified checkpoint but above the finalised one.
    Justified,
    /// On this node's canonical chain, not yet justified.
    Canonical,
    /// Known to this node but not on its canonical chain.
    NotCanonical,
}

impl Finality {
    #[verifier::allow_in_spec]
    pub fn as_str(self) -> &'static str
        returns
            match self {
                Finality::Finalized => "finalized",
                Finality::Justified => "justified",
                Finality::Canonical => "canonical",
                Finality::NotCanonical => "not_canonical",
            },
    {
        match self {
            Finality::Finalized => "finalized",
            Finality::Justified => "justified",
            Finality::Canonical => "canonical",
            Finality::NotCanonical => "not_canonical",
        }
    }

    /// The single boolean a deposit decision should branch on.
    pub fn is_final(self) -> (r: bool)
        ensures
            r == (self == Finality::Finalized),
    {
        match self {
            Finality::Finalized => true,
            _ => false,
        }
    }
}

/// What became of a submitted transaction.
#[derive(Clone, Copy, Debug, PartialEq, Eq)]
pub enum Admitted {
    /// Newly admitted to the mempool and gossiped to peers.
    New,
    /// Byte-identical to one already pending: a success, reported distinctly.
    Duplicate,
}

impl Admitted {
    /// The `status` a submission reply carries.
    #[verifier::allow_in_spec]
    pub fn status(self) -> &'static str
        returns
            match self {
                Admitted::New => "accepted",
                Admitted::Duplicate => "duplicate",
            },
    {
        match self {
            Admitted::New => "accepted",
            Admitted::Duplicate => "duplicate",
        }
    }
}

pub open spec fn num(n: u64) -> JsonV {
    JsonV::Num(decimal(n as nat))
}

pub open spec fn opt_num(n: Option<u64>) -> JsonV {
    match n {
        Some(x) => num(x),
        None => JsonV::Null,
    }
}

fn opt_u(n: Option<u64>) -> (r: Json)
    ensures
        r@ == opt_num(n),
{
    match n {
        Some(x) => Json::u(x),
        None => Json::Null,
    }
}

/// `getblockcount`: the head height with the finalised height beside it.
pub fn block_count_json(
    height: u64,
    slot: u64,
    finalized_height: Option<u64>,
    justified_epoch: u64,
    finalized_epoch: u64,
) -> (r: Json)
    ensures
        r@ == JsonV::Obj(
            seq![
                ("height"@, num(height)),
                ("slot"@, num(slot)),
                ("epoch"@, num(epoch_of(slot))),
                ("finalized_height"@, opt_num(finalized_height)),
                ("justified_epoch"@, num(justified_epoch)),
                ("finalized_epoch"@, num(finalized_epoch)),
            ],
        ),
{
    let r = Json::obj(
        vec![
            ("height", Json::u(height)),
            ("slot", Json::u(slot)),
            ("epoch", Json::u(slot / SLOTS_PER_EPOCH)),
            ("finalized_height", opt_u(finalized_height)),
            ("justified_epoch", Json::u(justified_epoch)),
            ("finalized_epoch", Json::u(finalized_epoch)),
        ],
    );
    proof {
        let want = seq![
            ("height"@, num(height)),
            ("slot"@, num(slot)),
            ("epoch"@, num(epoch_of(slot))),
            ("finalized_height"@, opt_num(finalized_height)),
            ("justified_epoch"@, num(justified_epoch)),
            ("finalized_epoch"@, num(finalized_epoch)),
        ];
        match r@ {
            JsonV::Obj(x) => {
                assert(x =~= want);
            },
            _ => {},
        }
    }
    r
}

/// `getmempoolinfo`: size, capacity, bytes, the next base fee (a decimal
/// string), and the rejection cache seen from outside.
pub fn mempool_info_json(
    size: usize,
    max: usize,
    bytes: usize,
    next_base_fee_millisat_per_gas: u128,
    barred: usize,
    barred_hits: u64,
) -> (r: Json)
    ensures
        r@ == JsonV::Obj(
            seq![
                ("size"@, num(size as u64)),
                ("max"@, num(max as u64)),
                ("bytes"@, num(bytes as u64)),
                ("next_base_fee_millisat_per_gas"@, JsonV::Str(decimal(next_base_fee_millisat_per_gas as nat))),
                ("barred"@, num(barred as u64)),
                ("barred_hits"@, num(barred_hits)),
            ],
        ),
{
    let r = Json::obj(
        vec![
            ("size", Json::u(size as u64)),
            ("max", Json::u(max as u64)),
            ("bytes", Json::u(bytes as u64)),
            ("next_base_fee_millisat_per_gas", Json::sat(next_base_fee_millisat_per_gas)),
            ("barred", Json::u(barred as u64)),
            ("barred_hits", Json::u(barred_hits)),
        ],
    );
    proof {
        let want = seq![
            ("size"@, num(size as u64)),
            ("max"@, num(max as u64)),
            ("bytes"@, num(bytes as u64)),
            ("next_base_fee_millisat_per_gas"@, JsonV::Str(decimal(next_base_fee_millisat_per_gas as nat))),
            ("barred"@, num(barred as u64)),
            ("barred_hits"@, num(barred_hits)),
        ];
        match r@ {
            JsonV::Obj(x) => {
                assert(x =~= want);
            },
            _ => {},
        }
    }
    r
}

/// `u64::MAX` as a registry epoch means "never scheduled".
pub const NEVER: u64 = 0xFFFF_FFFF_FFFF_FFFF;

/// One validator registry record.
#[derive(Clone, Debug, PartialEq, Eq)]
pub struct ValidatorRecord {
    pub index: u32,
    pub pubkey: Vec<u8>,
    pub staked_sat: u128,
    pub commission_bps: u128,
    pub randao_commitment: [u8; 32],
    pub slashed: bool,
    /// [`NEVER`] until activation is scheduled.
    pub activation_epoch: u64,
    /// [`NEVER`] while no exit is scheduled.
    pub exit_epoch: u64,
    pub withdrawable_epoch: u64,
}

/// Lifecycle of one validator as of `current_epoch`. The order of the arms
/// is the rule: `slashed` outranks everything.
#[verifier::allow_in_spec]
pub fn validator_state(rec: &ValidatorRecord, current_epoch: u64) -> &'static str
    returns
        (if rec.slashed {
            "slashed"
        } else if rec.exit_epoch != u64::MAX && current_epoch >= rec.exit_epoch {
            "exited"
        } else if rec.exit_epoch != u64::MAX {
            "exiting"
        } else if rec.activation_epoch == u64::MAX || current_epoch < rec.activation_epoch {
            "queued"
        } else {
            "active"
        }),
{
    if rec.slashed {
        "slashed"
    } else if rec.exit_epoch != NEVER && current_epoch >= rec.exit_epoch {
        "exited"
    } else if rec.exit_epoch != NEVER {
        "exiting"
    } else if rec.activation_epoch == NEVER || current_epoch < rec.activation_epoch {
        "queued"
    } else {
        "active"
    }
}

// ── Pure projections of committed state ─────────────────────────────────────

pub open spec fn hexv(b: [u8; 32]) -> JsonV {
    JsonV::Str(hex_chars(b@))
}

pub open spec fn satv(v: u128) -> JsonV {
    JsonV::Str(decimal(v as nat))
}

/// An epoch that may be [`NEVER`]: `null` then.
pub open spec fn epoch_v(e: u64) -> JsonV {
    if e == u64::MAX {
        JsonV::Null
    } else {
        num(e)
    }
}

fn epoch_json(e: u64) -> (r: Json)
    ensures
        r@ == epoch_v(e),
{
    if e == NEVER {
        Json::Null
    } else {
        Json::u(e)
    }
}

/// `getvalidator`: one registry record. `effective_stake_sat` is `None` for
/// a validator the active set does not carry, which is not the same as zero.
pub fn validator_json(rec: &ValidatorRecord, effective_stake_sat: Option<u64>, current_epoch: u64) -> (r: Json)
    ensures
        r@ == JsonV::Obj(
            seq![
                ("index"@, num(rec.index as u64)),
                ("pubkey_hash"@, hexv(sha3_256(rec.pubkey@))),
                ("pubkey_bytes"@, num(rec.pubkey@.len() as u64)),
                ("state"@, JsonV::Str(validator_state(rec, current_epoch)@)),
                ("own_stake_sat"@, satv(rec.staked_sat)),
                ("effective_stake_sat"@, match effective_stake_sat {
                    Some(v) => satv(v as u128),
                    None => JsonV::Null,
                }),
                ("commission_bps"@, satv(rec.commission_bps)),
                ("randao_commitment"@, hexv(rec.randao_commitment)),
                ("slashed"@, JsonV::Bool(rec.slashed)),
                ("activation_epoch"@, epoch_v(rec.activation_epoch)),
                ("exit_epoch"@, epoch_v(rec.exit_epoch)),
                ("withdrawable_epoch"@, epoch_v(rec.withdrawable_epoch)),
            ],
        ),
{
    let pubkey_hash = sha3(rec.pubkey.as_slice());
    let effective = match effective_stake_sat {
        Some(v) => Json::sat(v as u128),
        None => Json::Null,
    };
    let r = Json::obj(
        vec![
            ("index", Json::u(rec.index as u64)),
            ("pubkey_hash", Json::hex(&pubkey_hash)),
            ("pubkey_bytes", Json::u(rec.pubkey.len() as u64)),
            ("state", Json::s(validator_state(rec, current_epoch))),
            ("own_stake_sat", Json::sat(rec.staked_sat)),
            ("effective_stake_sat", effective),
            ("commission_bps", Json::sat(rec.commission_bps)),
            ("randao_commitment", Json::hex(&rec.randao_commitment)),
            ("slashed", Json::Bool(rec.slashed)),
            ("activation_epoch", epoch_json(rec.activation_epoch)),
            ("exit_epoch", epoch_json(rec.exit_epoch)),
            ("withdrawable_epoch", epoch_json(rec.withdrawable_epoch)),
        ],
    );
    proof {
        let want = seq![
            ("index"@, num(rec.index as u64)),
            ("pubkey_hash"@, hexv(sha3_256(rec.pubkey@))),
            ("pubkey_bytes"@, num(rec.pubkey@.len() as u64)),
            ("state"@, JsonV::Str(validator_state(rec, current_epoch)@)),
            ("own_stake_sat"@, satv(rec.staked_sat)),
            ("effective_stake_sat"@, match effective_stake_sat {
                Some(v) => satv(v as u128),
                None => JsonV::Null,
            }),
            ("commission_bps"@, satv(rec.commission_bps)),
            ("randao_commitment"@, hexv(rec.randao_commitment)),
            ("slashed"@, JsonV::Bool(rec.slashed)),
            ("activation_epoch"@, epoch_v(rec.activation_epoch)),
            ("exit_epoch"@, epoch_v(rec.exit_epoch)),
            ("withdrawable_epoch"@, epoch_v(rec.withdrawable_epoch)),
        ];
        match r@ {
            JsonV::Obj(x) => {
                assert(x =~= want);
            },
            _ => {},
        }
    }
    r
}

/// One unspent output of the committed eUTXO set.
#[derive(Clone, Copy, Debug, PartialEq, Eq)]
pub struct Eutxo {
    pub txid: [u8; 32],
    pub vout: u32,
    pub value: u64,
    pub script_hash: [u8; 32],
}

pub open spec fn eutxo_v(e: Eutxo) -> JsonV {
    JsonV::Obj(
        seq![
            ("txid"@, hexv(e.txid)),
            ("vout"@, num(e.vout as u64)),
            ("value_sat"@, satv(e.value as u128)),
            ("script_hash"@, hexv(e.script_hash)),
        ],
    )
}

fn eutxo_json(e: &Eutxo) -> (r: Json)
    ensures
        r@ == eutxo_v(*e),
{
    let r = Json::obj(
        vec![
            ("txid", Json::hex(&e.txid)),
            ("vout", Json::u(e.vout as u64)),
            ("value_sat", Json::sat(e.value as u128)),
            ("script_hash", Json::hex(&e.script_hash)),
        ],
    );
    proof {
        match r@ {
            JsonV::Obj(x) => {
                assert(x =~= seq![
                    ("txid"@, hexv(e.txid)),
                    ("vout"@, num(e.vout as u64)),
                    ("value_sat"@, satv(e.value as u128)),
                    ("script_hash"@, hexv(e.script_hash)),
                ]);
            },
            _ => {},
        }
    }
    r
}

/// The outputs of `s` locked to script hash `h`, in order.
pub open spec fn locked_to(s: Seq<Eutxo>, h: Seq<u8>) -> Seq<Eutxo>
    decreases s.len(),
{
    if s.len() == 0 {
        Seq::empty()
    } else {
        let rest = locked_to(s.drop_last(), h);
        if s.last().script_hash@ == h {
            rest.push(s.last())
        } else {
            rest
        }
    }
}

/// The summed value of some outputs.
pub open spec fn sum_values(s: Seq<Eutxo>) -> nat
    decreases s.len(),
{
    if s.len() == 0 {
        0
    } else {
        sum_values(s.drop_last()) + s.last().value as nat
    }
}

proof fn lemma_sum_values_bound(s: Seq<Eutxo>)
    ensures
        sum_values(s) <= s.len() * 0xFFFF_FFFF_FFFF_FFFFnat,
    decreases s.len(),
{
    if s.len() > 0 {
        lemma_sum_values_bound(s.drop_last());
        assert(sum_values(s) <= s.len() * 0xFFFF_FFFF_FFFF_FFFFnat) by (nonlinear_arith)
            requires
                sum_values(s) == sum_values(s.drop_last()) + s.last().value,
                sum_values(s.drop_last()) <= (s.len() - 1) * 0xFFFF_FFFF_FFFF_FFFFnat,
                s.last().value <= 0xFFFF_FFFF_FFFF_FFFFnat,
        ;
    }
}

proof fn lemma_locked_to_len(s: Seq<Eutxo>, h: Seq<u8>)
    ensures
        locked_to(s, h).len() <= s.len(),
    decreases s.len(),
{
    if s.len() > 0 {
        lemma_locked_to_len(s.drop_last(), h);
    }
}

fn same_hash(a: &[u8; 32], b: &[u8; 32]) -> (r: bool)
    ensures
        r == (a@ == b@),
{
    let same = read_same(a, b);
    same
}

fn read_same(a: &[u8; 32], b: &[u8; 32]) -> (r: bool)
    ensures
        r == (a@ == b@),
{
    let same = crate::bytes::range_eq(a, 0, b, 0, 32);
    proof {
        assert(a@.subrange(0, 32) =~= a@);
        assert(b@.subrange(0, 32) =~= b@);
    }
    same
}

/// `getbalance`: the summed value and the count of the outputs of `set`
/// locked to `script_hash`. An address with nothing is a zero balance.
pub fn balance_json(set: &Vec<Eutxo>, script_hash: &[u8; 32]) -> (r: Json)
    ensures
        r@ == JsonV::Obj(
            seq![
                ("script_hash"@, hexv(*script_hash)),
                ("balance_sat"@, JsonV::Str(decimal(sum_values(locked_to(set@, script_hash@))))),
                ("utxo_count"@, num(locked_to(set@, script_hash@).len() as u64)),
            ],
        ),
{
    let n = set.len();
    let mut count: u64 = 0;
    let mut sum: u128 = 0;
    let mut i: usize = 0;
    while i < n
        invariant
            i <= n,
            n == set@.len(),
            count == locked_to(set@.subrange(0, i as int), script_hash@).len(),
            sum == sum_values(locked_to(set@.subrange(0, i as int), script_hash@)),
            count <= i,
        decreases n - i,
    {
        let ghost pre = set@.subrange(0, i as int);
        let ghost next = set@.subrange(0, i + 1);
        proof {
            assert(next.drop_last() =~= pre);
            lemma_locked_to_len(pre, script_hash@);
            lemma_sum_values_bound(locked_to(pre, script_hash@));
            assert(sum_values(locked_to(pre, script_hash@)) + 0xFFFF_FFFF_FFFF_FFFFnat
                <= 0xFFFF_FFFF_FFFF_FFFF_FFFF_FFFF_FFFF_FFFFnat) by (nonlinear_arith)
                requires
                    sum_values(locked_to(pre, script_hash@)) <= locked_to(pre, script_hash@).len()
                        * 0xFFFF_FFFF_FFFF_FFFFnat,
                    locked_to(pre, script_hash@).len() <= pre.len(),
                    pre.len() < 0xFFFF_FFFF_FFFF_FFFFnat,
            ;
        }
        let e = set[i];
        proof {
            assert(next.last() == e);
            assert(locked_to(pre, script_hash@).push(e).drop_last() =~= locked_to(pre, script_hash@));
        }
        if same_hash(&e.script_hash, script_hash) {
            count = count + 1;
            sum = sum + e.value as u128;
        }
        i = i + 1;
    }
    proof {
        assert(set@.subrange(0, n as int) =~= set@);
    }
    let r = Json::obj(
        vec![
            ("script_hash", Json::hex(script_hash)),
            ("balance_sat", Json::sat(sum)),
            ("utxo_count", Json::u(count)),
        ],
    );
    proof {
        match r@ {
            JsonV::Obj(x) => {
                assert(x =~= seq![
                    ("script_hash"@, hexv(*script_hash)),
                    ("balance_sat"@, JsonV::Str(decimal(sum_values(locked_to(set@, script_hash@))))),
                    ("utxo_count"@, num(locked_to(set@, script_hash@).len() as u64)),
                ]);
            },
            _ => {},
        }
    }
    r
}

/// `getutxos`: the outputs of `set` locked to `script_hash`, the first
/// `limit` of them, with the total and whether the page was cut.
pub fn utxos_json(set: &Vec<Eutxo>, script_hash: &[u8; 32], limit: usize) -> (r: Json)
    ensures
        ({
            let all = locked_to(set@, script_hash@);
            let returned = if all.len() < limit {
                all.len()
            } else {
                limit as nat
            };
            r@ == JsonV::Obj(
                seq![
                    ("script_hash"@, hexv(*script_hash)),
                    ("total"@, num(all.len() as u64)),
                    ("returned"@, num(returned as u64)),
                    ("truncated"@, JsonV::Bool(all.len() > returned)),
                    ("utxos"@, JsonV::Arr(all.take(returned as int).map_values(|e: Eutxo| eutxo_v(e)))),
                ],
            )
        }),
{
    let n = set.len();
    let mut total: u64 = 0;
    let mut page: Vec<Json> = Vec::new();
    let mut i: usize = 0;
    while i < n
        invariant
            i <= n,
            n == set@.len(),
            total == locked_to(set@.subrange(0, i as int), script_hash@).len(),
            total <= i,
            page@.len() == (if total < limit {
                total as int
            } else {
                limit as int
            }),
            forall|k: int|
                0 <= k < page@.len() ==> #[trigger] page@[k]@ == eutxo_v(
                    locked_to(set@.subrange(0, i as int), script_hash@)[k],
                ),
        decreases n - i,
    {
        let ghost pre = set@.subrange(0, i as int);
        let ghost next = set@.subrange(0, i + 1);
        proof {
            assert(next.drop_last() =~= pre);
            lemma_locked_to_len(pre, script_hash@);
        }
        let e = set[i];
        if same_hash(&e.script_hash, script_hash) {
            if page.len() < limit {
                page.push(eutxo_json(&e));
            }
            total = total + 1;
        }
        proof {
            assert forall|k: int| 0 <= k < page@.len() implies #[trigger] page@[k]@ == eutxo_v(
                locked_to(next, script_hash@)[k],
            ) by {
                if e.script_hash@ == script_hash@ {
                    assert(locked_to(next, script_hash@) == locked_to(pre, script_hash@).push(e));
                } else {
                    assert(locked_to(next, script_hash@) == locked_to(pre, script_hash@));
                }
            }
        }
        i = i + 1;
    }
    proof {
        assert(set@.subrange(0, n as int) =~= set@);
    }
    let ghost all = locked_to(set@, script_hash@);
    let ghost returned: nat = page@.len();
    let returned_n = page.len() as u64;
    let truncated = total > returned_n;
    let ghost items = all.take(returned as int).map_values(|e: Eutxo| eutxo_v(e));
    proof {
        assert forall|k: int| 0 <= k < items.len() implies #[trigger] items[k] == page@[k]@ by {}
        lemma_arr_view(&page, items);
    }
    let arr = Json::Arr(page);
    let r = Json::obj(
        vec![
            ("script_hash", Json::hex(script_hash)),
            ("total", Json::u(total)),
            ("returned", Json::u(returned_n)),
            ("truncated", Json::Bool(truncated)),
            ("utxos", arr),
        ],
    );
    proof {
        match r@ {
            JsonV::Obj(x) => {
                assert(x =~= seq![
                    ("script_hash"@, hexv(*script_hash)),
                    ("total"@, num(all.len() as u64)),
                    ("returned"@, num(returned as u64)),
                    ("truncated"@, JsonV::Bool(all.len() > returned)),
                    ("utxos"@, JsonV::Arr(items)),
                ]);
            },
            _ => {},
        }
    }
    r
}

/// The first output of `s`, from `i` on, at outpoint `(txid, vout)`.
pub open spec fn outpoint_from(s: Seq<Eutxo>, txid: Seq<u8>, vout: u32, i: int) -> Option<Eutxo>
    decreases s.len() - i,
{
    if i < 0 || i >= s.len() {
        None
    } else if s[i].txid@ == txid && s[i].vout == vout {
        Some(s[i])
    } else {
        outpoint_from(s, txid, vout, i + 1)
    }
}

/// `gettxout`: one outpoint, answered as present or absent in `set`, with
/// the head slot the answer was read at.
pub fn txout_json(set: &Vec<Eutxo>, txid: &[u8; 32], vout: u32, at_slot: u64) -> (r: Json)
    ensures
        r@ == JsonV::Obj(
            seq![
                ("txid"@, hexv(*txid)),
                ("vout"@, num(vout as u64)),
                ("unspent"@, JsonV::Bool(outpoint_from(set@, txid@, vout, 0) is Some)),
                ("utxo"@, match outpoint_from(set@, txid@, vout, 0) {
                    Some(e) => eutxo_v(e),
                    None => JsonV::Null,
                }),
                ("at_slot"@, num(at_slot)),
            ],
        ),
{
    let n = set.len();
    let mut found: Option<Eutxo> = None;
    let mut i: usize = 0;
    while i < n && found.is_none()
        invariant
            i <= n,
            n == set@.len(),
            found is None ==> outpoint_from(set@, txid@, vout, 0) == outpoint_from(set@, txid@, vout, i as int),
            found is Some ==> outpoint_from(set@, txid@, vout, 0) == found,
        decreases n - i,
    {
        let e = set[i];
        if e.vout == vout && same_hash(&e.txid, txid) {
            found = Some(e);
        }
        i = i + 1;
    }
    let (unspent, utxo) = match found {
        Some(e) => (true, eutxo_json(&e)),
        None => (false, Json::Null),
    };
    let r = Json::obj(
        vec![
            ("txid", Json::hex(txid)),
            ("vout", Json::u(vout as u64)),
            ("unspent", Json::Bool(unspent)),
            ("utxo", utxo),
            ("at_slot", Json::u(at_slot)),
        ],
    );
    proof {
        match r@ {
            JsonV::Obj(x) => {
                assert(x =~= seq![
                    ("txid"@, hexv(*txid)),
                    ("vout"@, num(vout as u64)),
                    ("unspent"@, JsonV::Bool(outpoint_from(set@, txid@, vout, 0) is Some)),
                    ("utxo"@, match outpoint_from(set@, txid@, vout, 0) {
                        Some(e) => eutxo_v(e),
                        None => JsonV::Null,
                    }),
                    ("at_slot"@, num(at_slot)),
                ]);
            },
            _ => {},
        }
    }
    r
}

/// What a block is reported with: its id and header, and its body's counts.
#[derive(Clone, Copy, Debug, PartialEq, Eq)]
pub struct BlockFacts {
    pub block_id: [u8; 32],
    pub version: u32,
    pub parent: [u8; 32],
    pub slot: u64,
    pub proposer_index: u32,
    pub state_root: [u8; 32],
    pub body_root: [u8; 32],
    pub randao_reveal: [u8; 32],
    pub randao_mix: [u8; 32],
    pub justified_root: [u8; 32],
    pub finalized_root: [u8; 32],
    pub attestation_root: [u8; 32],
    pub coherence_root: [u8; 32],
    pub tx_count: u64,
    pub attestation_count: u64,
}

pub open spec fn block_fields(env: BlockFacts, height: Option<u64>, finality: Finality, timestamp_secs: u64) -> Seq<
    (Seq<char>, JsonV),
> {
    seq![
        ("block_id"@, hexv(env.block_id)),
        ("version"@, num(env.version as u64)),
        ("parent"@, hexv(env.parent)),
        ("slot"@, num(env.slot)),
        ("epoch"@, num(epoch_of(env.slot))),
        ("height"@, opt_num(height)),
        ("proposer_index"@, num(env.proposer_index as u64)),
        ("timestamp"@, num(timestamp_secs)),
        ("state_root"@, hexv(env.state_root)),
        ("body_root"@, hexv(env.body_root)),
        ("randao_reveal"@, hexv(env.randao_reveal)),
        ("randao_mix"@, hexv(env.randao_mix)),
        ("justified_root"@, hexv(env.justified_root)),
        ("finalized_root"@, hexv(env.finalized_root)),
        ("attestation_root"@, hexv(env.attestation_root)),
        ("coherence_root"@, hexv(env.coherence_root)),
        ("finality"@, JsonV::Str(finality.as_str()@)),
        ("finalized"@, JsonV::Bool(finality == Finality::Finalized)),
        ("tx_count"@, num(env.tx_count)),
        ("attestation_count"@, num(env.attestation_count)),
    ]
}

/// One block: its header verbatim (the version is the header's own field,
/// not a friendlier number), its height if on the canonical chain, this
/// node's finality classification of it, and a display timestamp.
pub fn block_json(env: &BlockFacts, height: Option<u64>, finality: Finality, timestamp_secs: u64) -> (r: Json)
    ensures
        r@ == JsonV::Obj(block_fields(*env, height, finality, timestamp_secs)),
{
    let r = Json::obj(
        vec![
            ("block_id", Json::hex(&env.block_id)),
            ("version", Json::u(env.version as u64)),
            ("parent", Json::hex(&env.parent)),
            ("slot", Json::u(env.slot)),
            ("epoch", Json::u(env.slot / SLOTS_PER_EPOCH)),
            ("height", opt_u(height)),
            ("proposer_index", Json::u(env.proposer_index as u64)),
            ("timestamp", Json::u(timestamp_secs)),
            ("state_root", Json::hex(&env.state_root)),
            ("body_root", Json::hex(&env.body_root)),
            ("randao_reveal", Json::hex(&env.randao_reveal)),
            ("randao_mix", Json::hex(&env.randao_mix)),
            ("justified_root", Json::hex(&env.justified_root)),
            ("finalized_root", Json::hex(&env.finalized_root)),
            ("attestation_root", Json::hex(&env.attestation_root)),
            ("coherence_root", Json::hex(&env.coherence_root)),
            ("finality", Json::s(finality.as_str())),
            ("finalized", Json::Bool(finality.is_final())),
            ("tx_count", Json::u(env.tx_count)),
            ("attestation_count", Json::u(env.attestation_count)),
        ],
    );
    proof {
        match r@ {
            JsonV::Obj(x) => {
                assert(x =~= block_fields(*env, height, finality, timestamp_secs));
            },
            _ => {},
        }
    }
    r
}

/// A checkpoint: an epoch and the root it names.
#[derive(Clone, Copy, Debug, PartialEq, Eq)]
pub struct Checkpoint {
    pub epoch: u64,
    pub root: [u8; 32],
}

/// What the committed state says of the chain's position and economics.
#[derive(Clone, Copy, Debug, PartialEq, Eq)]
pub struct ChainFacts {
    pub slot: u64,
    pub justified: Checkpoint,
    pub finalized: Checkpoint,
    pub previous_justified: Checkpoint,
    pub active_validators: u64,
    pub total_active_stake_sat: u128,
    pub base_fee_millisat_per_gas: u128,
    pub next_base_fee_millisat_per_gas: u128,
}

pub open spec fn checkpoint_v(c: Checkpoint) -> JsonV {
    JsonV::Obj(seq![("epoch"@, num(c.epoch)), ("root"@, hexv(c.root))])
}

fn checkpoint_json(c: &Checkpoint) -> (r: Json)
    ensures
        r@ == checkpoint_v(*c),
{
    let r = Json::obj(vec![("epoch", Json::u(c.epoch)), ("root", Json::hex(&c.root))]);
    proof {
        match r@ {
            JsonV::Obj(x) => {
                assert(x =~= seq![("epoch"@, num(c.epoch)), ("root"@, hexv(c.root))]);
            },
            _ => {},
        }
    }
    r
}

/// `a - b`, or 0 when `b` is the larger.
pub open spec fn sat_sub(a: u64, b: u64) -> u64 {
    if a >= b {
        (a - b) as u64
    } else {
        0
    }
}

pub open spec fn chain_fields(
    state: ChainFacts,
    head: [u8; 32],
    state_root: [u8; 32],
    height: u64,
    finalized_height: Option<u64>,
    wall_slot: u64,
    validators_total: usize,
    mempool: usize,
    blocks_known: usize,
) -> Seq<(Seq<char>, JsonV)> {
    seq![
        ("block_id"@, hexv(head)),
        ("slot"@, num(state.slot)),
        ("height"@, num(height)),
        ("finalized_height"@, opt_num(finalized_height)),
        ("epoch"@, num(epoch_of(state.slot))),
        ("slot_in_epoch"@, num((state.slot % 32) as u64)),
        ("slots_per_epoch"@, num(32)),
        ("state_root"@, hexv(state_root)),
        ("justified"@, checkpoint_v(state.justified)),
        ("finalized"@, checkpoint_v(state.finalized)),
        ("previous_justified"@, checkpoint_v(state.previous_justified)),
        ("validators"@, JsonV::Obj(
            seq![("total"@, num(validators_total as u64)), ("active"@, num(state.active_validators))],
        )),
        ("total_active_stake_sat"@, satv(state.total_active_stake_sat)),
        ("base_fee_millisat_per_gas"@, satv(state.base_fee_millisat_per_gas)),
        ("next_base_fee_millisat_per_gas"@, satv(state.next_base_fee_millisat_per_gas)),
        ("mempool"@, num(mempool as u64)),
        ("blocks_known"@, num(blocks_known as u64)),
        ("wall_slot"@, num(wall_slot)),
        ("behind_by_slots"@, num(sat_sub(wall_slot, state.slot))),
    ]
}

/// `getchaininfo`: the head, the finalised line beside it, the three
/// checkpoints, the validator counts and fee market, and how far the head
/// is behind the wall-clock slot. The state root is handed in: the head
/// header already holds it.
pub fn chain_info_json(
    state: &ChainFacts,
    head: &[u8; 32],
    state_root: [u8; 32],
    height: u64,
    finalized_height: Option<u64>,
    wall_slot: u64,
    validators_total: usize,
    mempool: usize,
    blocks_known: usize,
) -> (r: Json)
    ensures
        r@ == JsonV::Obj(
            chain_fields(
                *state,
                *head,
                state_root,
                height,
                finalized_height,
                wall_slot,
                validators_total,
                mempool,
                blocks_known,
            ),
        ),
{
    let slot = state.slot;
    let validators = Json::obj(
        vec![("total", Json::u(validators_total as u64)), ("active", Json::u(state.active_validators))],
    );
    proof {
        match validators@ {
            JsonV::Obj(x) => {
                assert(x =~= seq![
                    ("total"@, num(validators_total as u64)),
                    ("active"@, num(state.active_validators)),
                ]);
            },
            _ => {},
        }
    }
    let r = Json::obj(
        vec![
            ("block_id", Json::hex(head)),
            ("slot", Json::u(slot)),
            ("height", Json::u(height)),
            ("finalized_height", opt_u(finalized_height)),
            ("epoch", Json::u(slot / SLOTS_PER_EPOCH)),
            ("slot_in_epoch", Json::u(slot % SLOTS_PER_EPOCH)),
            ("slots_per_epoch", Json::u(SLOTS_PER_EPOCH)),
            ("state_root", Json::hex(&state_root)),
            ("justified", checkpoint_json(&state.justified)),
            ("finalized", checkpoint_json(&state.finalized)),
            ("previous_justified", checkpoint_json(&state.previous_justified)),
            ("validators", validators),
            ("total_active_stake_sat", Json::sat(state.total_active_stake_sat)),
            ("base_fee_millisat_per_gas", Json::sat(state.base_fee_millisat_per_gas)),
            ("next_base_fee_millisat_per_gas", Json::sat(state.next_base_fee_millisat_per_gas)),
            ("mempool", Json::u(mempool as u64)),
            ("blocks_known", Json::u(blocks_known as u64)),
            ("wall_slot", Json::u(wall_slot)),
            ("behind_by_slots", Json::u(wall_slot.saturating_sub(slot))),
        ],
    );
    proof {
        match r@ {
            JsonV::Obj(x) => {
                assert(x =~= chain_fields(
                    *state,
                    *head,
                    state_root,
                    height,
                    finalized_height,
                    wall_slot,
                    validators_total,
                    mempool,
                    blocks_known,
                ));
            },
            _ => {},
        }
    }
    r
}

/// The kind of a submitted transaction.
#[derive(Clone, Copy, Debug, PartialEq, Eq)]
pub enum TxKind {
    Transfer,
    TransferV2,
    Deposit,
    Exit,
    Delegate,
    SlashingEvidence,
}

impl TxKind {
    #[verifier::allow_in_spec]
    pub fn as_str(self) -> &'static str
        returns
            match self {
                TxKind::Transfer => "transfer",
                TxKind::TransferV2 => "transfer_v2",
                TxKind::Deposit => "deposit",
                TxKind::Exit => "exit",
                TxKind::Delegate => "delegate",
                TxKind::SlashingEvidence => "slashing_evidence",
            },
    {
        match self {
            TxKind::Transfer => "transfer",
            TxKind::TransferV2 => "transfer_v2",
            TxKind::Deposit => "deposit",
            TxKind::Exit => "exit",
            TxKind::Delegate => "delegate",
            TxKind::SlashingEvidence => "slashing_evidence",
        }
    }
}

pub const TX_HASH_NOTE: &'static str = "local correlation handle only (SHA3-256 of the canonical bytes); not a consensus transaction id \u{2014} no block commits to it";

pub const CONFIRMATION_NOTE: &'static str = "this transport does not confirm: watch for the transaction in a block via `getblockbyslot`. `finalized: true` on that block is the strongest signal this chain offers, but it is NOT a settlement guarantee \u{2014} no slashing penalty backs it and it is not a latch; see `docs/integration/BLOCH-GENESIS4-EXCHANGE-INTEGRATION.md` \u{a7}5";

pub open spec fn submitted_fields(kind: TxKind, canonical: Seq<u8>, outcome: Admitted) -> Seq<(Seq<char>, JsonV)> {
    seq![
        ("accepted"@, JsonV::Bool(true)),
        ("status"@, JsonV::Str(outcome.status()@)),
        ("kind"@, JsonV::Str(kind.as_str()@)),
        ("bytes"@, num(canonical.len() as u64)),
        ("tx_hash"@, hexv(sha3_256(canonical))),
        ("tx_hash_note"@, JsonV::Str(TX_HASH_NOTE@)),
        ("confirmation"@, JsonV::Str(CONFIRMATION_NOTE@)),
    ]
}

/// `sendrawtransaction`: what the node did with the bytes. `tx_hash` is
/// SHA3-256 of the canonical bytes, a local handle and not a consensus id.
pub fn submitted_json(kind: TxKind, canonical: &[u8], outcome: Admitted) -> (r: Json)
    ensures
        r@ == JsonV::Obj(submitted_fields(kind, canonical@, outcome)),
{
    let hash = sha3(canonical);
    let r = Json::obj(
        vec![
            ("accepted", Json::Bool(true)),
            ("status", Json::s(outcome.status())),
            ("kind", Json::s(kind.as_str())),
            ("bytes", Json::u(canonical.len() as u64)),
            ("tx_hash", Json::hex(&hash)),
            ("tx_hash_note", Json::s(TX_HASH_NOTE)),
            ("confirmation", Json::s(CONFIRMATION_NOTE)),
        ],
    );
    proof {
        match r@ {
            JsonV::Obj(x) => {
                assert(x =~= submitted_fields(kind, canonical@, outcome));
            },
            _ => {},
        }
    }
    r
}

} // verus!
