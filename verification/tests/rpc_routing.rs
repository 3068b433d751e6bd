use std::sync::Mutex;

use bloch_pos_node::json::Json;
use bloch_pos_node::rpc::{
    handle_body, parse_json, route, RpcBackend, RpcError, RpcRequest, BLOCK_NOT_FOUND, NO_TRANSACTION_INDEX,
    NO_WALLET, UTXO_PAGE_DEFAULT, UTXO_PAGE_MAX,
};

/// A backend that records the request and answers with a marker, so a routing
/// test can see what the dispatcher decoded without any node behind it.
struct Spy {
    seen: Mutex<Vec<RpcRequest>>,
    failure: Option<RpcError>,
}

impl Spy {
    fn new() -> Spy {
        Spy { seen: Mutex::new(Vec::new()), failure: None }
    }
    fn failing(err: RpcError) -> Spy {
        Spy { seen: Mutex::new(Vec::new()), failure: Some(err) }
    }
    fn last(&self) -> Option<RpcRequest> {
        self.seen.lock().unwrap().last().cloned()
    }
}

impl RpcBackend for Spy {
    fn call(&self, req: RpcRequest) -> Result<Json, RpcError> {
        self.seen.lock().unwrap().push(req);
        match &self.failure {
            None => Ok(Json::s("ok")),
            Some(e) => Err(e.clone()),
        }
    }
}

fn call(backend: &Spy, body: &str) -> Json {
    let text = handle_body(body, backend);
    parse_json(&text).expect("every response must be valid JSON")
}

fn request(method: &str, params: &str) -> String {
    format!(r#"{{"jsonrpc":"2.0","id":1,"method":"{method}","params":{params}}}"#)
}

fn error_code(v: &Json) -> Option<i64> {
    match v.get("error").and_then(|e| e.get("code")) {
        Some(Json::Num(raw)) => raw.parse().ok(),
        _ => None,
    }
}

#[test]
fn every_method_routes_to_its_request() {
    let spy = Spy::new();
    let b = &spy;
    let script = "ab".repeat(32);

    call(b, &request("getchaininfo", "[]"));
    assert_eq!(spy.last(), Some(RpcRequest::ChainInfo));

    call(b, &request("getblockcount", "[]"));
    assert_eq!(spy.last(), Some(RpcRequest::BlockCount));

    call(b, &request("getblockbyslot", "[41290]"));
    assert_eq!(spy.last(), Some(RpcRequest::BlockBySlot(41_290)));

    call(b, &request("getblockbyid", &format!("[\"{}\"]", "cd".repeat(32))));
    assert_eq!(spy.last(), Some(RpcRequest::BlockById([0xCD; 32])));

    call(b, &request("getvalidator", "[7]"));
    assert_eq!(spy.last(), Some(RpcRequest::Validator(7)));

    call(b, &request("getvalidatorcount", "[]"));
    assert_eq!(spy.last(), Some(RpcRequest::ValidatorCount));

    call(b, &request("getbalance", &format!("[\"{script}\"]")));
    assert_eq!(spy.last(), Some(RpcRequest::Balance([0xAB; 32])));

    call(b, &request("getutxos", &format!("[\"{script}\"]")));
    assert_eq!(
        spy.last(),
        Some(RpcRequest::Utxos { script_hash: [0xAB; 32], limit: UTXO_PAGE_DEFAULT })
    );

    call(b, &request("getmempoolinfo", "[]"));
    assert_eq!(spy.last(), Some(RpcRequest::MempoolInfo));

    // The router hands the submitted bytes on as they came; reading them as a
    // transaction is the node's part.
    let raw = vec![0x03u8, 0, 0, 0, 3];
    let hex: String = raw.iter().map(|b| format!("{b:02x}")).collect();
    call(b, &request("sendrawtransaction", &format!("[\"{hex}\"]")));
    assert_eq!(spy.last(), Some(RpcRequest::SendRawTransaction(raw)));
}

#[test]
fn gettxout_routes_an_outpoint_and_refuses_a_malformed_one() {
    let spy = Spy::new();
    let b = &spy;
    let txid = "cd".repeat(32);

    call(b, &request("gettxout", &format!("[\"{txid}\", 3]")));
    assert_eq!(spy.last(), Some(RpcRequest::TxOut { txid: [0xCD; 32], vout: 3 }));

    call(b, &request("gettxout", &format!("[\"{txid}\"]")));
    assert_eq!(spy.last(), Some(RpcRequest::TxOut { txid: [0xCD; 32], vout: 0 }));

    let before = spy.last();
    call(b, &request("gettxout", "[]"));
    assert_eq!(spy.last(), before, "a missing txid must not reach the backend");
    call(b, &request("gettxout", "[\"ab\"]"));
    assert_eq!(spy.last(), before, "a short txid must not reach the backend");
    call(b, &request("gettxout", &format!("[\"{txid}\", -1]")));
    assert_eq!(spy.last(), before, "a negative vout must not reach the backend");
    call(b, &request("gettxout", &format!("[\"{txid}\", 4294967296]")));
    assert_eq!(spy.last(), before, "a vout past 32 bits must not reach the backend");
}

#[test]
fn listunspent_is_the_same_request_as_getutxos() {
    let spy = Spy::new();
    let script = "ab".repeat(32);
    call(&spy, &request("getutxos", &format!("[\"{script}\", 5]")));
    let a = spy.last();
    call(&spy, &request("listunspent", &format!("[\"{script}\", 5]")));
    assert_eq!(a, spy.last());
    assert_eq!(a, Some(RpcRequest::Utxos { script_hash: [0xAB; 32], limit: 5 }));
}

#[test]
fn named_params_work_as_well_as_positional() {
    let spy = Spy::new();
    call(&spy, &request("getblockbyslot", r#"{"slot":99}"#));
    assert_eq!(spy.last(), Some(RpcRequest::BlockBySlot(99)));

    call(&spy, &request("getvalidator", r#"{"index":4}"#));
    assert_eq!(spy.last(), Some(RpcRequest::Validator(4)));
}

#[test]
fn getutxos_limit_is_clamped_rather_than_trusted() {
    let spy = Spy::new();
    let script = "ab".repeat(32);
    call(&spy, &request("getutxos", &format!("[\"{script}\", 99999999]")));
    assert_eq!(
        spy.last(),
        Some(RpcRequest::Utxos { script_hash: [0xAB; 32], limit: UTXO_PAGE_MAX }),
        "an unbounded page size is a memory amplification on an unauthenticated port"
    );
}

#[test]
fn unsupported_capabilities_refuse_with_their_own_codes_and_reasons() {
    let spy = Spy::new();

    let v = call(&spy, &request("gettransaction", r#"["ab"]"#));
    assert_eq!(error_code(&v), Some(NO_TRANSACTION_INDEX));
    let msg = v.get("error").unwrap().get("message").unwrap().as_str().unwrap();
    assert!(msg.contains("no id"), "the message must say why, not just no: {msg}");
    assert!(msg.contains("do not retry"), "a permanent answer must say it is permanent");
    assert!(spy.last().is_none(), "a refused method must never reach the node");

    let v = call(&spy, &request("getnewaddress", "[]"));
    assert_eq!(error_code(&v), Some(NO_WALLET));
    let msg = v.get("error").unwrap().get("message").unwrap().as_str().unwrap();
    assert!(msg.contains("never mint key material"), "the refusal must name the key-generation rule: {msg}");
    assert!(spy.last().is_none(), "a node RPC must not generate keys, ever");
}

#[test]
fn malformed_input_never_panics_and_always_answers_json_rpc() {
    let spy = Spy::new();
    let cases: Vec<(&str, i64)> = vec![
        ("", -32700),
        ("{", -32700),
        ("not json", -32700),
        ("{\"method\":}", -32700),
        (r#"{"method":"getchaininfo",}"#, -32700),
        (r#"{"a":1}{"b":2}"#, -32700),
        ("\"unterminated", -32700),
        (r#"{"a":01}"#, -32700),
        (r#"{"a":1e}"#, -32700),
        ("null", -32600),
        ("42", -32600),
        (r#""a string""#, -32600),
        ("[]", -32600),
        (r#"[{"method":"getchaininfo"}]"#, -32600),
        ("{}", -32600),
        (r#"{"method":42}"#, -32600),
        (r#"{"jsonrpc":"1.0","method":"getchaininfo"}"#, -32600),
        (r#"{"method":"getblockbyslot"}"#, -32602),
        (r#"{"method":"getblockbyslot","params":[]}"#, -32602),
        (r#"{"method":"getblockbyslot","params":["abc"]}"#, -32602),
        (r#"{"method":"getblockbyslot","params":[-1]}"#, -32602),
        (r#"{"method":"getblockbyslot","params":[1.5]}"#, -32602),
        (r#"{"method":"getblockbyid","params":["xyz"]}"#, -32602),
        (r#"{"method":"getblockbyid","params":["aabb"]}"#, -32602),
        (r#"{"method":"getblockbyid","params":[123]}"#, -32602),
        (r#"{"method":"getbalance","params":[null]}"#, -32602),
        (r#"{"method":"getvalidator","params":[4294967296]}"#, -32602),
        (r#"{"method":"sendrawtransaction","params":[""]}"#, -32602),
        (r#"{"method":"getblocktemplate"}"#, -32601),
        (r#"{"method":"submitblock","params":[1]}"#, -32601),
        (r#"{"method":""}"#, -32601),
    ];

    for (body, expected) in cases {
        let v = call(&spy, body);
        assert_eq!(error_code(&v), Some(expected), "body {body:?} should have produced error {expected}, got {v:?}");
        assert_eq!(v.get("jsonrpc").unwrap().as_str(), Some("2.0"));
        assert!(v.get("result").is_none(), "a failure must not carry a result");
        assert!(
            !v.get("error").unwrap().get("message").unwrap().as_str().unwrap().is_empty(),
            "every error must explain itself"
        );
    }
}

#[test]
fn deeply_nested_json_is_refused_not_fatal() {
    let spy = Spy::new();
    let body = format!("{}{}", "[".repeat(50_000), "]".repeat(50_000));
    let v = call(&spy, &body);
    assert_eq!(error_code(&v), Some(-32700));

    let ok = format!("{}{}", "[".repeat(60), "]".repeat(60));
    assert!(parse_json(&ok).is_ok());
}

#[test]
fn the_request_id_comes_back_unchanged_including_on_errors() {
    let spy = Spy::new();
    let b = &spy;

    let v = call(b, r#"{"jsonrpc":"2.0","id":7,"method":"getchaininfo"}"#);
    assert_eq!(v.get("id"), Some(&Json::Num("7".into())));

    let v = call(b, r#"{"jsonrpc":"2.0","id":"abc-123","method":"nosuch"}"#);
    assert_eq!(v.get("id").unwrap().as_str(), Some("abc-123"));

    let v = call(b, r#"{"jsonrpc":"2.0","id":9007199254740993,"method":"getchaininfo"}"#);
    assert_eq!(v.get("id"), Some(&Json::Num("9007199254740993".into())));

    let v = call(b, r#"{"jsonrpc":"2.0","method":"getchaininfo"}"#);
    assert_eq!(v.get("id"), Some(&Json::Null));
}

#[test]
fn a_backend_failure_becomes_a_top_level_error_object() {
    let spy = Spy::failing(RpcError::new(BLOCK_NOT_FOUND, "no block 0xdead is known"));
    let v = call(&spy, &request("getblockbyslot", "[5]"));
    assert_eq!(error_code(&v), Some(BLOCK_NOT_FOUND));
    assert_eq!(v.get("error").unwrap().get("message").unwrap().as_str(), Some("no block 0xdead is known"));
    assert!(v.get("result").is_none());
}

#[test]
fn a_successful_call_carries_result_and_no_error() {
    let spy = Spy::new();
    let v = call(&spy, &request("getchaininfo", "[]"));
    assert_eq!(v.get("result").unwrap().as_str(), Some("ok"));
    assert!(v.get("error").is_none());
    assert_eq!(v.get("jsonrpc").unwrap().as_str(), Some("2.0"));
}

#[test]
fn probe_no_transaction_id_to_track_a_withdrawal_by() {
    let spy = Spy::new();
    let v = call(&spy, &request("gettransaction", r#"["00"]"#));
    assert!(error_code(&v).is_some(), "gettransaction is refused by design");
}

#[test]
fn names_outside_the_namespace_answer_method_not_found() {
    let outside = [
        "getblockbyheight", "getissuance", "getpeers", "getstakinginfo", "getsupply", "getsupplyinfo",
        "getvalidators", "help", "getblock", "getblockhash", "getdaginfo", "getdifficultyhistory",
        "gethashrate", "getnetworkinfo", "getrawmempool", "getsupplydistribution", "gettxstatus",
        "validateaddress", "GetBalance", "getbalance ", " getbalance", "getBalance", "get_balance", "",
    ];
    for name in outside {
        assert_eq!(route(name, None).err().map(|e| e.code), Some(-32601), "`{name}` must answer -32601");
    }
    for name in [
        "getchaininfo", "getblockcount", "getblockbyslot", "getblockbyid", "getvalidator", "getvalidatorcount",
        "getbalance", "gettransaction", "getnewaddress", "gettxout", "getutxos", "listunspent",
        "sendrawtransaction", "getmempoolinfo",
    ] {
        assert_ne!(route(name, None).err().map(|e| e.code), Some(-32601), "`{name}` is served");
    }
}
