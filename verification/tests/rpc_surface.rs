use bloch_pos_node::json::Json;
use bloch_pos_node::rpc::{
    dispatch_body, envelope, from_hex, handle_body, mempool_info_json, parse_head, parse_json,
    response_head, route, BodyAction, RpcBackend, RpcError, RpcRequest, MAX_BODY_BYTES,
};

fn error_code(v: &Json) -> Option<i64> {
    match v.get("error").and_then(|e| e.get("code")) {
        Some(Json::Num(raw)) => raw.parse::<i64>().ok(),
        _ => None,
    }
}

fn head_of(raw: &str) -> &str {
    raw.split("\r\n\r\n").next().unwrap()
}

struct Echo;

impl RpcBackend for Echo {
    fn call(&self, req: RpcRequest) -> Result<Json, RpcError> {
        match req {
            RpcRequest::ChainInfo => Ok(Json::s("ok")),
            _ => Err(RpcError::unavailable("not in this test")),
        }
    }
}

#[test]
fn getmempoolinfo_reports_size_capacity_and_the_next_price() {
    let v = mempool_info_json(7, 4_096, 1_750, 1_000, 0, 0);
    assert_eq!(v.get("size").unwrap().as_u64(), Some(7));
    assert_eq!(v.get("max").unwrap().as_u64(), Some(4_096));
    assert_eq!(v.get("bytes").unwrap().as_u64(), Some(1_750));
    assert_eq!(v.get("next_base_fee_millisat_per_gas").unwrap().as_str(), Some("1000"));
}

#[test]
fn json_strings_round_trip_through_escaping() {
    for original in [
        "plain",
        "with \"quotes\"",
        "back\\slash",
        "new\nline\ttab\r",
        "control\u{0001}char",
        "unicode: ação, 日本語, \u{1F600}",
        "",
    ] {
        let encoded = Json::s(original).to_string();
        let decoded = parse_json(&encoded).expect("our own output must parse");
        assert_eq!(decoded.as_str(), Some(original), "round trip failed for {original:?}");
    }
}

#[test]
fn json_escape_sequences_decode() {
    let v = parse_json(r#"{"k":"aAb\n\\\"é😀"}"#).unwrap();
    assert_eq!(v.get("k").unwrap().as_str(), Some("aAb\n\\\"é😀"));

    let v = parse_json(r#"{"k":"\ud800"}"#).unwrap();
    assert_eq!(v.get("k").unwrap().as_str(), Some("\u{FFFD}"));
}

#[test]
fn json_numbers_keep_their_exact_text() {
    let v = parse_json(r#"[0,-1,1.5,1e10,9007199254740993,18000000000000000500]"#).unwrap();
    assert_eq!(v.at(4).unwrap().as_u64(), Some(9_007_199_254_740_993));
    assert_eq!(v.at(5), Some(&Json::Num("18000000000000000500".into())));
    assert_eq!(v.at(2).unwrap().as_u64(), None);
    assert_eq!(v.at(1).unwrap().as_u64(), None);
}

#[test]
fn hex_decoding_refuses_malformed_input() {
    assert_eq!(from_hex("00ff"), Some(vec![0x00, 0xff]));
    assert_eq!(from_hex("0x00ff"), Some(vec![0x00, 0xff]));
    assert_eq!(from_hex(""), Some(vec![]));
    assert_eq!(from_hex("f"), None, "odd length");
    assert_eq!(from_hex("zz"), None, "not hex");
    assert_eq!(from_hex("00 ff"), None, "embedded space");
    assert_eq!(from_hex("ação"), None);
}

#[test]
fn http_that_is_not_a_json_rpc_post_is_answered_not_dropped() {
    let r = parse_head(head_of("GET / HTTP/1.1\r\nHost: x\r\n\r\n")).unwrap_err();
    assert_eq!(r.status, 405);
    assert!(response_head(r.status, 0).starts_with("HTTP/1.1 405"));

    let r = parse_head(head_of("POST / HTTP/1.1\r\nHost: x\r\n\r\n{}")).unwrap_err();
    assert_eq!(r.status, 411);

    let raw = format!("POST / HTTP/1.1\r\nHost: x\r\nContent-Length: {}\r\n\r\n", MAX_BODY_BYTES + 1);
    let r = parse_head(head_of(&raw)).unwrap_err();
    assert_eq!(r.status, 413);

    let r = parse_head(head_of("POST / HTTP/1.1\r\nHost: x\r\nTransfer-Encoding: chunked\r\n\r\n0\r\n\r\n"))
        .unwrap_err();
    assert_eq!(r.status, 411);
    assert!(response_head(r.status, 10).starts_with("HTTP/1.1 411"));

    let body = envelope(Json::Null, Err(RpcError::invalid_request(r.message)));
    let v = parse_json(&body).expect("even an HTTP-level refusal answers JSON-RPC");
    assert_eq!(error_code(&v), Some(-32600));
}

#[test]
fn a_body_that_is_not_utf8_is_a_parse_error_not_a_dropped_connection() {
    let len = parse_head(head_of("POST / HTTP/1.1\r\nHost: x\r\nContent-Length: 3\r\n\r\n")).unwrap();
    assert_eq!(len, 3);
    let raw = [0xffu8, 0xfe, 0xfd];
    assert!(std::str::from_utf8(&raw).is_err());
    let body = envelope(Json::Null, Err(RpcError::parse_error("body is not UTF-8")));
    let out = format!("{}{}", response_head(200, body.len()), body);
    assert!(out.starts_with("HTTP/1.1 200"), "got {out}");
    let v = parse_json(out.split("\r\n\r\n").nth(1).unwrap()).unwrap();
    assert_eq!(error_code(&v), Some(-32700));
}

#[test]
fn a_routed_call_is_answered_under_its_id() {
    let out = handle_body(r#"{"jsonrpc":"2.0","id":"abc","method":"getchaininfo","params":[]}"#, &Echo);
    let v = parse_json(&out).unwrap();
    assert_eq!(v.get("id").unwrap().as_str(), Some("abc"));
    assert_eq!(v.get("result").unwrap().as_str(), Some("ok"));
    assert!(v.get("error").is_none());
}

#[test]
fn the_request_id_comes_back_on_every_refusal() {
    for body in [
        r#"{"jsonrpc":"1.0","id":7,"method":"getchaininfo"}"#,
        r#"{"id":7,"method":3}"#,
        r#"{"id":7,"method":"nosuchmethod"}"#,
        r#"{"id":7,"method":"getblockbyslot","params":["x"]}"#,
    ] {
        let v = parse_json(&handle_body(body, &Echo)).unwrap();
        assert_eq!(v.get("id"), Some(&Json::Num("7".into())), "{body}");
        assert!(error_code(&v).is_some(), "{body}");
        assert!(v.get("result").is_none());
    }
}

#[test]
fn a_body_that_is_not_json_is_a_parse_error_with_a_null_id() {
    let v = parse_json(&handle_body("{not json", &Echo)).unwrap();
    assert_eq!(error_code(&v), Some(-32700));
    assert_eq!(v.get("id"), Some(&Json::Null));
    let v = parse_json(&handle_body("[1,2]", &Echo)).unwrap();
    assert_eq!(error_code(&v), Some(-32600));
    let v = parse_json(&handle_body("42", &Echo)).unwrap();
    assert_eq!(error_code(&v), Some(-32600));
}

#[test]
fn dispatch_routes_without_calling_the_node() {
    match dispatch_body(r#"{"jsonrpc":"2.0","id":1,"method":"getblockbyslot","params":[41290]}"#) {
        BodyAction::Call { id, request } => {
            assert_eq!(id, Json::Num("1".into()));
            assert_eq!(request, RpcRequest::BlockBySlot(41290));
        }
        BodyAction::Reply(r) => panic!("routed call answered at once: {r}"),
    }
    assert!(route("getnewaddress", None).is_err());
}

#[test]
fn a_written_value_reads_back_as_itself() {
    let v = Json::Obj(vec![
        ("id".to_string(), Json::Num("9007199254740993".to_string())),
        ("neg".to_string(), Json::Num("-0.5e+10".to_string())),
        ("s".to_string(), Json::s("tab\there \"quoted\" \\ and \u{1} and é")),
        (
            "arr".to_string(),
            Json::Arr(vec![Json::Null, Json::Bool(true), Json::Bool(false), Json::Arr(vec![]), Json::Obj(vec![])]),
        ),
        ("nested".to_string(), Json::Obj(vec![("k".to_string(), Json::Arr(vec![Json::u(0), Json::u(42)]))])),
    ]);
    let text = v.to_string();
    assert_eq!(parse_json(&text).unwrap(), v);
}

#[test]
fn a_refused_text_says_what_was_wrong_first() {
    assert_eq!(parse_json("{").unwrap_err(), "object key must be a string");
    assert_eq!(parse_json("[1,").unwrap_err(), "unexpected end of input");
    assert_eq!(parse_json("01").unwrap_err(), "number has a leading zero");
    assert_eq!(parse_json("1.").unwrap_err(), "number has no fractional digits");
    assert_eq!(parse_json("1e+").unwrap_err(), "number has no exponent digits");
    assert_eq!(parse_json("-x").unwrap_err(), "number has no integer part");
    assert_eq!(parse_json("1 2").unwrap_err(), "trailing bytes after the top-level value");
    assert_eq!(parse_json(r#""\x""#).unwrap_err(), "invalid escape");
    assert_eq!(parse_json(r#""\u12x4""#).unwrap_err(), "invalid \\u escape");
    assert_eq!(parse_json(r#""\u12"#).unwrap_err(), "truncated \\u escape");
    assert_eq!(parse_json("\"abc").unwrap_err(), "unterminated string");
    assert_eq!(parse_json("\"\u{1}\"").unwrap_err(), "control character in string");
    assert_eq!(parse_json(r#"{"a" 1}"#).unwrap_err(), "expected ':' after object key");
    assert_eq!(parse_json(r#"{"a":1 "b":2}"#).unwrap_err(), "expected ',' or '}' in object");
    assert_eq!(parse_json("[1 2]").unwrap_err(), "expected ',' or ']' in array");
    assert_eq!(parse_json("nul").unwrap_err(), "invalid literal");
    assert_eq!(parse_json("?").unwrap_err(), "unexpected character");
    assert_eq!(parse_json(&"[".repeat(65)).unwrap_err(), "nesting too deep");
    let v = parse_json(&handle_body("{", &Echo)).unwrap();
    assert_eq!(
        v.get("error").unwrap().get("message").unwrap().as_str(),
        Some("parse error: object key must be a string")
    );
}
