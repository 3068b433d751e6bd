use bloch_pos_node::json::Json;
use bloch_pos_node::native_quote::{
    parse, parse_withdrawal, quote_owner, withdrawal_owner, Operation, Query,
};

fn hexs(b: &[u8]) -> String {
    b.iter().map(|x| format!("{x:02x}")).collect()
}

const KEY: [u8; 48] = [0x5A; 48];

fn quote(fields: &[(&str, Json)]) -> Json {
    Json::Arr(vec![Json::Obj(fields.iter().map(|(k, v)| (k.to_string(), clone(v))).collect())])
}

fn clone(v: &Json) -> Json {
    match v {
        Json::Null => Json::Null,
        Json::Bool(b) => Json::Bool(*b),
        Json::Num(n) => Json::Num(n.clone()),
        Json::Str(s) => Json::Str(s.clone()),
        Json::Arr(a) => Json::Arr(a.iter().map(clone).collect()),
        Json::Obj(o) => Json::Obj(o.iter().map(|(k, v)| (k.clone(), clone(v))).collect()),
    }
}

/// The signature scheme's verdict, stood in for: only `KEY` is a valid
/// hybrid key here.
fn key_is_valid(owner: &[u8]) -> bool {
    owner == &KEY[..]
}

/// Both steps: read the owner key, judge it, read the rest.
fn read_quote(params: &Json) -> Result<([u8; 32], Query), String> {
    let owner = quote_owner(Some(params)).map_err(|e| e.message)?;
    parse(Some(params), key_is_valid(&owner)).map_err(|e| e.message)
}

#[test]
fn laboratory_quote_params_require_typed_decimal_fields_and_exact_object() {
    let mut fields = vec![
        ("operation", Json::s("create-pair")),
        ("ownerPublicKeyHex", Json::s(&hexs(&KEY))),
        ("expectedHead", Json::hex(&[1; 32])),
        ("validUntil", Json::s("100")),
        ("asset", Json::hex(&[2; 32])),
        ("seed", Json::hex(&[3; 32])),
        ("blchAmount", Json::s("1000000")),
        ("nativeAmount", Json::s("60")),
    ];
    let (head, q) = read_quote(&quote(&fields)).unwrap();
    assert_eq!(head, [1; 32]);
    assert_eq!(q.owner, KEY.to_vec());
    assert_eq!(q.valid_until, 100);
    assert_eq!(
        q.operation,
        Operation::CreatePair { asset: [2; 32], seed: [3; 32], blch_amount: 1_000_000, native_amount: 60 }
    );
    let bare = match quote(&fields) {
        Json::Arr(mut a) => a.remove(0),
        _ => unreachable!(),
    };
    assert!(quote_owner(Some(&bare)).is_err());
    fields.push(("unexpected", Json::Bool(true)));
    assert!(read_quote(&quote(&fields)).is_err());
    fields.pop();
    fields[3].1 = Json::s("01");
    assert!(read_quote(&quote(&fields)).unwrap_err().contains("invalid decimal validUntil"));
    fields[3].1 = Json::Num("100".into());
    assert!(read_quote(&quote(&fields)).unwrap_err().contains("missing string validUntil"));
    fields[0].1 = Json::s("withdraw");
    assert!(read_quote(&quote(&fields)).unwrap_err().contains("committee"));
}

#[test]
fn quote_fields_are_checked_per_operation() {
    let fields = vec![
        ("operation", Json::s("initialize")),
        ("ownerPublicKeyHex", Json::s(&hexs(&KEY))),
        ("expectedHead", Json::hex(&[1; 32])),
        ("validUntil", Json::s("0")),
        ("reserve", Json::hex(&[4; 32])),
        ("feeBps", Json::s("65536")),
        ("minimumLp", Json::s("18446744073709551615")),
    ];
    assert_eq!(read_quote(&quote(&fields)).unwrap_err(), "invalid params: feeBps overflow");
    let mut fields = fields;
    fields[5].1 = Json::s("30");
    let (_, q) = read_quote(&quote(&fields)).unwrap();
    assert_eq!(q.operation, Operation::Initialize { reserve: [4; 32], fee_bps: 30, minimum_lp: u64::MAX });
    fields[6].1 = Json::s("18446744073709551616");
    assert_eq!(read_quote(&quote(&fields)).unwrap_err(), "invalid params: overflow minimumLp");
    fields[0].1 = Json::s("swap");
    assert_eq!(read_quote(&quote(&fields)).unwrap_err(), "invalid params: unknown or duplicate quote field");
    fields[0].1 = Json::s("burn");
    assert_eq!(read_quote(&quote(&fields)).unwrap_err(), "invalid params: unsupported laboratory builder operation");
    let long = "ab".repeat(8193);
    let fields = vec![("operation", Json::s("swap")), ("ownerPublicKeyHex", Json::s(&long))];
    assert_eq!(read_quote(&quote(&fields)).unwrap_err(), "invalid params: owner key exceeds limit");
    let fields = vec![("operation", Json::s("swap")), ("ownerPublicKeyHex", Json::s("xyz"))];
    assert_eq!(read_quote(&quote(&fields)).unwrap_err(), "invalid params: invalid hybrid owner key");
}

fn read_withdrawal(params: &Json) -> Result<[u8; 20], String> {
    let owner = withdrawal_owner(Some(params)).map_err(|e| e.message)?;
    let (_, q) = parse_withdrawal(Some(params), key_is_valid(&owner)).map_err(|e| e.message)?;
    Ok(q.recipient)
}

#[test]
fn laboratory_withdrawal_requires_explicit_nonce_recipient_and_typed_amount() {
    let mut fields = vec![
        ("ownerPublicKeyHex", Json::s(&hexs(&KEY))),
        ("expectedHead", Json::hex(&[1; 32])),
        ("route", Json::hex(&[2; 32])),
        ("amount", Json::s("40")),
        ("recipientHex20", Json::s(&"0f".repeat(20))),
        ("nonce", Json::s("1")),
        ("validUntil", Json::s("100")),
    ];
    let params = quote(&fields);
    let owner = withdrawal_owner(Some(&params)).unwrap();
    let (head, query) = parse_withdrawal(Some(&params), key_is_valid(&owner)).unwrap();
    assert_eq!(head, [1; 32]);
    assert_eq!((query.amount, query.nonce, query.recipient), (40, 1, [15; 20]));
    assert_eq!(query.route, [2; 32]);
    fields[4].1 = Json::s(&"0f".repeat(19));
    assert_eq!(read_withdrawal(&quote(&fields)).unwrap_err(), "invalid params: recipientHex20 must be exactly 20 bytes");
    fields[4].1 = Json::s(&"0g".repeat(20));
    assert_eq!(read_withdrawal(&quote(&fields)).unwrap_err(), "invalid params: invalid recipientHex20");
    fields[4].1 = Json::s(&"0f".repeat(20));
    fields[3].1 = Json::Num("40".into());
    assert!(read_withdrawal(&quote(&fields)).is_err());
    fields[3].1 = Json::s("40");
    fields.push(("nonce", Json::s("2")));
    assert_eq!(read_withdrawal(&quote(&fields)).unwrap_err(), "invalid params: unknown or duplicate withdrawal field");
}

#[test]
fn an_owner_key_the_scheme_refuses_is_an_invalid_params_error() {
    let other = [0x11u8; 48];
    let fields = vec![
        ("operation", Json::s("create-pair")),
        ("ownerPublicKeyHex", Json::s(&hexs(&other))),
        ("expectedHead", Json::hex(&[1; 32])),
        ("validUntil", Json::s("100")),
        ("asset", Json::hex(&[2; 32])),
        ("seed", Json::hex(&[3; 32])),
        ("blchAmount", Json::s("1000000")),
        ("nativeAmount", Json::s("60")),
    ];
    let e = parse(Some(&quote(&fields)), false).unwrap_err();
    assert_eq!((e.code, e.message.as_str()), (-32602, "invalid params: invalid hybrid owner key"));
    assert_eq!(read_quote(&quote(&fields)).unwrap_err(), "invalid params: invalid hybrid owner key");
    let w = vec![
        ("ownerPublicKeyHex", Json::s(&hexs(&other))),
        ("expectedHead", Json::hex(&[1; 32])),
        ("route", Json::hex(&[2; 32])),
        ("amount", Json::s("40")),
        ("recipientHex20", Json::s(&"0f".repeat(20))),
        ("nonce", Json::s("1")),
        ("validUntil", Json::s("100")),
    ];
    let e = parse_withdrawal(Some(&quote(&w)), false).unwrap_err();
    assert_eq!((e.code, e.message.as_str()), (-32602, "invalid params: invalid hybrid owner key"));
}
