use bloch_pos_node::slashing_cli::{parse_args, SlashingCommand};

fn args(a: &[&str]) -> Vec<String> {
    a.iter().map(|s| s.to_string()).collect()
}

fn h(b: u8) -> String {
    format!("{b:02x}").repeat(32)
}

#[test]
fn each_action_reads_its_own_options() {
    let key = h(0xA1);
    let net = h(0x44);
    let c = parse_args(&args(&[
        "export", "--data-dir", "/d", "--validator-pubkey-sha3", &key, "--genesis-digest", &net, "--out", "/o",
    ]))
    .unwrap();
    match c {
        SlashingCommand::Export { data_dir, binding, out } => {
            assert_eq!(data_dir, "/d");
            assert_eq!(out, "/o");
            assert_eq!(binding.validator_pubkey_sha3, [0xA1; 32]);
            assert_eq!(binding.genesis_digest, [0x44; 32]);
        }
        other => panic!("{other:?}"),
    }
    let c = parse_args(&args(&[
        "set-floor", "--min-slot", "97", "--genesis-digest", &net, "--data-dir", "/d", "--validator-pubkey-sha3", &key,
    ]))
    .unwrap();
    assert!(matches!(c, SlashingCommand::SetFloor { min_slot: 97, .. }));
    let c = parse_args(&args(&[
        "import", "--in", "/i", "--data-dir", "/d", "--validator-pubkey-sha3", &key, "--genesis-digest", &net,
    ]))
    .unwrap();
    assert!(matches!(c, SlashingCommand::Import { ref input, .. } if input == "/i"));
}

#[test]
fn malformed_command_lines_are_refused_with_the_reason() {
    let key = h(0xA1);
    let net = h(0x44);
    assert_eq!(parse_args(&args(&[])).unwrap_err(), "expected export, import or set-floor");
    assert_eq!(parse_args(&args(&["wipe"])).unwrap_err(), "expected export, import or set-floor");
    assert_eq!(parse_args(&args(&["export", "--in", "/x"])).unwrap_err(), "unknown option: --in");
    assert_eq!(
        parse_args(&args(&["export", "--data-dir", "/a", "--data-dir", "/b"])).unwrap_err(),
        "duplicate option: --data-dir"
    );
    assert_eq!(parse_args(&args(&["export", "--data-dir"])).unwrap_err(), "every option requires a value");
    assert_eq!(parse_args(&args(&["export", "--out", "/o"])).unwrap_err(), "--data-dir is required");
    assert_eq!(
        parse_args(&args(&["export", "--data-dir", "/d", "--validator-pubkey-sha3", "zz"])).unwrap_err(),
        "--validator-pubkey-sha3: not an even-length string of hex digits"
    );
    assert_eq!(
        parse_args(&args(&["export", "--data-dir", "/d", "--validator-pubkey-sha3", "00ff"])).unwrap_err(),
        "--validator-pubkey-sha3 must contain exactly 32 bytes"
    );
    assert_eq!(
        parse_args(&args(&["export", "--data-dir", "/d", "--validator-pubkey-sha3", &key, "--genesis-digest", &net]))
            .unwrap_err(),
        "--out is required"
    );
    assert_eq!(
        parse_args(&args(&[
            "set-floor", "--data-dir", "/d", "--validator-pubkey-sha3", &key, "--genesis-digest", &net, "--min-slot", "-1",
        ]))
        .unwrap_err(),
        "--min-slot must be an unsigned integer"
    );
}
