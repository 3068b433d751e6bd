use sha3::{Digest, Sha3_256};
use bloch_pos_node::rpc::{
    balance_json, block_count_json, block_json, chain_info_json, submitted_json, txout_json, utxos_json,
    validator_json, validator_state, Admitted, BlockFacts, ChainFacts, Checkpoint, Eutxo, Finality, Json,
    TxKind, ValidatorRecord, NEVER,
};
use bloch_pos_node::text::hex_string;

fn sha3(b: &[u8]) -> [u8; 32] {
    Sha3_256::digest(b).into()
}

fn entry(txid: u8, vout: u32, value: u64, script: u8) -> Eutxo {
    Eutxo { txid: [txid; 32], vout, value, script_hash: [script; 32] }
}

fn set_with_balances() -> Vec<Eutxo> {
    vec![
        entry(0x11, 0, 9_000_000_000_000_000_000, 0xAB),
        entry(0x11, 1, 9_000_000_000_000_000_000, 0xAB),
        entry(0x22, 0, 500, 0xAB),
        entry(0x33, 7, 12_345, 0xCD),
    ]
}

fn record(index: u32) -> ValidatorRecord {
    ValidatorRecord {
        index,
        pubkey: vec![0xBB; 64],
        staked_sat: 400_000 * 100_000_000,
        commission_bps: 1_250,
        randao_commitment: [2u8; 32],
        slashed: false,
        activation_epoch: 0,
        exit_epoch: NEVER,
        withdrawable_epoch: NEVER,
    }
}

fn block(slot: u64) -> BlockFacts {
    BlockFacts {
        block_id: [0xB1; 32],
        version: 0xB10C_0005,
        parent: [1; 32],
        slot,
        proposer_index: 3,
        state_root: [2; 32],
        body_root: [3; 32],
        randao_reveal: [4; 32],
        randao_mix: [5; 32],
        justified_root: [6; 32],
        finalized_root: [7; 32],
        attestation_root: [8; 32],
        coherence_root: [9; 32],
        tx_count: 2,
        attestation_count: 5,
    }
}

#[test]
fn only_a_finalized_block_reports_finalized_true() {
    let env = block(100);
    let cases = [
        (Finality::Finalized, "finalized", true),
        (Finality::Justified, "justified", false),
        (Finality::Canonical, "canonical", false),
        (Finality::NotCanonical, "not_canonical", false),
    ];
    for (f, label, expect_final) in cases {
        let v = block_json(&env, Some(1), f, 0);
        assert_eq!(v.get("finality").unwrap().as_str(), Some(label));
        assert_eq!(v.get("finalized"), Some(&Json::Bool(expect_final)));
        assert_eq!(f.is_final(), expect_final);
    }
    let v = block_json(&env, None, Finality::NotCanonical, 1_200);
    assert_eq!(v.get("height"), Some(&Json::Null));
    assert_eq!(v.get("version").unwrap().as_u64(), Some(2_970_353_669), "the header's own version, verbatim");
    assert_eq!(v.get("epoch").unwrap().as_u64(), Some(3));
    assert_eq!(v.get("tx_count").unwrap().as_u64(), Some(2));
}

#[test]
fn getblockcount_carries_the_finalized_height_beside_the_head() {
    let v = block_count_json(41_230, 41_290, Some(41_100), 1_289, 1_288);
    assert_eq!(v.get("height").unwrap().as_u64(), Some(41_230));
    assert_eq!(v.get("slot").unwrap().as_u64(), Some(41_290));
    assert_eq!(v.get("epoch").unwrap().as_u64(), Some(1_290));
    assert_eq!(v.get("finalized_height").unwrap().as_u64(), Some(41_100));
    assert_eq!(v.get("justified_epoch").unwrap().as_u64(), Some(1_289));
    assert_eq!(v.get("finalized_epoch").unwrap().as_u64(), Some(1_288));
}

#[test]
fn getvalidator_reports_the_record_with_commission_and_lifecycle() {
    let rec = record(1);
    let v = validator_json(&rec, Some(40_000_000_000_000), 0);
    assert_eq!(v.get("index").unwrap().as_u64(), Some(1));
    assert_eq!(v.get("state").unwrap().as_str(), Some("active"));
    assert_eq!(v.get("own_stake_sat").unwrap().as_str(), Some("40000000000000"));
    assert_eq!(v.get("commission_bps").unwrap().as_str(), Some("1250"));
    assert_eq!(v.get("slashed"), Some(&Json::Bool(false)));
    assert_eq!(v.get("activation_epoch").unwrap().as_u64(), Some(0));
    assert_eq!(v.get("exit_epoch"), Some(&Json::Null));
    assert_eq!(v.get("withdrawable_epoch"), Some(&Json::Null));
    assert!(v.get("effective_stake_sat").unwrap().as_str().is_some());
    assert_eq!(v.get("pubkey_hash").unwrap().as_str(), Some(hex_string(&sha3(&rec.pubkey)).as_str()));
    assert_eq!(v.get("pubkey_bytes").unwrap().as_u64(), Some(64));
    let not_sampled = validator_json(&rec, None, 0);
    assert_eq!(not_sampled.get("effective_stake_sat"), Some(&Json::Null));
}

#[test]
fn validator_state_orders_slashed_above_every_other_condition() {
    let base = record(0);
    let mut slashed_and_exiting = base.clone();
    slashed_and_exiting.slashed = true;
    slashed_and_exiting.exit_epoch = 5;
    assert_eq!(validator_state(&slashed_and_exiting, 0), "slashed");
    let mut exiting = base.clone();
    exiting.exit_epoch = 5;
    assert_eq!(validator_state(&exiting, 0), "exiting");
    assert_eq!(validator_state(&exiting, 5), "exited");
    let mut queued = base.clone();
    queued.activation_epoch = 9;
    assert_eq!(validator_state(&queued, 0), "queued");
    assert_eq!(validator_state(&queued, 9), "active");
}

#[test]
fn getbalance_sums_the_eutxo_set_for_one_script_hash() {
    let set = set_with_balances();
    let v = balance_json(&set, &[0xAB; 32]);
    assert_eq!(v.get("balance_sat").unwrap().as_str(), Some("18000000000000000500"));
    assert_eq!(v.get("utxo_count").unwrap().as_u64(), Some(3));
    let other = balance_json(&set, &[0xCD; 32]);
    assert_eq!(other.get("balance_sat").unwrap().as_str(), Some("12345"));
    let empty = balance_json(&set, &[0xEE; 32]);
    assert_eq!(empty.get("balance_sat").unwrap().as_str(), Some("0"));
    assert_eq!(empty.get("utxo_count").unwrap().as_u64(), Some(0));
}

#[test]
fn amounts_are_decimal_strings_not_json_numbers() {
    let set = set_with_balances();
    let v = balance_json(&set, &[0xAB; 32]);
    let raw = v.to_string();
    assert!(
        raw.contains(r#""balance_sat":"18000000000000000500""#),
        "R3: satoshi amounts must be quoted decimal strings — got {raw}"
    );
    match v.get("balance_sat") {
        Some(Json::Str(s)) => {
            assert_eq!(s.parse::<u128>().unwrap(), 18_000_000_000_000_000_500);
            assert!(18_000_000_000_000_000_500u128 > 9_007_199_254_740_991);
        }
        other => panic!("balance_sat must be a JSON string, got {other:?}"),
    }

    // The same rule holds for every satoshi field, not only the large ones —
    // "strings once they get big" is a latent bug in every client.
    let u = utxos_json(&set, &[0xCD; 32], 10);
    let first = u.get("utxos").unwrap().at(0).unwrap();
    assert!(matches!(first.get("value_sat"), Some(Json::Str(s)) if s == "12345"));
}

#[test]
fn getutxos_lists_the_outputs_and_reports_truncation() {
    let set = set_with_balances();
    let v = utxos_json(&set, &[0xAB; 32], 10);
    assert_eq!(v.get("total").unwrap().as_u64(), Some(3));
    assert_eq!(v.get("returned").unwrap().as_u64(), Some(3));
    assert_eq!(v.get("truncated"), Some(&Json::Bool(false)));
    let want = hex_string(&[0xAB; 32]);
    for k in 0..3 {
        let e = v.get("utxos").unwrap().at(k).unwrap();
        assert_eq!(e.get("script_hash").unwrap().as_str(), Some(want.as_str()));
        assert!(e.get("txid").is_some() && e.get("vout").is_some());
    }
    assert!(v.get("utxos").unwrap().at(3).is_none());
    let page = utxos_json(&set, &[0xAB; 32], 2);
    assert_eq!(page.get("total").unwrap().as_u64(), Some(3));
    assert_eq!(page.get("returned").unwrap().as_u64(), Some(2));
    assert_eq!(page.get("truncated"), Some(&Json::Bool(true)));
}

#[test]
fn gettxout_answers_present_or_absent_at_a_slot() {
    let set = set_with_balances();
    let v = txout_json(&set, &[0x33; 32], 7, 41);
    assert_eq!(v.get("unspent"), Some(&Json::Bool(true)));
    assert_eq!(v.get("utxo").unwrap().get("value_sat").unwrap().as_str(), Some("12345"));
    assert_eq!(v.get("at_slot").unwrap().as_u64(), Some(41));
    let v = txout_json(&set, &[0x33; 32], 8, 41);
    assert_eq!(v.get("unspent"), Some(&Json::Bool(false)));
    assert_eq!(v.get("utxo"), Some(&Json::Null));
    assert_eq!(v.get("at_slot").unwrap().as_u64(), Some(41));
}

#[test]
fn sendrawtransaction_reply_names_the_kind_and_disclaims_the_hash() {
    let bytes = vec![1u8, 2, 3, 4, 5];
    let v = submitted_json(TxKind::Transfer, &bytes, Admitted::New);
    assert_eq!(v.get("accepted"), Some(&Json::Bool(true)));
    assert_eq!(v.get("status").unwrap().as_str(), Some("accepted"));
    assert_eq!(v.get("kind").unwrap().as_str(), Some("transfer"));
    assert_eq!(v.get("bytes").unwrap().as_u64(), Some(5));
    assert!(matches!(v.get("tx_hash"), Some(Json::Str(s)) if s.len() == 64));
    assert_eq!(v.get("tx_hash").unwrap().as_str(), Some(hex_string(&sha3(&bytes)).as_str()));
    assert!(v.get("tx_hash_note").unwrap().as_str().unwrap().contains("not a consensus"));
    let dup = submitted_json(TxKind::Delegate, &bytes, Admitted::Duplicate);
    assert_eq!(dup.get("status").unwrap().as_str(), Some("duplicate"));
    assert_eq!(dup.get("kind").unwrap().as_str(), Some("delegate"));
    assert_eq!(dup.get("accepted"), Some(&Json::Bool(true)));
}

#[test]
fn getchaininfo_reports_slot_epoch_head_root_and_both_checkpoints() {
    let head = [0x5A; 32];
    let facts = ChainFacts {
        slot: 70,
        justified: Checkpoint { epoch: 1, root: [1; 32] },
        finalized: Checkpoint { epoch: 0, root: head },
        previous_justified: Checkpoint { epoch: 0, root: [3; 32] },
        active_validators: 2,
        total_active_stake_sat: 60_000_000_000_000,
        base_fee_millisat_per_gas: 1_000,
        next_base_fee_millisat_per_gas: 1_125,
    };
    let v = chain_info_json(&facts, &head, [0x77; 32], 69, Some(31), 75, 2, 3, 70);
    assert_eq!(v.get("slot").unwrap().as_u64(), Some(70));
    assert_eq!(v.get("epoch").unwrap().as_u64(), Some(2));
    assert_eq!(v.get("slot_in_epoch").unwrap().as_u64(), Some(6));
    assert_eq!(v.get("slots_per_epoch").unwrap().as_u64(), Some(32));
    assert_eq!(v.get("block_id").unwrap().as_str(), Some(hex_string(&head).as_str()));
    assert_eq!(v.get("state_root").unwrap().as_str(), Some(hex_string(&[0x77; 32]).as_str()));
    assert_eq!(v.get("justified").unwrap().get("epoch").unwrap().as_u64(), Some(1));
    assert_eq!(v.get("finalized").unwrap().get("root").unwrap().as_str(), Some(hex_string(&head).as_str()));
    assert_eq!(v.get("validators").unwrap().get("active").unwrap().as_u64(), Some(2));
    assert_eq!(v.get("total_active_stake_sat").unwrap().as_str(), Some("60000000000000"));
    assert_eq!(v.get("behind_by_slots").unwrap().as_u64(), Some(5));
    let ahead = chain_info_json(&facts, &head, [0x77; 32], 69, None, 10, 2, 3, 70);
    assert_eq!(ahead.get("behind_by_slots").unwrap().as_u64(), Some(0));
    assert_eq!(ahead.get("finalized_height"), Some(&Json::Null));
}
