use bloch_pos_node::p2p::gossip_message_id;
use bloch_pos_node::slashprot::{encode, Watermarks};

fn hexs(b: &[u8]) -> String {
    b.iter().map(|x| format!("{x:02x}")).collect()
}

#[test]
fn a_gossip_message_id_is_the_head_of_its_sha3_256() {
    assert_eq!(hexs(&gossip_message_id(b"")), "a7ffc6f8bf1ed76651c14756a061d662");
    assert_eq!(hexs(&gossip_message_id(b"abc")), "3a985da74fe225b2045c172d6bd390bd");
}

#[test]
fn a_watermark_record_ends_in_the_shake256_of_its_body() {
    let wm = Watermarks { proposal_slot: Some(7), ..Watermarks::default() };
    let r = encode(&wm, None);
    assert_eq!(r.len(), 76);
    let mut body = b"BPOSSLP1".to_vec();
    body.extend_from_slice(&1u32.to_le_bytes());
    body.extend_from_slice(&7u64.to_le_bytes());
    for _ in 0..3 {
        body.extend_from_slice(&u64::MAX.to_le_bytes());
    }
    assert_eq!(&r[..44], &body[..]);
    assert_eq!(hexs(&r[44..]), "e531ab6107c2f3903466e169c6ef9e24fef4b4410d93b8c073a7386d716efc35");
}
