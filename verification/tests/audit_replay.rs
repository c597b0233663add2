use privacy_stablecoin::audit_replay::{pool_address, BroadcastCall, find_ciphertext, replay_audit_decryption, text_contains, NodeKeyRecord, ReplayError};
use privacy_stablecoin::wasm::{wasm_aggregate_global_public_key, wasm_aggregate_shares, wasm_encrypt_audit_key, wasm_generate_dkg_keys};

fn seed_hex(node: u8) -> String {
    (0..32u8).map(|i| format!("{:02x}", i.wrapping_mul(13).wrapping_add(node))).collect()
}

fn json_list(items: &[String]) -> String {
    let quoted: Vec<String> = items.iter().map(|s| format!("\"{}\"", s)).collect();
    format!("[{}]", quoted.join(","))
}

/// The key file of five nodes, the joint key and a ciphertext of `sym`.
fn setup(sym: &str) -> (Vec<NodeKeyRecord>, String) {
    let nodes: Vec<_> = (1..=5).map(|id| wasm_generate_dkg_keys(id, seed_hex(id as u8)).unwrap()).collect();
    let a0: Vec<String> = nodes.iter().map(|n| n.commitments[0].clone()).collect();
    let pk = wasm_aggregate_global_public_key(json_list(&a0)).unwrap();
    let records = (1..=5)
        .map(|j| {
            let received: Vec<String> = nodes.iter().map(|n| n.shares[j - 1].clone()).collect();
            NodeKeyRecord { node_id: j, aggregated_private_share: wasm_aggregate_shares(json_list(&received), j).unwrap() }
        })
        .collect();
    (records, wasm_encrypt_audit_key(pk, sym.to_string()).unwrap())
}

#[test]
fn test_text_contains() {
    assert!(text_contains("0xabcdef", "cde"));
    assert!(text_contains("abc", ""));
    assert!(text_contains("abc", "abc"));
    assert!(!text_contains("abc", "abcd"));
    assert!(!text_contains("abcabd", "abe"));
    assert!(text_contains("审计密文", "密文"));
}

#[test]
fn test_find_ciphertext() {
    let logs = vec!["0x01".to_string(), "0x00aabbcc11".to_string()];
    assert_eq!(find_ciphertext(&logs, "bbcc"), Some("bbcc".to_string()));
    assert_eq!(find_ciphertext(&logs, "ddee"), None);
    assert_eq!(find_ciphertext(&vec![], "aa"), None);
}

#[test]
fn test_replay_recovers_key() {
    let sym = format!("{:02x}", 99u8) + &"00".repeat(31);
    let (records, ct) = setup(&sym);
    let logs = vec!["0x1234".to_string(), format!("0x{}{}", "00".repeat(32), ct)];
    assert_eq!(replay_audit_decryption(&records, &logs, &ct).unwrap(), sym);
}

#[test]
fn test_replay_errors() {
    let sym = "07".to_string() + &"00".repeat(31);
    let (records, ct) = setup(&sym);
    let logs = vec![ct.clone()];
    assert!(matches!(replay_audit_decryption(&records, &vec!["00".to_string()], &ct), Err(ReplayError::CiphertextNotFound)));
    let odd = vec!["abc".to_string()];
    assert!(matches!(replay_audit_decryption(&records, &odd, "abc"), Err(ReplayError::CiphertextHex)));
    let short = vec!["0000".to_string()];
    assert!(matches!(replay_audit_decryption(&records, &short, "0000"), Err(ReplayError::CiphertextBytes(_))));
    let two: Vec<NodeKeyRecord> = records
        .iter()
        .take(2)
        .map(|r| NodeKeyRecord { node_id: r.node_id, aggregated_private_share: r.aggregated_private_share.clone() })
        .collect();
    assert!(matches!(replay_audit_decryption(&two, &logs, &ct), Err(ReplayError::MissingNode(2))));
    let mut bad: Vec<NodeKeyRecord> = records
        .iter()
        .map(|r| NodeKeyRecord { node_id: r.node_id, aggregated_private_share: r.aggregated_private_share.clone() })
        .collect();
    bad[4].aggregated_private_share = "zz".to_string();
    assert!(matches!(replay_audit_decryption(&bad, &logs, &ct), Err(ReplayError::ShareHex(4))));
    bad[4].aggregated_private_share = "ff".repeat(32);
    assert!(matches!(replay_audit_decryption(&bad, &logs, &ct), Err(ReplayError::ShareValue(4))));
    // node 2 (position 1) takes no part
    bad[4].aggregated_private_share = records[4].aggregated_private_share.clone();
    bad[1].aggregated_private_share = "zz".to_string();
    assert_eq!(replay_audit_decryption(&bad, &logs, &ct).unwrap(), sym);
}

#[test]
fn test_pool_address() {
    let call = |f: Option<&str>, a: &str| BroadcastCall { function: f.map(|x| x.to_string()), contract_address: a.to_string() };
    let calls = vec![call(None, "0x01"), call(Some("deposit(uint256)"), "0x02"), call(Some("transact(bytes)"), "0x03"),
        call(Some("transact(bytes)"), "0x04")];
    assert_eq!(pool_address(&calls), "0x03");
    let calls = vec![call(Some("transact()"), ""), call(Some("transactFull()"), "0x05")];
    assert_eq!(pool_address(&calls), "0x05");
    assert_eq!(pool_address(&vec![call(Some("deposit"), "0x06")]), "");
}
