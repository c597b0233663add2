use sha2::Digest;
use privacy_stablecoin::encoding::usize_to_text;
use privacy_stablecoin::field::Fe;
use privacy_stablecoin::note::Note;
use privacy_stablecoin::wasm::{
    aggregate_commitment_hexes, aggregate_share_hexes, dkg_keys_from_digests, encrypt_dkg_share_with,
    wasm_aggregate_global_public_key, wasm_aggregate_shares, wasm_create_note_commitment, wasm_create_note_nullifier,
    wasm_decrypt_dkg_share, wasm_decrypt_share, wasm_encrypt_audit_key, wasm_encrypt_dkg_share,
    wasm_generate_dkg_keys, wasm_threshold_decrypt, WasmDecryptionShareInput, WasmNodeDkgResult,
};

fn seed_hex(node: u8) -> String {
    let mut s = String::new();
    for i in 0..32u8 {
        s.push_str(&format!("{:02x}", i.wrapping_mul(7).wrapping_add(node)));
    }
    s
}

fn scalar_hex(v: u64) -> String {
    let mut s = String::new();
    for b in v.to_le_bytes() {
        s.push_str(&format!("{:02x}", b));
    }
    for _ in 0..24 {
        s.push_str("00");
    }
    s
}

fn json_list(items: &[String]) -> String {
    let quoted: Vec<String> = items.iter().map(|s| format!("\"{}\"", s)).collect();
    format!("[{}]", quoted.join(","))
}

fn digest(first: u8) -> Vec<u8> {
    let mut d = vec![0u8; 32];
    d[0] = first;
    d
}

fn generate_all() -> Vec<WasmNodeDkgResult> {
    (1..=5).map(|id| wasm_generate_dkg_keys(id, seed_hex(id as u8)).unwrap()).collect()
}

/// Node `j`'s key share from the evaluations every node made for it.
fn key_share(nodes: &[WasmNodeDkgResult], j: usize) -> String {
    let received: Vec<String> = nodes.iter().map(|n| n.shares[j - 1].clone()).collect();
    wasm_aggregate_shares(json_list(&received), j).unwrap()
}

#[test]
fn test_keys_from_digests_exact_values() {
    let keys = dkg_keys_from_digests(4, vec![digest(1), digest(2), digest(3)], digest(5));
    assert_eq!(keys.node_id, 4);
    assert_eq!(keys.commitments.len(), 3);
    // F(x) = 1 + 2x + 3x^2 at x = 1..5
    let expected = [6u64, 17, 34, 57, 86];
    assert_eq!(keys.shares.len(), 5);
    for (j, v) in expected.iter().enumerate() {
        assert_eq!(keys.shares[j], scalar_hex(*v));
    }
    assert_eq!(keys.communication_secret, scalar_hex(5));
    // 1·G is the generator (1, 2): its compressed encoding is x = 1.
    assert_eq!(keys.commitments[0], scalar_hex(1));
    assert_eq!(keys.communication_key.len(), 64);
}

#[test]
fn test_generate_keys_deterministic() {
    let a = wasm_generate_dkg_keys(1, seed_hex(1)).unwrap();
    let b = wasm_generate_dkg_keys(1, seed_hex(1)).unwrap();
    let c = wasm_generate_dkg_keys(1, seed_hex(2)).unwrap();
    assert_eq!(a.commitments, b.commitments);
    assert_eq!(a.shares, b.shares);
    assert_eq!(a.communication_key, b.communication_key);
    assert_eq!(a.communication_secret, b.communication_secret);
    assert_ne!(a.communication_secret, c.communication_secret);
    assert_eq!(a.commitments.len(), 3);
    assert_eq!(a.shares.len(), 5);
    for s in a.shares.iter().chain(a.commitments.iter()) {
        assert_eq!(s.len(), 64);
    }
}

#[test]
fn test_generate_keys_errors() {
    let bad = wasm_generate_dkg_keys(1, "zz".to_string());
    assert!(matches!(bad, Err(ref m) if m.starts_with("Seed Hex 解码失败: ")));
    let odd = wasm_generate_dkg_keys(1, "abc".to_string());
    assert!(matches!(odd, Err(ref m) if m.starts_with("Seed Hex 解码失败: ")));
    let short = wasm_generate_dkg_keys(1, "0011".to_string());
    assert!(matches!(short, Err(ref m) if m == "Seed 长度必须为 32 字节"));
}

#[test]
fn test_dkg_share_transport_roundtrip() {
    let nodes = generate_all();
    for sender in &nodes {
        for (j, recipient) in nodes.iter().enumerate() {
            let share = &sender.shares[j];
            let ct = wasm_encrypt_dkg_share(share.clone(), recipient.communication_key.clone()).unwrap();
            assert_eq!(ct.len(), 128);
            let opened = wasm_decrypt_dkg_share(ct, recipient.communication_secret.clone()).unwrap();
            assert_eq!(&opened, share);
        }
    }
}

#[test]
fn test_dkg_share_wrong_secret_does_not_open() {
    let nodes = generate_all();
    let share = nodes[0].shares[1].clone();
    let ct = wasm_encrypt_dkg_share(share.clone(), nodes[1].communication_key.clone()).unwrap();
    let opened = wasm_decrypt_dkg_share(ct, nodes[2].communication_secret.clone()).unwrap();
    assert_ne!(opened, share);
}

#[test]
fn test_dkg_share_deterministic_with_scalar() {
    let share = Fe::from_u64(77);
    let nodes = generate_all();
    let r = Fe::from_u64(9);
    let key_bytes = hex_bytes(&nodes[0].communication_key);
    let point = privacy_stablecoin::audit::AuditPublicKey::from_bytes(&key_bytes).unwrap().point;
    let a = encrypt_dkg_share_with(&share, &point, &r);
    let b = encrypt_dkg_share_with(&share, &point, &r);
    assert_eq!(a, b);
    let opened = wasm_decrypt_dkg_share(a, nodes[0].communication_secret.clone()).unwrap();
    assert_eq!(opened, scalar_hex(77));
}

fn hex_bytes(s: &str) -> Vec<u8> {
    (0..s.len() / 2).map(|i| u8::from_str_radix(&s[2 * i..2 * i + 2], 16).unwrap()).collect()
}

#[test]
fn test_dkg_share_errors() {
    let nodes = generate_all();
    let r = wasm_encrypt_dkg_share("xx".to_string(), nodes[0].communication_key.clone());
    assert!(matches!(r, Err(ref m) if m.starts_with("Share Hex 解码失败: ")));
    let r = wasm_encrypt_dkg_share("ff".repeat(32), nodes[0].communication_key.clone());
    assert!(matches!(r, Err(ref m) if m.starts_with("Share 反序列化失败: ")));
    let r = wasm_encrypt_dkg_share(scalar_hex(3), "q".to_string());
    assert!(matches!(r, Err(ref m) if m.starts_with("公钥 Hex 解码失败: ")));
    let r = wasm_encrypt_dkg_share(scalar_hex(3), "00".to_string());
    assert!(matches!(r, Err(ref m) if m.starts_with("公钥点反序列化失败: ")));

    let secret = nodes[0].communication_secret.clone();
    let r = wasm_decrypt_dkg_share("g0".to_string(), secret.clone());
    assert!(matches!(r, Err(ref m) if m.starts_with("密文 Hex 解码失败: ")));
    let r = wasm_decrypt_dkg_share("00".repeat(63), secret.clone());
    assert!(matches!(r, Err(ref m) if m == "密文长度应为 64 字节"));
    let r = wasm_decrypt_dkg_share("ff".repeat(64), secret.clone());
    assert!(matches!(r, Err(ref m) if m.starts_with("密文 C1 反序列化失败: ")));
    let good = wasm_encrypt_dkg_share(scalar_hex(3), nodes[0].communication_key.clone()).unwrap();
    let bad_c2 = format!("{}{}", &good[..64], "ff".repeat(32));
    let r = wasm_decrypt_dkg_share(bad_c2, secret.clone());
    assert!(matches!(r, Err(ref m) if m.starts_with("密文 C2 反序列化失败: ")));
    let r = wasm_decrypt_dkg_share(good.clone(), "1".to_string());
    assert!(matches!(r, Err(ref m) if m.starts_with("私钥 Hex 解码失败: ")));
    let r = wasm_decrypt_dkg_share(good, "ff".repeat(32));
    assert!(matches!(r, Err(ref m) if m.starts_with("私钥反序列化失败: ")));
}

#[test]
fn test_full_flow_threshold_decrypt() {
    let nodes = generate_all();
    let a0: Vec<String> = nodes.iter().map(|n| n.commitments[0].clone()).collect();
    let pk = wasm_aggregate_global_public_key(json_list(&a0)).unwrap();
    let sym = scalar_hex(123456789);
    let ct = wasm_encrypt_audit_key(pk.clone(), sym.clone()).unwrap();
    assert_eq!(ct.len(), 128);
    let sk: Vec<String> = (1..=5).map(|j| key_share(&nodes, j)).collect();
    for subset in [[1usize, 2, 3], [1, 3, 5], [2, 4, 5], [3, 4, 5]] {
        let inputs: Vec<WasmDecryptionShareInput> = subset
            .iter()
            .map(|&j| WasmDecryptionShareInput {
                node_id: j,
                share_point_hex: wasm_decrypt_share(ct.clone(), sk[j - 1].clone(), j).unwrap(),
            })
            .collect();
        let recovered = wasm_threshold_decrypt(ct.clone(), Ok(inputs)).unwrap();
        assert_eq!(recovered, sym);
    }
    // all five shares recover the key too
    let inputs: Vec<WasmDecryptionShareInput> = (1..=5)
        .map(|j| WasmDecryptionShareInput {
            node_id: j,
            share_point_hex: wasm_decrypt_share(ct.clone(), sk[j - 1].clone(), j).unwrap(),
        })
        .collect();
    assert_eq!(wasm_threshold_decrypt(ct, Ok(inputs)).unwrap(), sym);
}

#[test]
fn test_threshold_decrypt_errors() {
    let nodes = generate_all();
    let a0: Vec<String> = nodes.iter().map(|n| n.commitments[0].clone()).collect();
    let pk = wasm_aggregate_global_public_key(json_list(&a0)).unwrap();
    let ct = wasm_encrypt_audit_key(pk, scalar_hex(5)).unwrap();
    let r = wasm_threshold_decrypt("zz".to_string(), Ok(vec![]));
    assert!(matches!(r, Err(ref m) if m.starts_with("Hex 解码失败: ")));
    let r = wasm_threshold_decrypt("00".repeat(10), Ok(vec![]));
    assert!(matches!(r, Err(ref m) if m.starts_with("密文反序列化失败: ")));
    let r = wasm_threshold_decrypt(ct.clone(), Err("expected value".to_string()));
    assert!(matches!(r, Err(ref m) if m == "JSON 解析失败: expected value"));
    let two: Vec<WasmDecryptionShareInput> = (1..=2)
        .map(|j| WasmDecryptionShareInput { node_id: j, share_point_hex: a0[0].clone() })
        .collect();
    let r = wasm_threshold_decrypt(ct.clone(), Ok(two));
    assert!(matches!(r, Err(ref m) if m == "需要至少 3 个节点的解密份额方可进行门限解密"));
    let bad: Vec<WasmDecryptionShareInput> = vec![
        WasmDecryptionShareInput { node_id: 1, share_point_hex: a0[0].clone() },
        WasmDecryptionShareInput { node_id: 2, share_point_hex: "0".to_string() },
        WasmDecryptionShareInput { node_id: 3, share_point_hex: "ff".repeat(32) },
    ];
    let r = wasm_threshold_decrypt(ct.clone(), Ok(bad));
    assert!(matches!(r, Err(ref m) if m.starts_with("Hex 解码失败: ")));
    let bad: Vec<WasmDecryptionShareInput> = vec![
        WasmDecryptionShareInput { node_id: 1, share_point_hex: a0[0].clone() },
        WasmDecryptionShareInput { node_id: 2, share_point_hex: "ff".repeat(32) },
        WasmDecryptionShareInput { node_id: 3, share_point_hex: "0".to_string() },
    ];
    let r = wasm_threshold_decrypt(ct, Ok(bad));
    assert!(matches!(r, Err(ref m) if m.starts_with("解密碎片点反序列化失败: ")));
}

#[test]
fn test_aggregate_errors() {
    let nodes = generate_all();
    let a0: Vec<String> = nodes.iter().map(|n| n.commitments[0].clone()).collect();
    let r = wasm_aggregate_global_public_key("not json".to_string());
    assert!(matches!(r, Err(ref m) if m.starts_with("JSON 解析失败: ")));
    let r = wasm_aggregate_global_public_key(json_list(&a0[..4]));
    assert!(matches!(r, Err(ref m) if m == "需要 5 个节点的承诺首项进行聚合"));
    let mut broken = a0.clone();
    broken[2] = "abc".to_string();
    let r = aggregate_commitment_hexes(broken.clone());
    assert!(matches!(r, Err(ref m) if m.starts_with("Hex 解码失败: ")));
    broken[2] = "ff".repeat(32);
    let r = aggregate_commitment_hexes(broken);
    assert!(matches!(r, Err(ref m) if m.starts_with("承诺点反序列化失败: ")));

    let received: Vec<String> = nodes.iter().map(|n| n.shares[0].clone()).collect();
    let r = wasm_aggregate_shares("{".to_string(), 1);
    assert!(matches!(r, Err(ref m) if m.starts_with("JSON 解析失败: ")));
    let r = wasm_aggregate_shares(json_list(&received[..3]), 1);
    assert!(matches!(r, Err(ref m) if m == "需要恰好 5 个多项式评估 Share 进行聚合"));
    let mut broken = received.clone();
    broken[4] = "xyz0".to_string();
    let r = aggregate_share_hexes(broken.clone(), 1);
    assert!(matches!(r, Err(ref m) if m.starts_with("Hex 解码失败: ")));
    broken[4] = "ff".repeat(32);
    let r = aggregate_share_hexes(broken, 1);
    assert!(matches!(r, Err(ref m) if m.starts_with("Share 反序列化失败: ")));
}

#[test]
fn test_aggregate_shares_sums() {
    let hexes: Vec<String> = [1u64, 2, 3, 4, 5].iter().map(|v| scalar_hex(*v)).collect();
    assert_eq!(aggregate_share_hexes(hexes.clone(), 2).unwrap(), scalar_hex(15));
    assert_eq!(wasm_aggregate_shares(json_list(&hexes), 2).unwrap(), scalar_hex(15));
}

#[test]
fn test_aggregate_public_key_of_generators() {
    // five commitments 1·G sum to 5·G, which is node key 5·G from a secret digest of 5
    let g = scalar_hex(1);
    let hexes = vec![g.clone(), g.clone(), g.clone(), g.clone(), g];
    let pk = aggregate_commitment_hexes(hexes).unwrap();
    let keys = dkg_keys_from_digests(1, vec![digest(1)], digest(5));
    assert_eq!(pk, keys.communication_key);
}

#[test]
fn test_encrypt_audit_key_errors() {
    let r = wasm_encrypt_audit_key("x".to_string(), scalar_hex(1));
    assert!(matches!(r, Err(ref m) if m.starts_with("Hex 解码失败: ")));
    let r = wasm_encrypt_audit_key("ff".repeat(32), scalar_hex(1));
    assert!(matches!(r, Err(ref m) if m.starts_with("公钥反序列化失败: Serialization error: ")));
    let r = wasm_encrypt_audit_key(scalar_hex(1), "0g".to_string());
    assert!(matches!(r, Err(ref m) if m.starts_with("Hex 解码失败: ")));
    let r = wasm_encrypt_audit_key(scalar_hex(1), "ff".repeat(32));
    assert!(matches!(r, Err(ref m) if m.starts_with("对称密钥反序列化失败: ")));
}

#[test]
fn test_decrypt_share_errors() {
    let ct = wasm_encrypt_audit_key(scalar_hex(1), scalar_hex(2)).unwrap();
    let r = wasm_decrypt_share("q".to_string(), scalar_hex(1), 1);
    assert!(matches!(r, Err(ref m) if m.starts_with("Hex 解码失败: ")));
    let r = wasm_decrypt_share("00".repeat(40), scalar_hex(1), 1);
    assert!(matches!(r, Err(ref m) if m.starts_with("密文反序列化失败: Serialization error: ")));
    let r = wasm_decrypt_share(ct.clone(), "123".to_string(), 1);
    assert!(matches!(r, Err(ref m) if m.starts_with("Hex 解码失败: ")));
    let r = wasm_decrypt_share(ct.clone(), "ff".repeat(32), 1);
    assert!(matches!(r, Err(ref m) if m.starts_with("私钥碎片反序列化失败: ")));
    // key share 1 times R is R itself
    assert_eq!(wasm_decrypt_share(ct.clone(), scalar_hex(1), 1).unwrap(), ct[..64].to_string());
}

#[test]
fn test_note_commitment_and_nullifier_hex() {
    let secret = Fe::from_u64(42);
    let blinding = Fe::from_u64(7);
    let note = Note::new(1000, secret, blinding);
    let expected = note.commitment();
    let got = wasm_create_note_commitment(1000, scalar_hex(42), scalar_hex(7)).unwrap();
    let limbs = expected.limbs();
    let mut expected_hex = String::new();
    for l in limbs {
        for b in l.to_le_bytes() {
            expected_hex.push_str(&format!("{:02x}", b));
        }
    }
    assert_eq!(got, expected_hex);

    let n = note.nullifier(3);
    let got = wasm_create_note_nullifier(scalar_hex(42), 3).unwrap();
    let mut expected_hex = String::new();
    for l in n.limbs() {
        for b in l.to_le_bytes() {
            expected_hex.push_str(&format!("{:02x}", b));
        }
    }
    assert_eq!(got, expected_hex);
    assert_ne!(got, wasm_create_note_nullifier(scalar_hex(42), 4).unwrap());
}

#[test]
fn test_note_hex_errors() {
    let r = wasm_create_note_commitment(1, "xx".to_string(), scalar_hex(1));
    assert!(matches!(r, Err(ref m) if m.starts_with("Secret Hex 解码失败: ")));
    let r = wasm_create_note_commitment(1, "ff".repeat(32), scalar_hex(1));
    assert!(matches!(r, Err(ref m) if m.starts_with("Secret 反序列化失败: ")));
    let r = wasm_create_note_commitment(1, scalar_hex(1), "x".to_string());
    assert!(matches!(r, Err(ref m) if m.starts_with("Blinding Hex 解码失败: ")));
    let r = wasm_create_note_commitment(1, scalar_hex(1), "00".to_string());
    assert!(matches!(r, Err(ref m) if m.starts_with("Blinding 反序列化失败: ")));
    let r = wasm_create_note_nullifier("0".to_string(), 1);
    assert!(matches!(r, Err(ref m) if m.starts_with("Secret Hex 解码失败: ")));
    let r = wasm_create_note_nullifier("ff".repeat(32), 1);
    assert!(matches!(r, Err(ref m) if m.starts_with("Secret 反序列化失败: ")));
    // upper-case hexadecimal is read too
    assert_eq!(
        wasm_create_note_nullifier("2A".to_string() + &"00".repeat(31), 1).unwrap(),
        wasm_create_note_nullifier(scalar_hex(42), 1).unwrap()
    );
}

#[test]
fn test_count_text() {
    assert_eq!(usize_to_text(0), "0");
    assert_eq!(usize_to_text(7), "7");
    assert_eq!(usize_to_text(1050), "1050");
    assert_eq!(usize_to_text(usize::MAX), usize::MAX.to_string());
}

#[test]
fn test_generated_keys_come_from_sha256_of_seed_and_labels() {
    let seed_text = seed_hex(3);
    let seed: Vec<u8> = (0..32).map(|i| u8::from_str_radix(&seed_text[2 * i..2 * i + 2], 16).unwrap()).collect();
    let digest_of = |label: &str| {
        let mut h = sha2::Sha256::new();
        h.update(&seed);
        h.update(label.as_bytes());
        h.finalize().to_vec()
    };
    let coeff_digests: Vec<Vec<u8>> = (0..3).map(|i| digest_of(&format!("coeff_{}", i))).collect();
    let expected = dkg_keys_from_digests(3, coeff_digests, digest_of("comm_secret"));
    let got = wasm_generate_dkg_keys(3, seed_text).unwrap();
    assert_eq!(got.commitments, expected.commitments);
    assert_eq!(got.shares, expected.shares);
    assert_eq!(got.communication_key, expected.communication_key);
    assert_eq!(got.communication_secret, expected.communication_secret);
}
