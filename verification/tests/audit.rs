use privacy_stablecoin::audit::{
    AuditError, AuditPublicKey, DecryptionShare, DkgPolynomial, EncryptedAuditKey, PrivateKeyShare,
};
use privacy_stablecoin::curve::G1Point;
use privacy_stablecoin::field::Fe;
use privacy_stablecoin::note::random_field_element;

/// A random point: a random multiple of the generator.
fn random_point() -> G1Point {
    let poly = DkgPolynomial { node_id: 0, coefficients: vec![random_field_element()] };
    poly.commitments()[0]
}

/// Five nodes' 3-coefficient polynomials, their private shares and the joint key.
fn run_dkg() -> (Vec<PrivateKeyShare>, AuditPublicKey) {
    let mut polynomials = Vec::new();
    for id in 1..=5 {
        polynomials.push(DkgPolynomial::new(id, 3));
    }
    let mut shares_matrix = vec![vec![Fe::zero(); 6]; 6];
    for i in 1..=5 {
        for j in 1..=5 {
            let x = Fe::from_u64(j as u64);
            shares_matrix[i][j] = polynomials[i - 1].evaluate(x);
        }
    }
    let mut private_shares = Vec::new();
    for j in 1..=5 {
        let mut j_shares = Vec::new();
        for i in 1..=5 {
            j_shares.push(shares_matrix[i][j]);
        }
        private_shares.push(PrivateKeyShare::aggregate(&j_shares, j));
    }
    let mut a0_commitments = Vec::new();
    for poly in &polynomials {
        a0_commitments.push(poly.commitments()[0]);
    }
    (private_shares, AuditPublicKey::aggregate(&a0_commitments))
}

#[test]
fn test_dkg_and_threshold_decryption_flow() {
    // 5 nodes
    let mut polynomials = Vec::new();
    for id in 1..=5 {
        polynomials.push(DkgPolynomial::new(id, 3));
    }

    // 1. nodes exchange evaluations: shares_matrix[sender][receiver]
    let mut shares_matrix = vec![vec![Fe::zero(); 6]; 6];
    for i in 1..=5 {
        for j in 1..=5 {
            let x = Fe::from_u64(j as u64);
            shares_matrix[i][j] = polynomials[i - 1].evaluate(x);
        }
    }

    // 2. each node sums what it received into sk_j
    let mut private_shares = Vec::new();
    for j in 1..=5 {
        let mut j_shares = Vec::new();
        for i in 1..=5 {
            j_shares.push(shares_matrix[i][j]);
        }
        private_shares.push(PrivateKeyShare::aggregate(&j_shares, j));
    }

    // 3. the joint audit public key
    let mut a0_commitments = Vec::new();
    for poly in &polynomials {
        a0_commitments.push(poly.commitments()[0]);
    }
    let global_pub_key = AuditPublicKey::aggregate(&a0_commitments);

    // 4. the user encrypts a symmetric audit key
    let sym_key = Fe::from_u64(123456789u64);
    let ciphertext = EncryptedAuditKey::encrypt(&global_pub_key, sym_key);

    // 5. nodes {1, 3, 5} decrypt together
    let share1 = ciphertext.decrypt_share(&private_shares[0]);
    let share3 = ciphertext.decrypt_share(&private_shares[2]);
    let share5 = ciphertext.decrypt_share(&private_shares[4]);

    let decrypted_key = ciphertext.decrypt(&[share1.clone(), share3.clone(), share5.clone()]).unwrap();
    assert_eq!(decrypted_key, sym_key);

    // 6. another 3-of-5 set {2, 4, 5} works too
    let share2 = ciphertext.decrypt_share(&private_shares[1]);
    let share4 = ciphertext.decrypt_share(&private_shares[3]);

    let decrypted_key_2 = ciphertext.decrypt(&[share2.clone(), share4.clone(), share5.clone()]).unwrap();
    assert_eq!(decrypted_key_2, sym_key);

    // 7. two nodes cannot decrypt
    let failed_decryption = ciphertext.decrypt(&[share1.clone(), share3.clone()]);
    assert!(failed_decryption.is_err());
}

#[test]
fn test_serialization_deserialization_roundtrip() {
    // 1. PrivateKeyShare
    let sk_share = PrivateKeyShare { node_id: 3, share: random_field_element() };
    let sk_bytes = sk_share.to_bytes();
    let sk_recovered = PrivateKeyShare::from_bytes(&sk_bytes).unwrap();
    assert_eq!(sk_share, sk_recovered);

    // 2. AuditPublicKey
    let pub_key = AuditPublicKey { point: random_point() };
    let pub_bytes = pub_key.to_bytes();
    let pub_recovered = AuditPublicKey::from_bytes(&pub_bytes).unwrap();
    assert_eq!(pub_key, pub_recovered);

    // 3. EncryptedAuditKey
    let sym_key = Fe::from_u64(987654321u64);
    let ciphertext = EncryptedAuditKey::encrypt(&pub_key, sym_key);
    let cipher_bytes = ciphertext.to_bytes();
    let cipher_recovered = EncryptedAuditKey::from_bytes(&cipher_bytes).unwrap();
    assert_eq!(ciphertext, cipher_recovered);

    // 4. DecryptionShare
    let dec_share = ciphertext.decrypt_share(&sk_share);
    let dec_bytes = dec_share.to_bytes();
    let dec_recovered = DecryptionShare::from_bytes(&dec_bytes).unwrap();
    assert_eq!(dec_share, dec_recovered);
}

#[test]
fn all_ten_three_node_sets_and_larger_sets_decrypt() {
    let (private_shares, pk) = run_dkg();
    let sym = random_field_element();
    let c = EncryptedAuditKey::encrypt(&pk, sym);
    let ds: Vec<DecryptionShare> = private_shares.iter().map(|s| c.decrypt_share(s)).collect();
    for a in 0..5 {
        for b in (a + 1)..5 {
            for d in (b + 1)..5 {
                let set = [ds[a].clone(), ds[b].clone(), ds[d].clone()];
                assert_eq!(c.decrypt(&set), Ok(sym));
            }
        }
    }
    assert_eq!(c.decrypt(&[ds[4].clone(), ds[0].clone(), ds[2].clone(), ds[1].clone()]), Ok(sym));
    assert_eq!(c.decrypt(&ds), Ok(sym));
}

#[test]
fn too_few_shares_is_a_decryption_error() {
    let (private_shares, pk) = run_dkg();
    let c = EncryptedAuditKey::encrypt(&pk, Fe::from_u64(1));
    let d = c.decrypt_share(&private_shares[0]);
    match c.decrypt(&[d.clone(), d]) {
        Err(AuditError::DecryptionError(m)) => {
            assert_eq!(m, "Insufficient decryption shares: got 2, need at least 3")
        },
        other => panic!("unexpected {:?}", other),
    }
    assert!(matches!(c.decrypt(&[]), Err(AuditError::DecryptionError(_))));
}

#[test]
fn a_wrong_share_gives_a_wrong_key() {
    let (private_shares, pk) = run_dkg();
    let sym = Fe::from_u64(77);
    let c = EncryptedAuditKey::encrypt(&pk, sym);
    let bad = PrivateKeyShare { node_id: 2, share: random_field_element() };
    let shares = [
        c.decrypt_share(&private_shares[0]),
        c.decrypt_share(&bad),
        c.decrypt_share(&private_shares[2]),
    ];
    let got = c.decrypt(&shares).unwrap();
    assert_ne!(got, sym);
}

#[test]
fn polynomial_evaluation_by_hand() {
    // 3 + 5x + 7x^2 at x = 2 is 3 + 10 + 28 = 41
    let p = DkgPolynomial { node_id: 1, coefficients: vec![Fe::from_u64(3), Fe::from_u64(5), Fe::from_u64(7)] };
    assert_eq!(p.evaluate(Fe::from_u64(2)), Fe::from_u64(41));
    assert_eq!(p.evaluate(Fe::zero()), Fe::from_u64(3));
    let empty = DkgPolynomial { node_id: 1, coefficients: vec![] };
    assert_eq!(empty.evaluate(Fe::from_u64(9)), Fe::zero());
    let fresh = DkgPolynomial::new(4, 3);
    assert_eq!(fresh.node_id, 4);
    assert_eq!(fresh.coefficients.len(), 3);
    assert_eq!(fresh.commitments().len(), 3);
}

#[test]
fn aggregation_adds_shares() {
    let k = PrivateKeyShare::aggregate(&[Fe::from_u64(2), Fe::from_u64(3), Fe::from_u64(4)], 6);
    assert_eq!(k, PrivateKeyShare { node_id: 6, share: Fe::from_u64(9) });
    let none = PrivateKeyShare::aggregate(&[], 1);
    assert_eq!(none.share, Fe::zero());
}

#[test]
fn commitment_points_add_like_their_scalars() {
    // commitments of 2 and 3 sum to the commitment of 5
    let p = DkgPolynomial { node_id: 1, coefficients: vec![Fe::from_u64(2), Fe::from_u64(3), Fe::from_u64(5)] };
    let cs = p.commitments();
    let pk = AuditPublicKey::aggregate(&[cs[0], cs[1]]);
    assert_eq!(pk.point, cs[2]);
    assert_eq!(AuditPublicKey::aggregate(&[]).point, G1Point::identity());
    let one = DkgPolynomial { node_id: 1, coefficients: vec![Fe::one()] };
    assert_eq!(one.commitments()[0], G1Point::generator());
}

#[test]
fn share_bytes_layout() {
    let k = PrivateKeyShare { node_id: 0x0102, share: Fe::from_u64(0x0a0b) };
    let bytes = k.to_bytes();
    assert_eq!(bytes.len(), 40);
    assert_eq!(&bytes[0..8], &[2u8, 1, 0, 0, 0, 0, 0, 0]);
    assert_eq!(&bytes[8..10], &[0x0bu8, 0x0a]);
    assert!(bytes[10..].iter().all(|b| *b == 0));
}

#[test]
fn malformed_bytes_are_serialization_errors() {
    assert_eq!(
        PrivateKeyShare::from_bytes(&[1, 2, 3]),
        Err(AuditError::SerializationError("Invalid bytes length".to_string()))
    );
    assert!(matches!(PrivateKeyShare::from_bytes(&[0u8; 20]), Err(AuditError::SerializationError(_))));
    // a share of all ones is above r
    let mut too_big = vec![0u8; 8];
    too_big.extend_from_slice(&[0xffu8; 32]);
    assert!(matches!(PrivateKeyShare::from_bytes(&too_big), Err(AuditError::SerializationError(_))));
    assert!(matches!(DecryptionShare::from_bytes(&[0u8; 4]), Err(AuditError::SerializationError(_))));
    assert!(matches!(AuditPublicKey::from_bytes(&[0u8; 31]), Err(AuditError::SerializationError(_))));
    assert!(matches!(EncryptedAuditKey::from_bytes(&[0u8; 40]), Err(AuditError::SerializationError(_))));
}

#[test]
fn point_encoding_flags() {
    // the point at infinity sets bit 254 only
    let z = AuditPublicKey { point: G1Point::identity() }.to_bytes();
    assert_eq!(z.len(), 32);
    assert_eq!(z[31], 0x40);
    assert!(z[..31].iter().all(|b| *b == 0));
    assert_eq!(AuditPublicKey::from_bytes(&z).unwrap().point, G1Point::identity());
    // the generator (1, 2): x = 1, and 2 is the smaller root, so no flag
    let g = AuditPublicKey { point: G1Point::generator() }.to_bytes();
    assert_eq!(g[0], 1);
    assert_eq!(g[31], 0);
}

#[test]
fn ciphertext_masks_the_key() {
    let (_, pk) = run_dkg();
    let sym = Fe::from_u64(5);
    let c = EncryptedAuditKey::encrypt(&pk, sym);
    assert_ne!(c.masked_key, sym);
    assert_eq!(c.to_bytes().len(), 64);
}

#[test]
fn empty_share_list_message_counts_zero() {
    let (_, pk) = run_dkg();
    let c = EncryptedAuditKey::encrypt(&pk, Fe::from_u64(1));
    match c.decrypt(&[]) {
        Err(e) => assert_eq!(e.describe(), "Threshold decryption error: Insufficient decryption shares: got 0, need at least 3"),
        Ok(_) => panic!("decrypted without shares"),
    }
}

#[test]
fn error_texts() {
    assert_eq!(AuditError::DkgError("x".to_string()).describe(), "DKG error: x");
    assert_eq!(AuditError::SerializationError("bad".to_string()).describe(), "Serialization error: bad");
}

#[test]
fn encryption_with_a_fixed_scalar_is_deterministic_and_decrypts() {
    let (private_shares, pk) = run_dkg();
    let r = Fe::from_u64(31337);
    let a = EncryptedAuditKey::encrypt_with(&pk, Fe::from_u64(8), &r);
    let b = EncryptedAuditKey::encrypt_with(&pk, Fe::from_u64(8), &r);
    assert_eq!(a, b);
    let shares: Vec<DecryptionShare> = [0usize, 1, 4].iter().map(|&i| a.decrypt_share(&private_shares[i])).collect();
    assert_eq!(a.decrypt(&shares).unwrap(), Fe::from_u64(8));
}

#[test]
fn a_four_of_five_key_needs_four_shares() {
    let polynomials: Vec<DkgPolynomial> = (1..=5).map(|id| DkgPolynomial::new(id, 4)).collect();
    let private_shares: Vec<PrivateKeyShare> = (1..=5)
        .map(|j| {
            let received: Vec<Fe> = polynomials.iter().map(|p| p.evaluate(Fe::from_u64(j as u64))).collect();
            PrivateKeyShare::aggregate(&received, j)
        })
        .collect();
    let a0: Vec<G1Point> = polynomials.iter().map(|p| p.commitments()[0]).collect();
    let pk = AuditPublicKey::aggregate(&a0);
    let sym = Fe::from_u64(424242);
    let c = EncryptedAuditKey::encrypt(&pk, sym);
    let four: Vec<DecryptionShare> = [0usize, 1, 3, 4].iter().map(|&i| c.decrypt_share(&private_shares[i])).collect();
    assert_eq!(c.decrypt(&four).unwrap(), sym);
    let three: Vec<DecryptionShare> = [0usize, 1, 3].iter().map(|&i| c.decrypt_share(&private_shares[i])).collect();
    assert_ne!(c.decrypt(&three).unwrap(), sym);
}
