use privacy_stablecoin::joinsplit::{CircuitError, JoinSplitCircuit, PrivateInputs, PublicInputs};
use privacy_stablecoin::merkle::MerkleTree;
use privacy_stablecoin::note::{random_field_element, Note};

/// A complete, valid JoinSplit: 500 + 300 in, 400 + 350 out, fee 50.
fn create_valid_joinsplit() -> JoinSplitCircuit {
    let in_secret_1 = random_field_element();
    let in_blinding_1 = random_field_element();
    let in_note_1 = Note::new(500, in_secret_1, in_blinding_1);

    let in_secret_2 = random_field_element();
    let in_blinding_2 = random_field_element();
    let in_note_2 = Note::new(300, in_secret_2, in_blinding_2);

    let mut tree = MerkleTree::new(4);
    let commitment_1 = in_note_1.commitment();
    let commitment_2 = in_note_2.commitment();
    let idx_1 = tree.insert(commitment_1);
    let idx_2 = tree.insert(commitment_2);

    let merkle_root = tree.root();
    let path_1 = tree.get_path(idx_1);
    let path_2 = tree.get_path(idx_2);

    let out_secret_1 = random_field_element();
    let out_blinding_1 = random_field_element();
    let out_note_1 = Note::new(400, out_secret_1, out_blinding_1);

    let out_secret_2 = random_field_element();
    let out_blinding_2 = random_field_element();
    let out_note_2 = Note::new(350, out_secret_2, out_blinding_2);

    let public_inputs = PublicInputs {
        merkle_root,
        nullifier_1: in_note_1.nullifier(idx_1 as u64),
        nullifier_2: in_note_2.nullifier(idx_2 as u64),
        commitment_1: out_note_1.commitment(),
        commitment_2: out_note_2.commitment(),
        public_amount: 0,
        fee: 50,
    };

    let private_inputs = PrivateInputs {
        in_amount_1: 500,
        in_secret_1,
        in_blinding_1,
        in_path_1: path_1,
        in_leaf_index_1: idx_1 as u64,

        in_amount_2: 300,
        in_secret_2,
        in_blinding_2,
        in_path_2: path_2,
        in_leaf_index_2: idx_2 as u64,

        out_amount_1: 400,
        out_secret_1,
        out_blinding_1,

        out_amount_2: 350,
        out_secret_2,
        out_blinding_2,
    };

    JoinSplitCircuit::new(public_inputs, private_inputs)
}

#[test]
fn test_valid_joinsplit() {
    let circuit = create_valid_joinsplit();
    assert!(circuit.verify_constraints().is_ok());
}

#[test]
fn test_invalid_balance() {
    let mut circuit = create_valid_joinsplit();
    // break conservation of value
    circuit.private_inputs.out_amount_1 = 999;

    let result = circuit.verify_constraints();
    assert!(matches!(result, Err(CircuitError::BalanceNotConserved { .. })));
}

#[test]
fn balance_error_reports_both_sums() {
    let mut circuit = create_valid_joinsplit();
    circuit.private_inputs.out_amount_1 = 999;
    assert_eq!(
        circuit.verify_constraints(),
        Err(CircuitError::BalanceNotConserved { input_sum: 800, output_sum: 1399 })
    );
}

#[test]
fn withdrawal_with_negative_public_amount_balances() {
    let mut circuit = create_valid_joinsplit();
    // 500 + 300 - 100 = 400 + 250 + 50
    circuit.public_inputs.public_amount = -100;
    circuit.private_inputs.out_amount_2 = 250;
    // the second output commitment no longer matches the note
    assert_eq!(circuit.verify_constraints(), Err(CircuitError::InvalidCommitment { output_index: 2 }));
}

#[test]
fn wrong_root_is_an_invalid_path_for_the_first_input() {
    let mut circuit = create_valid_joinsplit();
    circuit.public_inputs.merkle_root = random_field_element();
    assert_eq!(circuit.verify_constraints(), Err(CircuitError::InvalidMerklePath { input_index: 1 }));
}

#[test]
fn wrong_second_path_is_reported() {
    let mut circuit = create_valid_joinsplit();
    circuit.private_inputs.in_path_2 = circuit.private_inputs.in_path_1.clone();
    assert_eq!(circuit.verify_constraints(), Err(CircuitError::InvalidMerklePath { input_index: 2 }));
}

#[test]
fn wrong_nullifiers_are_reported_in_order() {
    let mut circuit = create_valid_joinsplit();
    let n1 = circuit.public_inputs.nullifier_1;
    circuit.public_inputs.nullifier_1 = circuit.public_inputs.nullifier_2;
    assert_eq!(circuit.verify_constraints(), Err(CircuitError::InvalidNullifier { input_index: 1 }));
    circuit.public_inputs.nullifier_2 = n1;
    circuit.public_inputs.nullifier_1 = n1;
    assert_eq!(circuit.verify_constraints(), Err(CircuitError::InvalidNullifier { input_index: 2 }));
}

#[test]
fn wrong_first_output_commitment_is_reported() {
    let mut circuit = create_valid_joinsplit();
    circuit.private_inputs.out_blinding_1 = random_field_element();
    assert_eq!(circuit.verify_constraints(), Err(CircuitError::InvalidCommitment { output_index: 1 }));
}

#[test]
fn leaf_index_not_encoded_by_the_path_is_an_invalid_path() {
    let mut circuit = create_valid_joinsplit();
    // the same note claimed at another position, with the matching nullifier
    let p = &circuit.private_inputs;
    let note = Note::new(p.in_amount_1, p.in_secret_1, p.in_blinding_1);
    circuit.private_inputs.in_leaf_index_1 = 5;
    circuit.public_inputs.nullifier_1 = note.nullifier(5);
    assert_eq!(circuit.verify_constraints(), Err(CircuitError::InvalidMerklePath { input_index: 1 }));
    let mut circuit = create_valid_joinsplit();
    let p = &circuit.private_inputs;
    let note = Note::new(p.in_amount_2, p.in_secret_2, p.in_blinding_2);
    circuit.private_inputs.in_leaf_index_2 = 17;
    circuit.public_inputs.nullifier_2 = note.nullifier(17);
    assert_eq!(circuit.verify_constraints(), Err(CircuitError::InvalidMerklePath { input_index: 2 }));
}

#[test]
fn path_bits_encode_their_position() {
    let mut tree = MerkleTree::new(3);
    for v in 1..=6u64 {
        tree.insert(privacy_stablecoin::field::Fe::from_u64(v));
    }
    for i in 0..8usize {
        let path = tree.get_path(i);
        assert!(path.encodes_position(i as u64));
        assert!(!path.encodes_position(i as u64 + 8));
    }
}
