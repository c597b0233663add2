//! The JoinSplit transfer: its public and private inputs and a local check
//! of the circuit's constraints.
use vstd::prelude::*;
use crate::field::{fe_of_u64, Fe};
use crate::poseidon::{poseidon2_spec, poseidon3_spec};
use crate::merkle::{lemma_path_leads_to_root, lemma_position_of_bits, leaf_at, path_position, path_root, two_pow, MerklePath, MerkleTree};
use crate::note::{note_commitment, note_nullifier, Note};

verus! {

/// The public inputs of a JoinSplit transfer.
#[derive(Clone, Debug)]
pub struct PublicInputs {
    pub merkle_root: Fe,
    pub nullifier_1: Fe,
    pub nullifier_2: Fe,
    pub commitment_1: Fe,
    pub commitment_2: Fe,
    /// Positive for a deposit, negative for a withdrawal.
    pub public_amount: i64,
    /// The relayer's fee.
    pub fee: u64,
}

/// The private inputs (witness) of a JoinSplit transfer: two input notes
/// with their Merkle paths and leaf indices, and two output notes.
#[derive(Clone, Debug)]
pub struct PrivateInputs {
    pub in_amount_1: u64,
    pub in_secret_1: Fe,
    pub in_blinding_1: Fe,
    pub in_path_1: MerklePath,
    pub in_leaf_index_1: u64,
    pub in_amount_2: u64,
    pub in_secret_2: Fe,
    pub in_blinding_2: Fe,
    pub in_path_2: MerklePath,
    pub in_leaf_index_2: u64,
    pub out_amount_1: u64,
    pub out_secret_1: Fe,
    pub out_blinding_1: Fe,
    pub out_amount_2: u64,
    pub out_secret_2: Fe,
    pub out_blinding_2: Fe,
}

/// A JoinSplit circuit instance.
pub struct JoinSplitCircuit {
    pub public_inputs: PublicInputs,
    pub private_inputs: PrivateInputs,
}

/// Which constraint of the circuit fails.
#[derive(Clone, Debug, PartialEq, Eq, Structural)]
pub enum CircuitError {
    BalanceNotConserved { input_sum: i128, output_sum: i128 },
    InvalidMerklePath { input_index: usize },
    InvalidNullifier { input_index: usize },
    InvalidCommitment { output_index: usize },
}

impl PublicInputs {
    /// Canonical field elements.
    pub open spec fn wf(&self) -> bool {
        &&& self.merkle_root.wf()
        &&& self.nullifier_1.wf()
        &&& self.nullifier_2.wf()
        &&& self.commitment_1.wf()
        &&& self.commitment_2.wf()
    }
}

impl PrivateInputs {
    /// Canonical field elements and paths.
    pub open spec fn wf(&self) -> bool {
        &&& self.in_secret_1.wf()
        &&& self.in_blinding_1.wf()
        &&& self.in_path_1.wf()
        &&& self.in_secret_2.wf()
        &&& self.in_blinding_2.wf()
        &&& self.in_path_2.wf()
        &&& self.out_secret_1.wf()
        &&& self.out_blinding_1.wf()
        &&& self.out_secret_2.wf()
        &&& self.out_blinding_2.wf()
    }
}

impl JoinSplitCircuit {
    /// Canonical inputs.
    pub open spec fn wf(&self) -> bool {
        self.public_inputs.wf() && self.private_inputs.wf()
    }

    /// What goes in: both input amounts and the public amount.
    pub open spec fn input_sum(&self) -> int {
        self.private_inputs.in_amount_1 + self.private_inputs.in_amount_2 + self.public_inputs.public_amount
    }

    /// What goes out: both output amounts and the fee.
    pub open spec fn output_sum(&self) -> int {
        self.private_inputs.out_amount_1 + self.private_inputs.out_amount_2 + self.public_inputs.fee
    }

    /// Constraint 1: value is conserved.
    pub open spec fn balance_ok(&self) -> bool {
        self.input_sum() == self.output_sum()
    }

    /// Constraint 2: the first input note's commitment is in the tree at
    /// its leaf index: the path's bits encode that index, and the path leads
    /// from the commitment to the root (so a note has one position, and one
    /// nullifier).
    pub open spec fn membership_1_ok(&self) -> bool {
        let p = self.private_inputs;
        &&& path_position(p.in_path_1.path_indices@) == p.in_leaf_index_1
        &&& path_root(p.in_path_1.siblings@, p.in_path_1.path_indices@,
            note_commitment(p.in_amount_1, p.in_secret_1, p.in_blinding_1)) == self.public_inputs.merkle_root
    }

    /// Constraint 3: the second input note's commitment is in the tree at
    /// its leaf index: the path's bits encode that index, and the path leads
    /// from the commitment to the root (so a note has one position, and one
    /// nullifier).
    pub open spec fn membership_2_ok(&self) -> bool {
        let p = self.private_inputs;
        &&& path_position(p.in_path_2.path_indices@) == p.in_leaf_index_2
        &&& path_root(p.in_path_2.siblings@, p.in_path_2.path_indices@,
            note_commitment(p.in_amount_2, p.in_secret_2, p.in_blinding_2)) == self.public_inputs.merkle_root
    }

    /// Constraint 4: the first nullifier is that of the first input note.
    pub open spec fn nullifier_1_ok(&self) -> bool {
        note_nullifier(self.private_inputs.in_secret_1, self.private_inputs.in_leaf_index_1)
            == self.public_inputs.nullifier_1
    }

    /// Constraint 5: the second nullifier is that of the second input note.
    pub open spec fn nullifier_2_ok(&self) -> bool {
        note_nullifier(self.private_inputs.in_secret_2, self.private_inputs.in_leaf_index_2)
            == self.public_inputs.nullifier_2
    }

    /// Constraint 6: the first output commitment is that of the first output note.
    pub open spec fn commitment_1_ok(&self) -> bool {
        let p = self.private_inputs;
        note_commitment(p.out_amount_1, p.out_secret_1, p.out_blinding_1) == self.public_inputs.commitment_1
    }

    /// Constraint 7: the second output commitment is that of the second output note.
    pub open spec fn commitment_2_ok(&self) -> bool {
        let p = self.private_inputs;
        note_commitment(p.out_amount_2, p.out_secret_2, p.out_blinding_2) == self.public_inputs.commitment_2
    }

    /// The outcome of checking the constraints in order: the first that
    /// fails, or success.
    pub open spec fn constraints_result(&self) -> Result<(), CircuitError> {
        if !self.balance_ok() {
            Err(CircuitError::BalanceNotConserved {
                input_sum: self.input_sum() as i128,
                output_sum: self.output_sum() as i128,
            })
        } else if !self.membership_1_ok() {
            Err(CircuitError::InvalidMerklePath { input_index: 1 })
        } else if !self.membership_2_ok() {
            Err(CircuitError::InvalidMerklePath { input_index: 2 })
        } else if !self.nullifier_1_ok() {
            Err(CircuitError::InvalidNullifier { input_index: 1 })
        } else if !self.nullifier_2_ok() {
            Err(CircuitError::InvalidNullifier { input_index: 2 })
        } else if !self.commitment_1_ok() {
            Err(CircuitError::InvalidCommitment { output_index: 1 })
        } else if !self.commitment_2_ok() {
            Err(CircuitError::InvalidCommitment { output_index: 2 })
        } else {
            Ok(())
        }
    }

    /// A circuit instance of the given inputs.
    pub fn new(public_inputs: PublicInputs, private_inputs: PrivateInputs) -> (c: JoinSplitCircuit)
        ensures
            c.public_inputs == public_inputs,
            c.private_inputs == private_inputs,
    {
        JoinSplitCircuit { public_inputs, private_inputs }
    }

    /// Checks the constraints locally, without a proof: balance, both Merkle
    /// memberships, both nullifiers, both output commitments, in that order.
    pub fn verify_constraints(&self) -> (res: Result<(), CircuitError>)
        requires
            self.wf(),
        ensures
            res == self.constraints_result(),
            res is Ok <==> (self.balance_ok() && self.membership_1_ok() && self.membership_2_ok()
                && self.nullifier_1_ok() && self.nullifier_2_ok() && self.commitment_1_ok()
                && self.commitment_2_ok()),
            res is Ok ==> accepted_relations(self.public_inputs, self.private_inputs),
            unbalanced(self.public_inputs, self.private_inputs) ==> res == unbalanced_error(
                self.public_inputs, self.private_inputs),
    {
        proof {
            lemma_accepted_transfer(*self);
            lemma_unbalanced_rejected(*self);
        }
        self.verify_balance_conservation()?;
        self.verify_merkle_membership_1()?;
        self.verify_merkle_membership_2()?;
        self.verify_nullifier_1()?;
        self.verify_nullifier_2()?;
        self.verify_commitment_1()?;
        self.verify_commitment_2()?;
        Ok(())
    }

    fn verify_balance_conservation(&self) -> (res: Result<(), CircuitError>)
        ensures
            res is Ok <==> self.balance_ok(),
            res is Err ==> res == Err::<(), CircuitError>(CircuitError::BalanceNotConserved {
                input_sum: self.input_sum() as i128,
                output_sum: self.output_sum() as i128,
            }),
    {
        let input_sum = self.private_inputs.in_amount_1 as i128 + self.private_inputs.in_amount_2 as i128
            + self.public_inputs.public_amount as i128;
        let output_sum = self.private_inputs.out_amount_1 as i128 + self.private_inputs.out_amount_2 as i128
            + self.public_inputs.fee as i128;
        if input_sum != output_sum {
            return Err(CircuitError::BalanceNotConserved { input_sum, output_sum });
        }
        Ok(())
    }

    fn verify_merkle_membership_1(&self) -> (res: Result<(), CircuitError>)
        requires
            self.wf(),
        ensures
            res is Ok <==> self.membership_1_ok(),
            res is Err ==> res == Err::<(), CircuitError>(CircuitError::InvalidMerklePath { input_index: 1 }),
    {
        let note = Note::new(self.private_inputs.in_amount_1, self.private_inputs.in_secret_1,
            self.private_inputs.in_blinding_1);
        let commitment = note.commitment();
        if !self.private_inputs.in_path_1.encodes_position(self.private_inputs.in_leaf_index_1)
            || !self.private_inputs.in_path_1.verify(&commitment, &self.public_inputs.merkle_root) {
            return Err(CircuitError::InvalidMerklePath { input_index: 1 });
        }
        Ok(())
    }

    fn verify_merkle_membership_2(&self) -> (res: Result<(), CircuitError>)
        requires
            self.wf(),
        ensures
            res is Ok <==> self.membership_2_ok(),
            res is Err ==> res == Err::<(), CircuitError>(CircuitError::InvalidMerklePath { input_index: 2 }),
    {
        let note = Note::new(self.private_inputs.in_amount_2, self.private_inputs.in_secret_2,
            self.private_inputs.in_blinding_2);
        let commitment = note.commitment();
        if !self.private_inputs.in_path_2.encodes_position(self.private_inputs.in_leaf_index_2)
            || !self.private_inputs.in_path_2.verify(&commitment, &self.public_inputs.merkle_root) {
            return Err(CircuitError::InvalidMerklePath { input_index: 2 });
        }
        Ok(())
    }

    fn verify_nullifier_1(&self) -> (res: Result<(), CircuitError>)
        requires
            self.wf(),
        ensures
            res is Ok <==> self.nullifier_1_ok(),
            res is Err ==> res == Err::<(), CircuitError>(CircuitError::InvalidNullifier { input_index: 1 }),
    {
        let note = Note::new(self.private_inputs.in_amount_1, self.private_inputs.in_secret_1,
            self.private_inputs.in_blinding_1);
        let expected_nullifier = note.nullifier(self.private_inputs.in_leaf_index_1);
        if expected_nullifier != self.public_inputs.nullifier_1 {
            return Err(CircuitError::InvalidNullifier { input_index: 1 });
        }
        Ok(())
    }

    fn verify_nullifier_2(&self) -> (res: Result<(), CircuitError>)
        requires
            self.wf(),
        ensures
            res is Ok <==> self.nullifier_2_ok(),
            res is Err ==> res == Err::<(), CircuitError>(CircuitError::InvalidNullifier { input_index: 2 }),
    {
        let note = Note::new(self.private_inputs.in_amount_2, self.private_inputs.in_secret_2,
            self.private_inputs.in_blinding_2);
        let expected_nullifier = note.nullifier(self.private_inputs.in_leaf_index_2);
        if expected_nullifier != self.public_inputs.nullifier_2 {
            return Err(CircuitError::InvalidNullifier { input_index: 2 });
        }
        Ok(())
    }

    fn verify_commitment_1(&self) -> (res: Result<(), CircuitError>)
        requires
            self.wf(),
        ensures
            res is Ok <==> self.commitment_1_ok(),
            res is Err ==> res == Err::<(), CircuitError>(CircuitError::InvalidCommitment { output_index: 1 }),
    {
        let note = Note::new(self.private_inputs.out_amount_1, self.private_inputs.out_secret_1,
            self.private_inputs.out_blinding_1);
        let expected_commitment = note.commitment();
        if expected_commitment != self.public_inputs.commitment_1 {
            return Err(CircuitError::InvalidCommitment { output_index: 1 });
        }
        Ok(())
    }

    fn verify_commitment_2(&self) -> (res: Result<(), CircuitError>)
        requires
            self.wf(),
        ensures
            res is Ok <==> self.commitment_2_ok(),
            res is Err ==> res == Err::<(), CircuitError>(CircuitError::InvalidCommitment { output_index: 2 }),
    {
        let note = Note::new(self.private_inputs.out_amount_2, self.private_inputs.out_secret_2,
            self.private_inputs.out_blinding_2);
        let expected_commitment = note.commitment();
        if expected_commitment != self.public_inputs.commitment_2 {
            return Err(CircuitError::InvalidCommitment { output_index: 2 });
        }
        Ok(())
    }
}

/// An honest transfer passes: when both input notes' commitments sit in a
/// tree at their leaf indices, their paths are the tree's paths, the root is
/// the tree's root, the nullifiers and output commitments are those of the
/// notes, and value is conserved, `verify_constraints` returns `Ok`.
pub proof fn lemma_honest_transfer_accepted(tree: MerkleTree, circuit: JoinSplitCircuit)
    requires
        tree.wf(),
        circuit.wf(),
        circuit.private_inputs.in_leaf_index_1 < two_pow(tree.height_spec()),
        circuit.private_inputs.in_leaf_index_2 < two_pow(tree.height_spec()),
        leaf_at(tree.leaves_spec(), circuit.private_inputs.in_leaf_index_1 as nat) == note_commitment(
            circuit.private_inputs.in_amount_1, circuit.private_inputs.in_secret_1, circuit.private_inputs.in_blinding_1),
        leaf_at(tree.leaves_spec(), circuit.private_inputs.in_leaf_index_2 as nat) == note_commitment(
            circuit.private_inputs.in_amount_2, circuit.private_inputs.in_secret_2, circuit.private_inputs.in_blinding_2),
        circuit.private_inputs.in_path_1.siblings@ == tree.path_siblings(circuit.private_inputs.in_leaf_index_1 as nat),
        circuit.private_inputs.in_path_1.path_indices@ == tree.path_indices(circuit.private_inputs.in_leaf_index_1 as nat),
        circuit.private_inputs.in_path_2.siblings@ == tree.path_siblings(circuit.private_inputs.in_leaf_index_2 as nat),
        circuit.private_inputs.in_path_2.path_indices@ == tree.path_indices(circuit.private_inputs.in_leaf_index_2 as nat),
        circuit.public_inputs.merkle_root == tree.root_spec(),
        circuit.public_inputs.nullifier_1 == note_nullifier(circuit.private_inputs.in_secret_1, circuit.private_inputs.in_leaf_index_1),
        circuit.public_inputs.nullifier_2 == note_nullifier(circuit.private_inputs.in_secret_2, circuit.private_inputs.in_leaf_index_2),
        circuit.public_inputs.commitment_1 == note_commitment(
            circuit.private_inputs.out_amount_1, circuit.private_inputs.out_secret_1, circuit.private_inputs.out_blinding_1),
        circuit.public_inputs.commitment_2 == note_commitment(
            circuit.private_inputs.out_amount_2, circuit.private_inputs.out_secret_2, circuit.private_inputs.out_blinding_2),
        circuit.balance_ok(),
    ensures
        circuit.constraints_result() is Ok,
{
    lemma_path_leads_to_root(tree, circuit.private_inputs.in_leaf_index_1 as nat);
    lemma_path_leads_to_root(tree, circuit.private_inputs.in_leaf_index_2 as nat);
    lemma_position_of_bits(circuit.private_inputs.in_leaf_index_1 as nat, tree.height_spec());
    lemma_position_of_bits(circuit.private_inputs.in_leaf_index_2 as nat, tree.height_spec());
}

/// One note, one nullifier: two transfers that both pass and spend a note
/// with the same secret through the same path bits (so at the same tree
/// position) publish the same nullifier for it, for either input.
pub proof fn lemma_one_nullifier_per_note(c1: JoinSplitCircuit, c2: JoinSplitCircuit)
    requires
        c1.constraints_result() is Ok,
        c2.constraints_result() is Ok,
    ensures
        c1.private_inputs.in_secret_1 == c2.private_inputs.in_secret_1
            && c1.private_inputs.in_path_1.path_indices@ == c2.private_inputs.in_path_1.path_indices@
            ==> c1.public_inputs.nullifier_1 == c2.public_inputs.nullifier_1,
        c1.private_inputs.in_secret_2 == c2.private_inputs.in_secret_2
            && c1.private_inputs.in_path_2.path_indices@ == c2.private_inputs.in_path_2.path_indices@
            ==> c1.public_inputs.nullifier_2 == c2.public_inputs.nullifier_2,
{
}

/// What an accepted transfer satisfies, stated on its fields: the amounts
/// in (both input notes and the public amount) equal the amounts out (both
/// output notes and the fee); each output commitment is Poseidon(amount,
/// secret, blinding) of its note, whatever the amount (zero included); each
/// nullifier is Poseidon(secret, leaf index) of its input note.
pub open spec fn accepted_relations(q: PublicInputs, p: PrivateInputs) -> bool {
    &&& p.in_amount_1 + p.in_amount_2 + q.public_amount == p.out_amount_1 + p.out_amount_2 + q.fee
    &&& q.commitment_1 == poseidon3_spec(fe_of_u64(p.out_amount_1), p.out_secret_1, p.out_blinding_1)
    &&& q.commitment_2 == poseidon3_spec(fe_of_u64(p.out_amount_2), p.out_secret_2, p.out_blinding_2)
    &&& q.nullifier_1 == poseidon2_spec(p.in_secret_1, fe_of_u64(p.in_leaf_index_1))
    &&& q.nullifier_2 == poseidon2_spec(p.in_secret_2, fe_of_u64(p.in_leaf_index_2))
}

/// The amounts in and out differ, in either direction.
pub open spec fn unbalanced(q: PublicInputs, p: PrivateInputs) -> bool {
    p.in_amount_1 + p.in_amount_2 + q.public_amount != p.out_amount_1 + p.out_amount_2 + q.fee
}

/// The refusal of an unbalanced transfer, with both sums.
pub open spec fn unbalanced_error(q: PublicInputs, p: PrivateInputs) -> Result<(), CircuitError> {
    Err(CircuitError::BalanceNotConserved {
        input_sum: (p.in_amount_1 + p.in_amount_2 + q.public_amount) as i128,
        output_sum: (p.out_amount_1 + p.out_amount_2 + q.fee) as i128,
    })
}

/// An accepted transfer conserves value exactly and publishes the
/// commitments of its output notes and the nullifiers of its input notes.
pub proof fn lemma_accepted_transfer(c: JoinSplitCircuit)
    ensures
        c.constraints_result() is Ok ==> accepted_relations(c.public_inputs, c.private_inputs),
{
}

/// A transfer whose amounts in and out differ, by any amount and in either
/// direction, is refused first of all, as unbalanced, with both sums.
pub proof fn lemma_unbalanced_rejected(c: JoinSplitCircuit)
    ensures
        unbalanced(c.public_inputs, c.private_inputs)
            ==> c.constraints_result() == unbalanced_error(c.public_inputs, c.private_inputs),
{
}

} // verus!
