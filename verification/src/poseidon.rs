//! Poseidon hashing over the BN254 scalar field (circomlib parameters).
use vstd::prelude::*;
use crate::field::Fe;
use ark_bn254::Fr;
use ark_ff::{BigInt, PrimeField};
use scalarff::{Bn128FieldElement, FieldElement};

verus! {

/// The circomlib-compatible Poseidon hash of two field elements.
pub uninterp spec fn poseidon2_spec(a: Fe, b: Fe) -> Fe;

/// The circomlib-compatible Poseidon hash of three field elements.
pub uninterp spec fn poseidon3_spec(a: Fe, b: Fe, c: Fe) -> Fe;

/// `poseidon_bn128::poseidon(2, ..)` on two canonical elements: the named
/// hash, itself canonical.
#[verifier::external_body]
pub fn poseidon_hash_2(inputs: [Fe; 2]) -> (h: Fe)
    requires
        inputs[0].wf(),
        inputs[1].wf(),
    ensures
        h == poseidon2_spec(inputs[0], inputs[1]),
        h.wf(),
{
    let a = Fr::from_bigint(BigInt::new(inputs[0].limbs())).unwrap();
    let b = Fr::from_bigint(BigInt::new(inputs[1].limbs())).unwrap();
    let v = vec![Bn128FieldElement::from_biguint(&a.into()), Bn128FieldElement::from_biguint(&b.into())];
    let res = poseidon_bn128::poseidon(2, &v).expect("Poseidon hash failed");
    Fe::from_limbs(Fr::from(res.to_biguint()).into_bigint().0)
}

/// `poseidon_bn128::poseidon(3, ..)` on three canonical elements: the named
/// hash, itself canonical.
#[verifier::external_body]
pub fn poseidon_hash_3(inputs: [Fe; 3]) -> (h: Fe)
    requires
        inputs[0].wf(),
        inputs[1].wf(),
        inputs[2].wf(),
    ensures
        h == poseidon3_spec(inputs[0], inputs[1], inputs[2]),
        h.wf(),
{
    let a = Fr::from_bigint(BigInt::new(inputs[0].limbs())).unwrap();
    let b = Fr::from_bigint(BigInt::new(inputs[1].limbs())).unwrap();
    let c = Fr::from_bigint(BigInt::new(inputs[2].limbs())).unwrap();
    let v = vec![Bn128FieldElement::from_biguint(&a.into()), Bn128FieldElement::from_biguint(&b.into()),
        Bn128FieldElement::from_biguint(&c.into())];
    let res = poseidon_bn128::poseidon(3, &v).expect("Poseidon hash failed");
    Fe::from_limbs(Fr::from(res.to_biguint()).into_bigint().0)
}

} // verus!
