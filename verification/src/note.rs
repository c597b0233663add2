//! Notes: the shielded units of value, with their commitments and nullifiers.
use vstd::prelude::*;
use crate::field::{decimal_digits, decimal_value, fe_from_decimal, fe_of_u64, fe_to_decimal, is_canonical_decimal, modulus_r, Fe};
use crate::encoding::decimal_text;
use crate::poseidon::{poseidon2_spec, poseidon3_spec, poseidon_hash_2, poseidon_hash_3};
pub use crate::field::random_field_element;

verus! {

/// The field element type that notes and trees are built from.
pub type FE = Fe;

/// A note: an amount, the owner's secret and a blinding factor.
#[derive(Clone, Copy, Debug, PartialEq, Eq, Structural)]
pub struct Note {
    pub amount: u64,
    pub secret: Fe,
    pub blinding: Fe,
}

/// The commitment of a note: Poseidon(amount, secret, blinding).
pub open spec fn note_commitment(amount: u64, secret: Fe, blinding: Fe) -> Fe {
    poseidon3_spec(fe_of_u64(amount), secret, blinding)
}

/// The nullifier of a note's secret at a leaf index: Poseidon(secret, index).
pub open spec fn note_nullifier(secret: Fe, leaf_index: u64) -> Fe {
    poseidon2_spec(secret, fe_of_u64(leaf_index))
}

impl Note {
    /// Canonical secret and blinding factor.
    pub open spec fn wf(self) -> bool {
        self.secret.wf() && self.blinding.wf()
    }

    /// The note with the given fields.
    pub fn new(amount: u64, secret: Fe, blinding: Fe) -> (n: Note)
        ensures
            n == (Note { amount, secret, blinding }),
    {
        Note { amount, secret, blinding }
    }

    /// The commitment Poseidon(amount, secret, blinding).
    pub fn commitment(&self) -> (c: Fe)
        requires
            self.wf(),
        ensures
            c == note_commitment(self.amount, self.secret, self.blinding),
            c.wf(),
    {
        let amount_fe = Fe::from_u64(self.amount);
        poseidon_hash_3([amount_fe, self.secret, self.blinding])
    }

    /// The nullifier Poseidon(secret, leaf_index), which marks the note at
    /// that leaf as spent.
    pub fn nullifier(&self, leaf_index: u64) -> (n: Fe)
        requires
            self.secret.wf(),
        ensures
            n == note_nullifier(self.secret, leaf_index),
            n.wf(),
    {
        let index_fe = Fe::from_u64(leaf_index);
        poseidon_hash_2([self.secret, index_fe])
    }
}

/// The decimal text of a field element, the circuit's input format: its
/// digits without leading zeroes, and `0` for zero.
pub fn fe_to_string(fe: &Fe) -> (s: String)
    requires
        fe.wf(),
    ensures
        s@ == decimal_text(fe.value()),
{
    if fe.is_zero() {
        proof {
            reveal_strlit("0");
        }
        String::from_str("0")
    } else {
        fe_to_decimal(fe)
    }
}

/// Parses the decimal text of a field element: digits only, no leading zero
/// (except `0` itself), read modulo r.
pub fn string_to_fe(s: &str) -> (res: Result<Fe, String>)
    ensures
        res is Ok <==> is_canonical_decimal(s@),
        res matches Ok(f) ==> f.wf() && f.value() == decimal_value(s@) % modulus_r(),
        res matches Err(m) ==> m@ == "FieldElement parse error"@,
{
    match fe_from_decimal(s) {
        Ok(f) => Ok(f),
        Err(()) => Err("FieldElement parse error".to_owned()),
    }
}

/// A note's commitment depends on nothing but its fields: equal notes have
/// equal commitments.
pub proof fn lemma_commitment_deterministic(a: Note, b: Note)
    requires
        a == b,
    ensures
        note_commitment(a.amount, a.secret, a.blinding) == note_commitment(b.amount, b.secret, b.blinding),
{
}

/// The decimal text of an element reads back as that element.
pub proof fn lemma_fe_text_roundtrip(f: Fe)
    requires
        f.wf(),
    ensures
        is_canonical_decimal(decimal_text(f.value())),
        decimal_value(decimal_text(f.value())) % modulus_r() == f.value(),
{
    lemma_decimal_digits(f.value());
    vstd::arithmetic::div_mod::lemma_small_mod(f.value(), modulus_r());
    if f.value() == 0 {
        let z = seq!['0'];
        assert(z.drop_last() =~= Seq::<char>::empty());
        assert(decimal_value(z) == decimal_value(z.drop_last()) * 10 + (z.last() as int - 48));
    }
}

/// The decimal digits of `n` are digits, read back as `n`, and (for `n`
/// above zero) do not start with a zero.
proof fn lemma_decimal_digits(n: nat)
    ensures
        forall|i: int| 0 <= i < decimal_digits(n).len() ==> crate::field::is_digit(#[trigger] decimal_digits(n)[i]),
        decimal_value(decimal_digits(n)) == n,
        n > 0 ==> decimal_digits(n).len() > 0 && decimal_digits(n)[0] != '0',
    decreases n,
{
    if n > 0 {
        lemma_decimal_digits(n / 10);
        let s = decimal_digits(n);
        let prev = decimal_digits(n / 10);
        assert(s == prev.push(crate::field::digit_char((n % 10) as nat)));
        assert(s.drop_last() =~= prev);
        assert(forall|i: int| 0 <= i < prev.len() ==> s[i] == prev[i]);
        assert(s.last() as int == 48 + n % 10);
    }
}

} // verus!
