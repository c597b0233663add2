//! How distributed key generation meets threshold decryption.
use vstd::prelude::*;
use crate::audit::{fe_sum, int_sum, shares_from_polynomial, DecryptionShare, EncryptedAuditKey};
use crate::curve::gen_mul;
use crate::field::{modulus_r, Fe};
use crate::lagrange::{joint_polynomial, lemma_aggregated_share, lemma_joint_secret, poly_eval};

verus! {

/// Distributed key generation feeds threshold decryption: when each share
/// is D_j = rr · sk_j · G for the node's key share sk_j, the sum of what the
/// node received from every node (each node's polynomial at j, modulo r),
/// the shares are those of the joint polynomial, so `decrypt` recovers the
/// key (its recovery clause) from enough shares of distinct nodes; and the
/// joint secret is the sum of the nodes' constant terms (`lemma_joint_secret`),
/// whose commitments `AuditPublicKey::aggregate` sums to the joint key.
pub proof fn lemma_dkg_shares_fit_joint_polynomial(
    shares: Seq<DecryptionShare>,
    received: Seq<Seq<Fe>>,
    polys: Seq<Seq<int>>,
    t: nat,
    rr: int,
)
    requires
        forall|i: int| 0 <= i < polys.len() ==> (#[trigger] polys[i]).len() == t,
        received.len() == shares.len(),
        forall|j: int| 0 <= j < received.len() ==> (#[trigger] received[j]).len() == polys.len(),
        forall|j: int, i: int| 0 <= j < received.len() && 0 <= i < polys.len()
            ==> #[trigger] received[j][i].value() == poly_eval(polys[i], shares[j].node_id as int) % (modulus_r() as int),
        forall|j: int| 0 <= j < shares.len()
            ==> #[trigger] shares[j].share_point == gen_mul(rr * (fe_sum(received[j]) % (modulus_r() as int))),
    ensures
        shares_from_polynomial(shares, joint_polynomial(polys, t), rr),
{
    let r = modulus_r() as int;
    let joint = joint_polynomial(polys, t);
    assert forall|j: int| 0 <= j < shares.len() implies #[trigger] shares[j].share_point
        == gen_mul(rr * poly_eval(joint, shares[j].node_id as int)) by {
        let x = shares[j].node_id as int;
        let rec = received[j];
        assert forall|i: int| 0 <= i < rec.len() implies #[trigger] rec[i].value() == poly_eval(polys[i], x) % r by {
            assert(received[j][i].value() == poly_eval(polys[i], x) % r);
        }
        lemma_aggregated_share(rec, polys, t, x);
        let sk = fe_sum(rec) % r;
        let v = poly_eval(joint, x);
        vstd::arithmetic::div_mod::lemma_mod_twice(fe_sum(rec), r);
        vstd::arithmetic::div_mod::lemma_mul_mod_noop_right(rr, sk, r);
        vstd::arithmetic::div_mod::lemma_mul_mod_noop_right(rr, v, r);
        assert((rr * sk) % r == (rr * v) % r);
    }
}

/// The whole flow of distributed key generation, encryption and partial
/// decryption meets the recovery clause of `EncryptedAuditKey::decrypt`:
/// - the nodes' polynomials have `t > 0` coefficients each, and the joint key
///   is (Σ_i a_{i,0})·G, as `AuditPublicKey::aggregate` gives it from the
///   constant-term commitments that `DkgPolynomial::commitments` makes;
/// - `c` encrypts `sym` with ephemeral scalar `rr` under every secret behind
///   that key, as `EncryptedAuditKey::encrypt` ensures;
/// - each share is rr·sk_j·G for node j's aggregated key share sk_j, as
///   `decrypt_share` gives it when R = rr·G;
/// then `c` encrypts `sym` under the joint polynomial's value at zero and the
/// shares are that polynomial's, so `decrypt` returns `sym` for at least
/// three (and at least `t`) shares of distinct nodes.
pub proof fn lemma_dkg_flow_meets_recovery(
    c: EncryptedAuditKey,
    pk: crate::curve::G1Point,
    sym: Fe,
    shares: Seq<DecryptionShare>,
    received: Seq<Seq<Fe>>,
    polys: Seq<Seq<int>>,
    t: nat,
    rr: int,
)
    requires
        t > 0,
        forall|i: int| 0 <= i < polys.len() ==> (#[trigger] polys[i]).len() == t,
        pk == gen_mul(int_sum(polys.map_values(|p: Seq<int>| p[0]))),
        forall|s: int| #[trigger] gen_mul(s) == pk ==> c.encrypts(sym, rr, s),
        received.len() == shares.len(),
        forall|j: int| 0 <= j < received.len() ==> (#[trigger] received[j]).len() == polys.len(),
        forall|j: int, i: int| 0 <= j < received.len() && 0 <= i < polys.len()
            ==> #[trigger] received[j][i].value() == poly_eval(polys[i], shares[j].node_id as int) % (modulus_r() as int),
        forall|j: int| 0 <= j < shares.len()
            ==> #[trigger] shares[j].share_point == gen_mul(rr * (fe_sum(received[j]) % (modulus_r() as int))),
    ensures
        c.encrypts(sym, rr, poly_eval(joint_polynomial(polys, t), 0)),
        shares_from_polynomial(shares, joint_polynomial(polys, t), rr),
        joint_polynomial(polys, t).len() == t,
{
    lemma_joint_secret(polys, t);
    lemma_dkg_shares_fit_joint_polynomial(shares, received, polys, t, rr);
    assert(gen_mul(poly_eval(joint_polynomial(polys, t), 0)) == pk);
}

} // verus!
