//! Threshold EC-ElGamal auditing: distributed key generation, encryption of
//! a symmetric audit key under the joint key, per-node decryption shares and
//! their Lagrange recombination.
use vstd::prelude::*;
use crate::curve::{
    g1_add, g1_add_spec, g1_from_bytes, g1_generator, g1_identity, g1_mul, g1_mul_spec, g1_to_bytes,
    gen_mul, sha256, sha256_spec, G1Point,
};
use crate::field::{
    describe_serialization_error, fe_add, fe_from_bytes, fe_from_le_bytes_mod_order, fe_inverse, fe_mul,
    fe_sub, fe_to_bytes, fq_to_bytes, le_bytes, le_value, lemma_limbs_injective, modulus_r,
    random_field_element, u64_from_le_bytes, u64_to_le_bytes, Fe,
};
pub use crate::audit_error::AuditError;
use crate::audit_error::{insufficient_shares_message, insufficient_shares_text, invalid_length_error, invalid_length_text};
use crate::lagrange::{distinct, interpolation_term, lemma_interpolation_at_zero, sum_over, poly_eval, inv_mod, inverse_of, is_unit, lag_coeff, lag_den, lag_num, lemma_inverse_unique};

verus! {

/// The integers of a sequence of field elements.
pub open spec fn fe_values(s: Seq<Fe>) -> Seq<int> {
    s.map_values(|f: Fe| f.value() as int)
}

/// The integer sum of a sequence of field elements.
pub open spec fn fe_sum(s: Seq<Fe>) -> int
    decreases s.len(),
{
    if s.len() == 0 {
        0
    } else {
        fe_sum(s.drop_last()) + s.last().value()
    }
}

/// The integer sum of a sequence of integers.
pub open spec fn int_sum(s: Seq<int>) -> int
    decreases s.len(),
{
    if s.len() == 0 {
        0
    } else {
        int_sum(s.drop_last()) + s.last()
    }
}

/// The arkworks sum of points, added left to right from the point at
/// infinity.
pub open spec fn point_sum(points: Seq<G1Point>) -> G1Point
    decreases points.len(),
{
    if points.len() == 0 {
        g1_identity()
    } else {
        g1_add_spec(point_sum(points.drop_last()), points.last())
    }
}

/// Each point is the stated multiple of the generator.
pub open spec fn multiples_of_generator(points: Seq<G1Point>, exps: Seq<int>) -> bool {
    &&& points.len() == exps.len()
    &&& forall|i: int| 0 <= i < points.len() ==> #[trigger] points[i] == gen_mul(exps[i])
}

/// The blinding scalar derived from a point: SHA-256 of the 32-byte
/// encoding of its x coordinate, read little-endian modulo `r`.
pub open spec fn k_blinding(p: G1Point) -> nat {
    le_value(sha256_spec(le_bytes(p.x.value(), 32))) % modulus_r()
}

/// A node's secret polynomial for distributed key generation.
pub struct DkgPolynomial {
    pub node_id: usize,
    pub coefficients: Vec<Fe>,
}

impl DkgPolynomial {
    /// Canonical coefficients.
    pub open spec fn wf(&self) -> bool {
        forall|i: int| 0 <= i < self.coefficients@.len() ==> (#[trigger] self.coefficients@[i]).wf()
    }

    /// A polynomial with `threshold` random coefficients (degree
    /// `threshold - 1`); the constant term is the node's secret.
    pub fn new(node_id: usize, threshold: usize) -> (p: DkgPolynomial)
        ensures
            p.node_id == node_id,
            p.coefficients@.len() == threshold,
            p.wf(),
    {
        let mut coefficients: Vec<Fe> = Vec::with_capacity(threshold);
        let mut i: usize = 0;
        while i < threshold
            invariant
                i <= threshold,
                coefficients@.len() == i,
                forall|k: int| 0 <= k < i ==> (#[trigger] coefficients@[k]).wf(),
            decreases threshold - i,
        {
            coefficients.push(random_field_element());
            i = i + 1;
        }
        DkgPolynomial { node_id, coefficients }
    }

    /// The polynomial's value at `x` (Horner's rule over F_r).
    pub fn evaluate(&self, x: Fe) -> (y: Fe)
        requires
            self.wf(),
            x.wf(),
        ensures
            y.wf(),
            y.value() == poly_eval(fe_values(self.coefficients@), x.value() as int) % (modulus_r() as int),
    {
        let ghost vals = fe_values(self.coefficients@);
        let mut result = Fe::zero();
        let mut i: usize = self.coefficients.len();
        proof {
            assert(vals.skip(i as int) =~= Seq::<int>::empty());
        }
        while i > 0
            invariant
                i <= self.coefficients@.len(),
                vals == fe_values(self.coefficients@),
                self.wf(),
                x.wf(),
                result.wf(),
                result.value() == poly_eval(vals.skip(i as int), x.value() as int) % (modulus_r() as int),
            decreases i,
        {
            i = i - 1;
            let coeff = self.coefficients[i];
            let ghost h = poly_eval(vals.skip(i + 1), x.value() as int);
            let prod = fe_mul(&result, &x);
            result = fe_add(&prod, &coeff);
            proof {
                assert(vals.skip(i as int).drop_first() =~= vals.skip(i + 1));
                assert(vals.skip(i as int)[0] == coeff.value());
                lemma_horner_step(h, x.value() as int, coeff.value() as int);
            }
        }
        proof {
            assert(vals.skip(0) =~= vals);
        }
        result
    }

    /// The commitments A_k = a_k · G to the coefficients.
    pub fn commitments(&self) -> (cs: Vec<G1Point>)
        requires
            self.wf(),
        ensures
            cs@.len() == self.coefficients@.len(),
            forall|k: int| 0 <= k < cs@.len() ==> #[trigger] cs@[k] == gen_mul(self.coefficients@[k].value() as int),
            forall|k: int| 0 <= k < cs@.len() ==> (#[trigger] cs@[k]).wf() && cs@[k].on_curve(),
    {
        let g = G1Point::generator();
        let mut cs: Vec<G1Point> = Vec::new();
        let mut i: usize = 0;
        while i < self.coefficients.len()
            invariant
                i <= self.coefficients@.len(),
                self.wf(),
                g == g1_generator(),
                g.wf(),
                g.on_curve(),
                cs@.len() == i,
                forall|k: int| 0 <= k < i ==> #[trigger] cs@[k] == gen_mul(self.coefficients@[k].value() as int),
                forall|k: int| 0 <= k < i ==> (#[trigger] cs@[k]).wf() && cs@[k].on_curve(),
            decreases self.coefficients@.len() - i,
        {
            let c = g1_mul(&g, &self.coefficients[i]);
            proof {
                let v = self.coefficients@[i as int].value();
                vstd::arithmetic::div_mod::lemma_small_mod(v, modulus_r());
            }
            cs.push(c);
            i = i + 1;
        }
        cs
    }
}

proof fn lemma_horner_step(h: int, x: int, c: int)
    ensures
        (((h % (modulus_r() as int)) * x) % (modulus_r() as int) + c) % (modulus_r() as int)
            == (c + x * h) % (modulus_r() as int),
{
    let r = modulus_r() as int;
    vstd::arithmetic::div_mod::lemma_mul_mod_noop_left(h, x, r);
    vstd::arithmetic::div_mod::lemma_add_mod_noop(h * x, c, r);
    vstd::arithmetic::div_mod::lemma_mod_twice(h * x, r);
    vstd::arithmetic::div_mod::lemma_add_mod_noop((h * x) % r, c, r);
    assert(x * h == h * x) by (nonlinear_arith);
}

/// A node's private key share.
#[derive(Clone, Debug, PartialEq, Eq, Structural)]
pub struct PrivateKeyShare {
    pub node_id: usize,
    pub share: Fe,
}

impl PrivateKeyShare {
    /// The final share sk_j: the sum of the evaluations that node `j`
    /// received from every node.
    pub fn aggregate(shares_received: &[Fe], node_id: usize) -> (k: PrivateKeyShare)
        requires
            forall|i: int| 0 <= i < shares_received@.len() ==> (#[trigger] shares_received@[i]).wf(),
        ensures
            k.node_id == node_id,
            k.share.wf(),
            k.share.value() == fe_sum(shares_received@) % (modulus_r() as int),
    {
        let mut total_share = Fe::zero();
        let mut i: usize = 0;
        while i < shares_received.len()
            invariant
                i <= shares_received@.len(),
                forall|k: int| 0 <= k < shares_received@.len() ==> (#[trigger] shares_received@[k]).wf(),
                total_share.wf(),
                total_share.value() == fe_sum(shares_received@.take(i as int)) % (modulus_r() as int),
            decreases shares_received@.len() - i,
        {
            proof {
                let r = modulus_r() as int;
                assert(shares_received@.take(i + 1).drop_last() =~= shares_received@.take(i as int));
                vstd::arithmetic::div_mod::lemma_add_mod_noop(
                    fe_sum(shares_received@.take(i as int)), shares_received@[i as int].value() as int, r);
                vstd::arithmetic::div_mod::lemma_mod_twice(fe_sum(shares_received@.take(i as int)), r);
                vstd::arithmetic::div_mod::lemma_small_mod(shares_received@[i as int].value(), r as nat);
            }
            total_share = fe_add(&total_share, &shares_received[i]);
            i = i + 1;
        }
        proof {
            assert(shares_received@.take(i as int) =~= shares_received@);
        }
        PrivateKeyShare { node_id, share: total_share }
    }

    /// The encoding: the node id as 8 little-endian bytes, then the share's
    /// 32 little-endian bytes.
    pub open spec fn encoded(&self) -> Seq<u8> {
        le_bytes(self.node_id as nat, 8) + le_bytes(self.share.value(), 32)
    }

    /// The encoding of the share.
    pub fn to_bytes(&self) -> (bytes: Vec<u8>)
        requires
            self.share.wf(),
        ensures
            bytes@ == self.encoded(),
    {
        let mut bytes = u64_to_le_bytes(self.node_id as u64);
        let mut share_bytes = fe_to_bytes(&self.share);
        bytes.append(&mut share_bytes);
        bytes
    }

    /// Reads a share written by `to_bytes`: fewer than 8 bytes, or a share
    /// that is not a canonical element, is a serialization error.
    pub fn from_bytes(bytes: &[u8]) -> (res: Result<PrivateKeyShare, AuditError>)
        ensures
            res is Ok <==> bytes@.len() >= 40 && le_value(bytes@.subrange(8, 40)) < modulus_r(),
            res matches Ok(k) ==> k.node_id == (le_value(bytes@.take(8)) as u64) as usize
                && k.share.wf() && k.share.value() == le_value(bytes@.subrange(8, 40)),
            res matches Err(e) ==> e is SerializationError,
            bytes@.len() < 8 ==> (res matches Err(AuditError::SerializationError(m)) && m@ == invalid_length_text()),
            forall|k: PrivateKeyShare| k.share.wf() && #[trigger] k.encoded() == bytes@
                ==> res == Ok::<PrivateKeyShare, AuditError>(k),
    {
        if bytes.len() < 8 {
            proof {
                assert forall|k: PrivateKeyShare| k.share.wf() && #[trigger] k.encoded() == bytes@ implies false by {
                    crate::field::lemma_le_roundtrip(k.node_id as nat, 8);
                    crate::field::lemma_le_roundtrip(k.share.value(), 32);
                }
            }
            return Err(invalid_length_error());
        }
        let node_id = u64_from_le_bytes(bytes) as usize;
        let rest = vstd::slice::slice_subrange(bytes, 8, bytes.len());
        proof {
            if rest@.len() >= 32 {
                assert(rest@.take(32) =~= bytes@.subrange(8, 40));
            }
        }
        proof {
            assert forall|k: PrivateKeyShare| k.share.wf() && #[trigger] k.encoded() == bytes@
                implies rest@.len() >= 32 && k.node_id == node_id
                    && le_value(rest@.take(32)) == k.share.value() by {
                lemma_encoding_parts(k.node_id as nat, k.share.value(), bytes@);
            }
        }
        match fe_from_bytes(rest) {
            Ok(share) => {
                proof {
                    assert forall|k: PrivateKeyShare| k.share.wf() && #[trigger] k.encoded() == bytes@
                        implies (PrivateKeyShare { node_id, share }) == k by {
                        lemma_limbs_injective(share, k.share);
                    }
                }
                Ok(PrivateKeyShare { node_id, share })
            },
            Err(e) => Err(AuditError::SerializationError(describe_serialization_error("Failed to deserialize share: ", &e))),
        }
    }
}

/// The joint audit public key PK = sum of the nodes' A_{i,0}.
#[derive(Clone, Debug, PartialEq, Eq, Structural)]
pub struct AuditPublicKey {
    pub point: G1Point,
}

impl AuditPublicKey {
    /// The sum of the nodes' constant-term commitments. When they are the
    /// multiples a_i · G (and there is at least one), the key is (sum a_i) · G.
    pub fn aggregate(nodes_commitments_a0: &[G1Point]) -> (pk: AuditPublicKey)
        requires
            forall|i: int| 0 <= i < nodes_commitments_a0@.len() ==> (#[trigger] nodes_commitments_a0@[i]).wf(),
        ensures
            pk.point == point_sum(nodes_commitments_a0@),
            pk.point.wf(),
            (forall|i: int| 0 <= i < nodes_commitments_a0@.len() ==> (#[trigger] nodes_commitments_a0@[i]).on_curve())
                ==> pk.point.on_curve(),
            forall|exps: Seq<int>| #[trigger] multiples_of_generator(nodes_commitments_a0@, exps)
                && exps.len() > 0 ==> pk.point == gen_mul(int_sum(exps)),
    {
        let pts = nodes_commitments_a0;
        let mut total_point = G1Point::identity();
        let mut i: usize = 0;
        while i < pts.len()
            invariant
                i <= pts@.len(),
                forall|k: int| 0 <= k < pts@.len() ==> (#[trigger] pts@[k]).wf(),
                total_point.wf(),
                total_point == point_sum(pts@.take(i as int)),
                (forall|k: int| 0 <= k < pts@.len() ==> (#[trigger] pts@[k]).on_curve()) ==> total_point.on_curve(),
                i == 0 ==> total_point == g1_identity(),
                forall|exps: Seq<int>| #[trigger] multiples_of_generator(pts@, exps) && i > 0
                    ==> total_point == gen_mul(int_sum(exps.take(i as int))),
            decreases pts@.len() - i,
        {
            proof {
                assert(pts@.take(i + 1).drop_last() =~= pts@.take(i as int));
            }
            let ghost before = total_point;
            total_point = g1_add(&total_point, &pts[i]);
            proof {
                assert forall|exps: Seq<int>| #[trigger] multiples_of_generator(pts@, exps)
                    implies total_point == gen_mul(int_sum(exps.take(i + 1))) by {
                    assert(exps.take(i + 1).drop_last() =~= exps.take(i as int));
                    assert(pts@[i as int] == gen_mul(exps[i as int]));
                    if i == 0 {
                        assert(exps.take(0) =~= Seq::<int>::empty());
                    } else {
                        assert(before == gen_mul(int_sum(exps.take(i as int))));
                    }
                }
            }
            i = i + 1;
        }
        proof {
            assert(pts@.take(i as int) =~= pts@);
            assert forall|exps: Seq<int>| #[trigger] multiples_of_generator(pts@, exps) && exps.len() > 0
                implies total_point == gen_mul(int_sum(exps)) by {
                assert(exps.take(i as int) =~= exps);
            }
        }
        AuditPublicKey { point: total_point }
    }

    /// The compressed encoding of the key point.
    pub fn to_bytes(&self) -> (bytes: Vec<u8>)
        requires
            self.point.wf(),
        ensures
            bytes@ == self.point.compressed(),
    {
        g1_to_bytes(&self.point)
    }

    /// Decodes a key point written by `to_bytes`.
    pub fn from_bytes(bytes: &[u8]) -> (res: Result<AuditPublicKey, AuditError>)
        ensures
            res matches Ok(pk) ==> bytes@.len() >= 32
                && crate::curve::g1_decompress_spec(bytes@.take(32)) == Some(pk.point)
                && pk.point.wf() && pk.point.on_curve(),
            res matches Err(e) ==> e is SerializationError && (bytes@.len() < 32
                || crate::curve::g1_decompress_spec(bytes@.take(32)) is None),
            forall|p: G1Point| p.wf() && p.on_curve() && #[trigger] p.compressed() == bytes@.take(32)
                ==> res == Ok::<AuditPublicKey, AuditError>(AuditPublicKey { point: p }),
    {
        match g1_from_bytes(bytes) {
            Ok(point) => Ok(AuditPublicKey { point }),
            Err(e) => Err(AuditError::SerializationError(
                describe_serialization_error("Failed to deserialize public key: ", &e))),
        }
    }
}

/// A node's partial decryption D_j = sk_j · R.
#[derive(Clone, Debug, PartialEq, Eq, Structural)]
pub struct DecryptionShare {
    pub node_id: usize,
    pub share_point: G1Point,
}

impl DecryptionShare {
    /// The encoding: the node id as 8 little-endian bytes, then the point's
    /// 32-byte compressed encoding.
    pub open spec fn encoded(&self) -> Seq<u8> {
        le_bytes(self.node_id as nat, 8) + self.share_point.compressed()
    }

    /// The encoding of the share.
    pub fn to_bytes(&self) -> (bytes: Vec<u8>)
        requires
            self.share_point.wf(),
        ensures
            bytes@ == self.encoded(),
    {
        let mut bytes = u64_to_le_bytes(self.node_id as u64);
        let mut point_bytes = g1_to_bytes(&self.share_point);
        bytes.append(&mut point_bytes);
        bytes
    }

    /// Reads a share written by `to_bytes`.
    pub fn from_bytes(bytes: &[u8]) -> (res: Result<DecryptionShare, AuditError>)
        ensures
            res matches Ok(d) ==> bytes@.len() >= 40
                && d.node_id == (le_value(bytes@.take(8)) as u64) as usize
                && crate::curve::g1_decompress_spec(bytes@.subrange(8, 40)) == Some(d.share_point)
                && d.share_point.wf() && d.share_point.on_curve(),
            res matches Err(e) ==> e is SerializationError && (bytes@.len() < 40
                || crate::curve::g1_decompress_spec(bytes@.subrange(8, 40)) is None),
            bytes@.len() < 8 ==> (res matches Err(AuditError::SerializationError(m)) && m@ == invalid_length_text()),
            forall|d: DecryptionShare| d.share_point.wf() && d.share_point.on_curve()
                && #[trigger] d.encoded() == bytes@ ==> res == Ok::<DecryptionShare, AuditError>(d),
    {
        if bytes.len() < 8 {
            proof {
                assert forall|d: DecryptionShare| d.share_point.wf() && d.share_point.on_curve()
                    && #[trigger] d.encoded() == bytes@ implies false by {
                    crate::field::lemma_le_roundtrip(d.node_id as nat, 8);
                    crate::field::lemma_le_roundtrip(d.share_point.compressed_value(), 32);
                }
            }
            return Err(invalid_length_error());
        }
        let node_id = u64_from_le_bytes(bytes) as usize;
        let rest = vstd::slice::slice_subrange(bytes, 8, bytes.len());
        proof {
            if rest@.len() >= 32 {
                assert(rest@.take(32) =~= bytes@.subrange(8, 40));
            }
            assert forall|d: DecryptionShare| d.share_point.wf() && d.share_point.on_curve()
                && #[trigger] d.encoded() == bytes@ implies rest@.len() >= 32 && d.node_id == node_id
                    && d.share_point.compressed() == rest@.take(32) by {
                lemma_point_encoding_parts(d.node_id as nat, d.share_point, bytes@);
            }
        }
        match g1_from_bytes(rest) {
            Ok(share_point) => Ok(DecryptionShare { node_id, share_point }),
            Err(e) => Err(AuditError::SerializationError(
                describe_serialization_error("Failed to deserialize share point: ", &e))),
        }
    }
}

/// The symmetric audit key encrypted under the joint key:
/// (R = r·G, C = key + H(r·PK)).
#[derive(Clone, Debug, PartialEq, Eq, Structural)]
pub struct EncryptedAuditKey {
    pub ephemeral_public: G1Point,
    pub masked_key: Fe,
}

impl EncryptedAuditKey {
    /// Whether this is an encryption of `sym` with ephemeral scalar `rr`
    /// under the key whose secret is `s`.
    pub open spec fn encrypts(&self, sym: Fe, rr: int, s: int) -> bool {
        &&& sym.wf()
        &&& self.ephemeral_public == gen_mul(rr)
        &&& self.masked_key.value() == (sym.value() + k_blinding(gen_mul(s * rr))) % modulus_r()
    }

    /// Encrypts `sym_key` under `pub_key` with a fresh random scalar r.
    pub fn encrypt(pub_key: &AuditPublicKey, sym_key: Fe) -> (c: EncryptedAuditKey)
        requires
            pub_key.point.wf(),
            sym_key.wf(),
        ensures
            c.ephemeral_public.wf(),
            c.ephemeral_public.on_curve(),
            c.masked_key.wf(),
            exists|rr: nat| rr < modulus_r() && #[trigger] gen_mul(rr as int) == c.ephemeral_public
                && c.masked_key.value() == (sym_key.value() + k_blinding(g1_mul_spec(pub_key.point, rr))) % modulus_r()
                && (forall|s: int| #[trigger] gen_mul(s) == pub_key.point ==> c.encrypts(sym_key, rr as int, s)),
    {
        let r = random_field_element();
        Self::encrypt_with(pub_key, sym_key, &r)
    }

    /// Encrypts `sym_key` under `pub_key` with the scalar `r`:
    /// (r·G, sym_key + H(r·PK)).
    pub fn encrypt_with(pub_key: &AuditPublicKey, sym_key: Fe, r: &Fe) -> (c: EncryptedAuditKey)
        requires
            pub_key.point.wf(),
            sym_key.wf(),
            r.wf(),
        ensures
            c.ephemeral_public.wf(),
            c.ephemeral_public.on_curve(),
            c.masked_key.wf(),
            c.ephemeral_public == gen_mul(r.value() as int),
            c.masked_key.value() == (sym_key.value() + k_blinding(g1_mul_spec(pub_key.point, r.value()))) % modulus_r(),
            c.masked_key.value() == (sym_key.value() + le_value(sha256_spec(le_bytes(
                g1_mul_spec(pub_key.point, r.value()).x.value(), 32))) % modulus_r()) % modulus_r(),
            forall|s: int| #[trigger] gen_mul(s) == pub_key.point ==> c.encrypts(sym_key, r.value() as int, s),
    {
        let g = G1Point::generator();
        let ephemeral_public = g1_mul(&g, r);
        let shared_secret = g1_mul(&pub_key.point, r);
        let k_deriv = Self::derive_k_blinding(&shared_secret);
        let masked_key = fe_add(&sym_key, &k_deriv);
        let c = EncryptedAuditKey { ephemeral_public, masked_key };
        proof {
            let rr = r.value();
            vstd::arithmetic::div_mod::lemma_small_mod(rr, modulus_r());
            vstd::arithmetic::div_mod::lemma_small_mod(k_deriv.value(), modulus_r());
            assert(gen_mul(rr as int) == c.ephemeral_public);
            assert forall|s: int| #[trigger] gen_mul(s) == pub_key.point implies c.encrypts(sym_key, rr as int, s) by {
                assert(shared_secret == gen_mul(s * rr));
            }
        }
        c
    }

    /// The encoding: the ephemeral point's 32 compressed bytes, then the
    /// masked key's 32 little-endian bytes.
    pub open spec fn encoded(&self) -> Seq<u8> {
        self.ephemeral_public.compressed() + le_bytes(self.masked_key.value(), 32)
    }

    /// The encoding of the ciphertext.
    pub fn to_bytes(&self) -> (bytes: Vec<u8>)
        requires
            self.ephemeral_public.wf(),
            self.masked_key.wf(),
        ensures
            bytes@ == self.encoded(),
    {
        let mut bytes = g1_to_bytes(&self.ephemeral_public);
        let mut key_bytes = fe_to_bytes(&self.masked_key);
        bytes.append(&mut key_bytes);
        bytes
    }

    /// Reads a ciphertext written by `to_bytes`: the point from the first 32
    /// bytes, then the masked key from the next 32.
    pub fn from_bytes(bytes: &[u8]) -> (res: Result<EncryptedAuditKey, AuditError>)
        ensures
            res matches Ok(c) ==> bytes@.len() >= 64
                && crate::curve::g1_decompress_spec(bytes@.take(32)) == Some(c.ephemeral_public)
                && c.ephemeral_public.wf() && c.ephemeral_public.on_curve()
                && c.masked_key.wf() && c.masked_key.value() == le_value(bytes@.subrange(32, 64)),
            res matches Err(e) ==> e is SerializationError && (bytes@.len() < 64
                || crate::curve::g1_decompress_spec(bytes@.take(32)) is None
                || le_value(bytes@.subrange(32, 64)) >= modulus_r()),
            forall|c: EncryptedAuditKey| c.ephemeral_public.wf() && c.ephemeral_public.on_curve()
                && c.masked_key.wf() && #[trigger] c.encoded() == bytes@
                ==> res == Ok::<EncryptedAuditKey, AuditError>(c),
    {
        proof {
            assert forall|c: EncryptedAuditKey| c.ephemeral_public.wf() && c.ephemeral_public.on_curve()
                && c.masked_key.wf() && #[trigger] c.encoded() == bytes@
                implies bytes@.len() == 64 && bytes@.take(32) == c.ephemeral_public.compressed()
                    && bytes@.subrange(32, 64) == le_bytes(c.masked_key.value(), 32)
                    && le_value(bytes@.subrange(32, 64)) == c.masked_key.value() by {
                crate::field::lemma_le_roundtrip(c.ephemeral_public.compressed_value(), 32);
                crate::field::lemma_le_roundtrip(c.masked_key.value(), 32);
                assert(bytes@.take(32) =~= c.ephemeral_public.compressed());
                assert(bytes@.subrange(32, 64) =~= le_bytes(c.masked_key.value(), 32));
                lemma_pow256_values();
                crate::field::lemma_moduli_bounds();
                vstd::arithmetic::div_mod::lemma_small_mod(c.masked_key.value(), crate::field::pow256(32));
            }
        }
        let ephemeral_public = match g1_from_bytes(bytes) {
            Ok(p) => p,
            Err(e) => {
                return Err(AuditError::SerializationError(
                    describe_serialization_error("Failed to deserialize ephemeral public point: ", &e)));
            },
        };
        let rest = vstd::slice::slice_subrange(bytes, 32, bytes.len());
        proof {
            if rest@.len() >= 32 {
                assert(rest@.take(32) =~= bytes@.subrange(32, 64));
            }
        }
        match fe_from_bytes(rest) {
            Ok(masked_key) => {
                proof {
                    assert forall|c: EncryptedAuditKey| c.ephemeral_public.wf() && c.ephemeral_public.on_curve()
                        && c.masked_key.wf() && #[trigger] c.encoded() == bytes@
                        implies (EncryptedAuditKey { ephemeral_public, masked_key }) == c by {
                        lemma_limbs_injective(masked_key, c.masked_key);
                    }
                }
                Ok(EncryptedAuditKey { ephemeral_public, masked_key })
            },
            Err(e) => Err(AuditError::SerializationError(
                describe_serialization_error("Failed to deserialize masked key: ", &e))),
        }
    }

    /// Node j's partial decryption D_j = sk_j · R.
    pub fn decrypt_share(&self, priv_share: &PrivateKeyShare) -> (d: DecryptionShare)
        requires
            self.ephemeral_public.wf(),
            priv_share.share.wf(),
        ensures
            d.node_id == priv_share.node_id,
            d.share_point == g1_mul_spec(self.ephemeral_public, priv_share.share.value()),
            d.share_point.wf(),
            self.ephemeral_public.on_curve() ==> d.share_point.on_curve(),
            forall|a: int| #[trigger] gen_mul(a) == self.ephemeral_public
                ==> d.share_point == gen_mul(a * priv_share.share.value()),
    {
        let share_point = g1_mul(&self.ephemeral_public, &priv_share.share);
        DecryptionShare { node_id: priv_share.node_id, share_point }
    }

    /// Recovers the symmetric key from at least three decryption shares:
    /// S = Σ λ_j · D_j over the shares' node ids, key = C - H(S).
    ///
    /// Whenever the shares are D_j = r·F(j)·G for the encryption's ephemeral
    /// scalar r and a key polynomial F with F(0) the joint secret, their node
    /// ids are distinct, and F has no more coefficients than there are shares
    /// (the t-of-n threshold: t shares for a polynomial of degree t - 1), they
    /// give back the encrypted key.
    pub fn decrypt(&self, shares: &[DecryptionShare]) -> (res: Result<Fe, AuditError>)
        requires
            self.masked_key.wf(),
            forall|i: int| 0 <= i < shares@.len() ==> (#[trigger] shares@[i]).share_point.wf(),
        ensures
            res is Err <==> shares@.len() < 3,
            res matches Err(e) ==> e is DecryptionError,
            res matches Err(AuditError::DecryptionError(m)) ==> m@ == insufficient_shares_text(shares@.len()),
            res matches Ok(k) ==> k.wf() && k.value() == (self.masked_key.value()
                - k_blinding(recombine(shares@, share_ids(shares@), shares@.len()))) % (modulus_r() as int),
            forall|coeffs: Seq<int>, rr: int, sym: Fe|
                #[trigger] self.encrypts(sym, rr, poly_eval(coeffs, 0))
                && shares_from_polynomial(shares@, coeffs, rr) && coeffs.len() <= shares@.len()
                && shares@.len() >= 3 && distinct(share_ids(shares@))
                ==> res is Ok && res->Ok_0 == sym,
    {
        if shares.len() < 3 {
            return Err(AuditError::DecryptionError(insufficient_shares_message(shares.len())));
        }
        let ghost ids = share_ids(shares@);
        let mut u: Vec<usize> = Vec::new();
        let mut i: usize = 0;
        while i < shares.len()
            invariant
                i <= shares@.len(),
                ids == share_ids(shares@),
                u@.len() == i,
                forall|k: int| 0 <= k < i ==> #[trigger] u@[k] == shares@[k].node_id,
            decreases shares@.len() - i,
        {
            u.push(shares[i].node_id);
            i = i + 1;
        }
        proof {
            assert(ids_of(u@) =~= ids);
        }
        let mut shared_secret = G1Point::identity();
        let mut i: usize = 0;
        while i < shares.len()
            invariant
                i <= shares@.len(),
                shares@.len() >= 3,
                ids == share_ids(shares@),
                ids_of(u@) == ids,
                forall|k: int| 0 <= k < shares@.len() ==> (#[trigger] shares@[k]).share_point.wf(),
                shared_secret.wf(),
                shared_secret == recombine(shares@, ids, i as nat),
                forall|k: int| 0 <= k < i ==> is_unit(#[trigger] lag_den(ids, ids[k])),
                forall|coeffs: Seq<int>, rr: int| #[trigger] shares_from_polynomial(shares@, coeffs, rr) && i > 0
                    ==> shared_secret == gen_mul(rr * sum_over(ids.take(i as int), interpolation_term(ids, coeffs))),
            decreases shares@.len() - i,
        {
            let share = &shares[i];
            let lambda_j = match Self::lagrange_coefficient(share.node_id, u.as_slice()) {
                Ok(l) => l,
                Err(e) => {
                    return Err(e);
                },
            };
            let term = g1_mul(&share.share_point, &lambda_j);
            let ghost before = shared_secret;
            shared_secret = g1_add(&shared_secret, &term);
            proof {
                let l = lambda_j.value() as int;
                assert(ids[i as int] == share.node_id as int);
                assert(ids.take(i + 1).drop_last() =~= ids.take(i as int));
                assert(ids.take(i + 1).last() == ids[i as int]);
                assert forall|coeffs: Seq<int>, rr: int| #[trigger] shares_from_polynomial(shares@, coeffs, rr)
                    implies shared_secret == gen_mul(rr * sum_over(ids.take(i + 1), interpolation_term(ids, coeffs))) by {
                    let fx = poly_eval(coeffs, ids[i as int]);
                    assert(shares@[i as int].share_point == gen_mul(rr * fx));
                    assert(term == gen_mul((rr * fx) * l));
                    let prev = sum_over(ids.take(i as int), interpolation_term(ids, coeffs));
                    assert(interpolation_term(ids, coeffs)(ids[i as int]) == l * fx);
                    if i == 0 {
                        assert(ids.take(0) =~= Seq::<int>::empty());
                        assert((rr * fx) * l == rr * (0 + l * fx)) by (nonlinear_arith);
                    } else {
                        assert(before == gen_mul(rr * prev));
                        assert(rr * prev + (rr * fx) * l == rr * (prev + l * fx)) by (nonlinear_arith);
                    }
                }
            }
            i = i + 1;
        }
        let k_deriv = Self::derive_k_blinding(&shared_secret);
        let sym_key = fe_sub(&self.masked_key, &k_deriv);
        proof {
            assert(ids.take(i as int) =~= ids);
            assert forall|coeffs: Seq<int>, rr: int, sym: Fe|
                #[trigger] self.encrypts(sym, rr, poly_eval(coeffs, 0))
                && shares_from_polynomial(shares@, coeffs, rr) && coeffs.len() <= shares@.len()
                && distinct(share_ids(shares@)) implies sym_key == sym by {
                lemma_decrypt_recovers(self.masked_key.value() as int, k_deriv.value() as int, sym, rr,
                    ids, coeffs, sym_key);
            }
        }
        Ok(sym_key)
    }

    /// The blinding scalar H(S): SHA-256 of the encoding of S's x coordinate,
    /// read little-endian modulo r.
    pub(crate) fn derive_k_blinding(point: &G1Point) -> (k: Fe)
        requires
            point.wf(),
        ensures
            k.wf(),
            k.value() == k_blinding(*point),
            k.value() == le_value(sha256_spec(le_bytes(point.x.value(), 32))) % modulus_r(),
    {
        let x_bytes = fq_to_bytes(&point.x);
        let hash_result = sha256(x_bytes.as_slice());
        fe_from_le_bytes_mod_order(hash_result.as_slice())
    }

    /// The Lagrange coefficient at zero of node `j` among the nodes `u`. The
    /// denominator is a product of differences of distinct 64-bit ids, never
    /// zero in F_r, so the coefficient always exists.
    fn lagrange_coefficient(j: usize, u: &[usize]) -> (res: Result<Fe, AuditError>)
        ensures
            lag_den(ids_of(u@), j as int) % (modulus_r() as int) != 0,
            is_unit(lag_den(ids_of(u@), j as int)),
            res is Ok,
            res matches Ok(l) ==> l.wf() && l.value() == lag_coeff(ids_of(u@), j as int),
    {
        let ghost us = ids_of(u@);
        let x_j = Fe::from_u64(j as u64);
        let mut num = Fe::one();
        let mut den = Fe::one();
        let mut i: usize = 0;
        while i < u.len()
            invariant
                i <= u@.len(),
                us == ids_of(u@),
                x_j.wf(),
                x_j.value() == j,
                den.value() != 0,
                num.wf(),
                den.wf(),
                num.value() == lag_num(us.take(i as int), j as int) % (modulus_r() as int),
                den.value() == lag_den(us.take(i as int), j as int) % (modulus_r() as int),
            decreases u@.len() - i,
        {
            let k = u[i];
            proof {
                assert(us.take(i + 1).drop_last() =~= us.take(i as int));
                assert(us.take(i + 1).last() == k as int);
            }
            if k != j {
                let x_k = Fe::from_u64(k as u64);
                let diff = fe_sub(&x_k, &x_j);
                proof {
                    let r = modulus_r() as int;
                    vstd::arithmetic::div_mod::lemma_small_mod(k as nat, r as nat);
                    vstd::arithmetic::div_mod::lemma_mul_mod_noop_general(
                        lag_num(us.take(i as int), j as int), k as int, r);
                    vstd::arithmetic::div_mod::lemma_mul_mod_noop_general(
                        lag_den(us.take(i as int), j as int), k as int - j as int, r);
                    lemma_small_difference_nonzero(k as int, j as int);
                }
                num = fe_mul(&num, &x_k);
                den = fe_mul(&den, &diff);
            }
            i = i + 1;
        }
        proof {
            assert(us.take(i as int) =~= us);
        }
        if den.is_zero() {
            return Err(AuditError::DecryptionError("Lagrange denominator is zero".to_owned()));
        }
        match fe_inverse(&den) {
            Some(den_inv) => {
                proof {
                    let r = modulus_r() as int;
                    let d = lag_den(us, j as int);
                    vstd::arithmetic::div_mod::lemma_mul_mod_noop_left(d, den_inv.value() as int, r);
                    lemma_inverse_unique(d, den_inv.value() as int);
                    assert(inverse_of(d, den_inv.value() as int));
                    vstd::arithmetic::div_mod::lemma_mul_mod_noop_left(lag_num(us, j as int), inv_mod(d), r);
                }
                Ok(fe_mul(&num, &den_inv))
            },
            None => Err(AuditError::DecryptionError("Lagrange denominator inverse failed".to_owned())),
        }
    }
}

/// The node ids of decryption shares, as integers.
pub open spec fn share_ids(shares: Seq<DecryptionShare>) -> Seq<int> {
    shares.map_values(|s: DecryptionShare| s.node_id as int)
}

/// Each share is D_j = rr · F(j) · G for the polynomial F with the given
/// coefficients.
pub open spec fn shares_from_polynomial(shares: Seq<DecryptionShare>, coeffs: Seq<int>, rr: int) -> bool {
    forall|i: int| 0 <= i < shares.len() ==> #[trigger] shares[i].share_point
        == gen_mul(rr * poly_eval(coeffs, shares[i].node_id as int))
}

/// The point Σ λ_j · D_j over the first `n` shares, as arkworks sums it
/// from the point at infinity.
pub open spec fn recombine(shares: Seq<DecryptionShare>, u: Seq<int>, n: nat) -> G1Point
    decreases n,
{
    if n == 0 {
        g1_identity()
    } else {
        g1_add_spec(
            recombine(shares, u, (n - 1) as nat),
            g1_mul_spec(shares[n - 1].share_point, lag_coeff(u, shares[n - 1].node_id as int) as nat),
        )
    }
}

/// The last step of decryption: when S is the shared secret, C - H(S) is
/// the encrypted key.
proof fn lemma_decrypt_recovers(masked: int, k: int, sym: Fe, rr: int, ids: Seq<int>, coeffs: Seq<int>, out: Fe)
    requires
        ids.len() >= 3,
        coeffs.len() <= ids.len(),
        distinct(ids),
        forall|j: int| 0 <= j < ids.len() ==> is_unit(#[trigger] lag_den(ids, ids[j])),
        sym.wf(),
        out.wf(),
        masked == ((sym.value() + k_blinding(gen_mul(poly_eval(coeffs, 0) * rr))) as int) % (modulus_r() as int),
        k == k_blinding(gen_mul(rr * sum_over(ids, interpolation_term(ids, coeffs)))),
        out.value() == (masked - k) % (modulus_r() as int),
    ensures
        out == sym,
{
    let r = modulus_r() as int;
    lemma_interpolation_at_zero(ids, coeffs);
    let total = sum_over(ids, interpolation_term(ids, coeffs));
    let f0 = poly_eval(coeffs, 0);
    vstd::arithmetic::div_mod::lemma_mul_mod_noop_right(rr, total, r);
    vstd::arithmetic::div_mod::lemma_mul_mod_noop_right(rr, f0, r);
    assert(rr * f0 == f0 * rr) by (nonlinear_arith);
    assert(gen_mul(rr * total) == gen_mul(f0 * rr));
    let kb = k_blinding(gen_mul(f0 * rr)) as int;
    assert(k == kb);
    vstd::arithmetic::div_mod::lemma_sub_mod_noop(sym.value() + kb, kb, r);
    vstd::arithmetic::div_mod::lemma_mod_twice(sym.value() + kb, r);
    vstd::arithmetic::div_mod::lemma_small_mod(kb as nat, r as nat);
    vstd::arithmetic::div_mod::lemma_sub_mod_noop(sym.value() + kb, kb, r);
    vstd::arithmetic::div_mod::lemma_small_mod(sym.value(), r as nat);
    lemma_limbs_injective(out, sym);
}

/// An encoding of a 64-bit id and a value below 2^256 reads back as both.
proof fn lemma_encoding_parts(id: nat, v: nat, bytes: Seq<u8>)
    requires
        id <= usize::MAX,
        v < modulus_r(),
        bytes == le_bytes(id, 8) + le_bytes(v, 32),
    ensures
        bytes.len() == 40,
        bytes.take(8) == le_bytes(id, 8),
        bytes.subrange(8, 40) == le_bytes(v, 32),
        bytes.subrange(8, bytes.len() as int).take(32) == le_bytes(v, 32),
        (le_value(bytes.take(8)) as u64) as usize == id,
        le_value(bytes.subrange(8, 40)) == v,
{
    crate::field::lemma_le_roundtrip(id, 8);
    crate::field::lemma_le_roundtrip(v, 32);
    assert(bytes.take(8) =~= le_bytes(id, 8));
    assert(bytes.subrange(8, 40) =~= le_bytes(v, 32));
    assert(bytes.subrange(8, bytes.len() as int).take(32) =~= le_bytes(v, 32));
    lemma_pow256_values();
    crate::field::lemma_moduli_bounds();
    vstd::arithmetic::div_mod::lemma_small_mod(id, crate::field::pow256(8));
    vstd::arithmetic::div_mod::lemma_small_mod(v, crate::field::pow256(32));
}

proof fn lemma_pow256_values()
    ensures
        crate::field::pow256(8) == 0x1_0000_0000_0000_0000nat,
        crate::field::pow256(32) == 0x1_0000_0000_0000_0000_0000_0000_0000_0000_0000_0000_0000_0000_0000_0000_0000_0000nat,
{
    reveal_with_fuel(crate::field::pow256, 33);
}

/// An encoding of a 64-bit id and a point reads back as both.
proof fn lemma_point_encoding_parts(id: nat, p: G1Point, bytes: Seq<u8>)
    requires
        id <= usize::MAX,
        bytes == le_bytes(id, 8) + p.compressed(),
    ensures
        bytes.len() == 40,
        bytes.subrange(8, bytes.len() as int).take(32) == p.compressed(),
        (le_value(bytes.take(8)) as u64) as usize == id,
{
    crate::field::lemma_le_roundtrip(id, 8);
    crate::field::lemma_le_roundtrip(p.compressed_value(), 32);
    assert(bytes.take(8) =~= le_bytes(id, 8));
    assert(bytes.subrange(8, bytes.len() as int).take(32) =~= p.compressed());
    lemma_pow256_values();
    vstd::arithmetic::div_mod::lemma_small_mod(id, crate::field::pow256(8));
}

/// Two distinct 64-bit integers differ by a nonzero amount modulo r.
proof fn lemma_small_difference_nonzero(k: int, j: int)
    requires
        0 <= k <= u64::MAX,
        0 <= j <= u64::MAX,
        k != j,
    ensures
        (k - j) % (modulus_r() as int) != 0,
{
    let r = modulus_r() as int;
    vstd::arithmetic::div_mod::lemma_fundamental_div_mod(k - j, r);
    if (k - j) % r == 0 {
        let q = (k - j) / r;
        assert(k - j == r * q);
        if q >= 1 {
            assert(r * q >= r) by (nonlinear_arith)
                requires
                    q >= 1,
                    r > 0,
            ;
        } else if q <= -1 {
            assert(r * q <= -r) by (nonlinear_arith)
                requires
                    q <= -1,
                    r > 0,
            ;
        }
    }
}

/// The node ids of a list, as integers.
pub open spec fn ids_of(u: Seq<usize>) -> Seq<int> {
    u.map_values(|k: usize| k as int)
}

/// The blinding scalar of a shared point S is SHA-256 of the 32
/// little-endian bytes of S's x coordinate, read little-endian modulo r.
pub proof fn lemma_blinding_from_x(p: G1Point)
    ensures
        k_blinding(p) == le_value(sha256_spec(le_bytes(p.x.value(), 32))) % modulus_r(),
        k_blinding(p) < modulus_r(),
{
}

} // verus!
