//! Points of the BN254 group G1 in canonical affine form, and the arkworks
//! group operations, point encoding and SHA-256 that the audit scheme uses.
use vstd::prelude::*;
use crate::field::{le_bytes, modulus_q, modulus_r, Fe, Fq};
use ark_bn254::{Fr, G1Affine, G1Projective};
use ark_ec::CurveGroup;
use ark_ff::{BigInt, PrimeField};
use ark_serialize::{CanonicalDeserialize, CanonicalSerialize};
use sha2::Digest;

verus! {

/// A point of G1: affine coordinates, or the point at infinity, which is
/// held with both coordinates zero.
#[derive(Clone, Copy, Debug, PartialEq, Eq, Structural)]
pub struct G1Point {
    pub x: Fq,
    pub y: Fq,
    pub infinity: bool,
}

/// The generator of G1, the affine point (1, 2).
pub open spec fn g1_generator() -> G1Point {
    G1Point { x: Fq { l0: 1, l1: 0, l2: 0, l3: 0 }, y: Fq { l0: 2, l1: 0, l2: 0, l3: 0 }, infinity: false }
}

/// The neutral element of G1.
pub open spec fn g1_identity() -> G1Point {
    G1Point { x: Fq { l0: 0, l1: 0, l2: 0, l3: 0 }, y: Fq { l0: 0, l1: 0, l2: 0, l3: 0 }, infinity: true }
}

/// The point that arkworks computes as `p * k` for a canonical scalar `k`.
pub uninterp spec fn g1_mul_spec(p: G1Point, k: nat) -> G1Point;

/// The point that arkworks computes as `p + q`.
pub uninterp spec fn g1_add_spec(p: G1Point, q: G1Point) -> G1Point;

/// The point that arkworks decodes from a 32-byte compressed encoding, if any.
pub uninterp spec fn g1_decompress_spec(bytes: Seq<u8>) -> Option<G1Point>;

/// The SHA-256 digest of a byte string.
pub uninterp spec fn sha256_spec(data: Seq<u8>) -> Seq<u8>;

/// `k` times the generator, the scalar taken modulo `r`.
pub open spec fn gen_mul(k: int) -> G1Point {
    g1_mul_spec(g1_generator(), (k % (modulus_r() as int)) as nat)
}

impl G1Point {
    /// Canonical coordinates; the point at infinity has zero coordinates.
    pub open spec fn wf(self) -> bool {
        &&& self.x.wf()
        &&& self.y.wf()
        &&& self.infinity ==> self.x.value() == 0 && self.y.value() == 0
    }

    /// The point lies on the curve y^2 = x^3 + 3 (or is the point at infinity).
    pub open spec fn on_curve(self) -> bool {
        self.infinity || (self.y.value() * self.y.value()) % modulus_q()
            == (self.x.value() * self.x.value() * self.x.value() + 3) % modulus_q()
    }

    /// The y coordinate is the smaller of the two square roots (the one
    /// arkworks marks as positive).
    pub open spec fn y_is_positive(self) -> bool {
        self.y.value() <= (modulus_q() - self.y.value()) % (modulus_q() as int)
    }

    /// The 256-bit integer of the compressed encoding: x, with bit 255 set
    /// for a negative y and bit 254 set for the point at infinity.
    pub open spec fn compressed_value(self) -> nat {
        if self.infinity {
            0x4000_0000_0000_0000_0000_0000_0000_0000_0000_0000_0000_0000_0000_0000_0000_0000nat
        } else if self.y_is_positive() {
            self.x.value()
        } else {
            self.x.value() + 0x8000_0000_0000_0000_0000_0000_0000_0000_0000_0000_0000_0000_0000_0000_0000_0000nat
        }
    }

    /// The 32-byte compressed encoding.
    pub open spec fn compressed(self) -> Seq<u8> {
        le_bytes(self.compressed_value(), 32)
    }

    /// The generator of G1.
    pub fn generator() -> (g: G1Point)
        ensures
            g == g1_generator(),
            g.wf(),
            g.on_curve(),
    {
        let g = G1Point { x: Fq::from_u64(1), y: Fq::from_u64(2), infinity: false };
        assert(g.x.value() == 1 && g.y.value() == 2);
        g
    }

    /// The neutral element of G1.
    pub fn identity() -> (z: G1Point)
        ensures
            z == g1_identity(),
            z.wf(),
            z.on_curve(),
    {
        G1Point { x: Fq::from_u64(0), y: Fq::from_u64(0), infinity: true }
    }

    /// The point of arkworks' affine form: the flag and the coordinates' limbs.
    pub fn from_affine_parts(infinity: bool, x: [u64; 4], y: [u64; 4]) -> (p: G1Point)
        ensures
            infinity ==> p == g1_identity(),
            !infinity ==> p == (G1Point { x: Fq::from_limbs_spec(x@), y: Fq::from_limbs_spec(y@), infinity: false }),
    {
        if infinity {
            G1Point::identity()
        } else {
            G1Point { x: Fq::from_limbs(x), y: Fq::from_limbs(y), infinity: false }
        }
    }
}

impl Fq {
    /// The element held by four limbs, least significant first.
    pub open spec fn from_limbs_spec(l: Seq<u64>) -> Fq {
        Fq { l0: l[0], l1: l[1], l2: l[2], l3: l[3] }
    }
}

/// arkworks scalar multiplication `G1Projective * Fr`. Besides naming the
/// result, states the group law of G1 (of prime order `r`): a multiple
/// `a`·G of the generator, times `s`, is (`a`·`s`)·G; that a point on the
/// curve stays on it; that the scalar zero gives the point at infinity; and
/// that the scalar one gives the point back.
#[verifier::external_body]
pub(crate) fn g1_mul(p: &G1Point, s: &Fe) -> (res: G1Point)
    requires
        p.wf(),
        s.wf(),
    ensures
        res.wf(),
        res == g1_mul_spec(*p, s.value()),
        p.on_curve() ==> res.on_curve(),
        s.value() == 0 ==> res == g1_identity(),
        s.value() == 1 ==> res == *p,
        forall|a: int| #[trigger] gen_mul(a) == *p ==> res == gen_mul(a * s.value()),
{
    let pa = G1Projective::from(if p.infinity { G1Affine::identity() } else {
        G1Affine::new_unchecked(ark_bn254::Fq::from_bigint(BigInt::new(p.x.limbs())).unwrap(),
            ark_bn254::Fq::from_bigint(BigInt::new(p.y.limbs())).unwrap()) });
    let r = (pa * Fr::from_bigint(BigInt::new(s.limbs())).unwrap()).into_affine();
    G1Point::from_affine_parts(r.infinity, r.x.into_bigint().0, r.y.into_bigint().0)
}

/// arkworks point addition `G1Projective + G1Projective`. Besides naming the
/// result, states that the point at infinity is neutral, that
/// `a`·G + `b`·G = (`a`+`b`)·G, and that points on the curve sum to one.
#[verifier::external_body]
pub(crate) fn g1_add(p: &G1Point, q: &G1Point) -> (res: G1Point)
    requires
        p.wf(),
        q.wf(),
    ensures
        res.wf(),
        res == g1_add_spec(*p, *q),
        p.on_curve() && q.on_curve() ==> res.on_curve(),
        *p == g1_identity() ==> res == *q,
        *q == g1_identity() ==> res == *p,
        forall|a: int, b: int| #[trigger] gen_mul(a) == *p && #[trigger] gen_mul(b) == *q
            ==> res == gen_mul(a + b),
{
    let pa = G1Projective::from(if p.infinity { G1Affine::identity() } else {
        G1Affine::new_unchecked(ark_bn254::Fq::from_bigint(BigInt::new(p.x.limbs())).unwrap(),
            ark_bn254::Fq::from_bigint(BigInt::new(p.y.limbs())).unwrap()) });
    let qa = if q.infinity { G1Affine::identity() } else {
        G1Affine::new_unchecked(ark_bn254::Fq::from_bigint(BigInt::new(q.x.limbs())).unwrap(),
            ark_bn254::Fq::from_bigint(BigInt::new(q.y.limbs())).unwrap()) };
    let r = (pa + qa).into_affine();
    G1Point::from_affine_parts(r.infinity, r.x.into_bigint().0, r.y.into_bigint().0)
}

/// arkworks `serialize_compressed` on a G1 point: 32 little-endian bytes of
/// x with the sign of y in bit 255 and the point at infinity in bit 254.
#[verifier::external_body]
pub(crate) fn g1_to_bytes(p: &G1Point) -> (bytes: Vec<u8>)
    requires
        p.wf(),
    ensures
        bytes@ == p.compressed(),
{
    let pa = if p.infinity { G1Affine::identity() } else {
        G1Affine::new_unchecked(ark_bn254::Fq::from_bigint(BigInt::new(p.x.limbs())).unwrap(),
            ark_bn254::Fq::from_bigint(BigInt::new(p.y.limbs())).unwrap()) };
    let mut out = Vec::new();
    G1Projective::from(pa).serialize_compressed(&mut out).unwrap();
    out
}

/// arkworks `deserialize_compressed` on `G1Projective` (with validation):
/// reads 32 bytes and yields the named point, which is canonical and on the
/// curve; the encoding of a point on the curve decodes to that point.
#[verifier::external_body]
pub(crate) fn g1_from_bytes(bytes: &[u8]) -> (res: Result<G1Point, ark_serialize::SerializationError>)
    ensures
        res matches Ok(p) ==> bytes@.len() >= 32 && g1_decompress_spec(bytes@.take(32)) == Some(p)
            && p.wf() && p.on_curve(),
        res is Err ==> bytes@.len() < 32 || g1_decompress_spec(bytes@.take(32)) is None,
        forall|pt: G1Point| pt.wf() && pt.on_curve() && #[trigger] pt.compressed() == bytes@.take(32)
            ==> res is Ok && res->Ok_0 == pt,
{
    let mut reader = bytes;
    match G1Projective::deserialize_compressed(&mut reader) {
        Ok(pt) => {
            let r = pt.into_affine();
            Ok(G1Point::from_affine_parts(r.infinity, r.x.into_bigint().0, r.y.into_bigint().0))
        },
        Err(e) => Err(e),
    }
}

/// The `sha2` crate's SHA-256 of a byte string: the named 32-byte digest.
#[verifier::external_body]
pub(crate) fn sha256(data: &[u8]) -> (digest: Vec<u8>)
    ensures
        digest@ == sha256_spec(data@),
        digest@.len() == 32,
{
    let mut hasher = sha2::Sha256::new();
    hasher.update(data);
    hasher.finalize().to_vec()
}

} // verus!
