//! Elements of the two BN254 prime fields, held as four little-endian
//! 64-bit limbs, and the arkworks operations on them.
use vstd::prelude::*;
use ark_bn254::Fr;
use ark_ff::{BigInt, Field, PrimeField, UniformRand};
use ark_serialize::{CanonicalDeserialize, CanonicalSerialize};

verus! {

/// The order `r` of the BN254 scalar field (and of the group G1).
pub open spec fn modulus_r() -> nat {
    21888242871839275222246405745257275088548364400416034343698204186575808495617nat
}

/// The order `q` of the BN254 base field, in which curve coordinates live.
pub open spec fn modulus_q() -> nat {
    21888242871839275222246405745257275088696311157297823662689037894645226208583nat
}

/// 2^64, the radix of a limb.
pub open spec fn limb_base() -> nat {
    0x1_0000_0000_0000_0000nat
}

/// The integer held by four little-endian limbs.
pub open spec fn limbs_value(l0: u64, l1: u64, l2: u64, l3: u64) -> nat {
    (l0 + limb_base() * (l1 + limb_base() * (l2 + limb_base() * l3))) as nat
}

/// The integer whose little-endian base-256 digits are `s`.
pub open spec fn le_value(s: Seq<u8>) -> nat
    decreases s.len(),
{
    if s.len() == 0 {
        0
    } else {
        (s[0] + 256 * le_value(s.drop_first())) as nat
    }
}

/// The `n` lowest little-endian base-256 digits of `v`.
pub open spec fn le_bytes(v: nat, n: nat) -> Seq<u8>
    decreases n,
{
    if n == 0 {
        Seq::empty()
    } else {
        seq![(v % 256) as u8] + le_bytes(v / 256, (n - 1) as nat)
    }
}

/// The decimal digits of `n`, without leading zeroes (so the empty
/// sequence for zero).
pub open spec fn decimal_digits(n: nat) -> Seq<char>
    decreases n,
{
    if n == 0 {
        Seq::empty()
    } else {
        decimal_digits(n / 10).push(digit_char((n % 10) as nat))
    }
}

/// The ASCII character of a decimal digit.
pub open spec fn digit_char(d: nat) -> char {
    (48 + d) as char
}

/// Whether `c` is an ASCII decimal digit.
pub open spec fn is_digit(c: char) -> bool {
    '0' <= c && c <= '9'
}

/// The integer written in decimal by the digits `s`.
pub open spec fn decimal_value(s: Seq<char>) -> nat
    decreases s.len(),
{
    if s.len() == 0 {
        0
    } else {
        (decimal_value(s.drop_last()) * 10 + (s.last() as int - 48)) as nat
    }
}

/// Whether `s` is accepted by the field's decimal parser: a non-empty run of
/// digits, with no leading zero unless it is the single digit `0`.
pub open spec fn is_canonical_decimal(s: Seq<char>) -> bool {
    &&& s.len() > 0
    &&& forall|i: int| 0 <= i < s.len() ==> is_digit(#[trigger] s[i])
    &&& (s[0] == '0' ==> s.len() == 1)
}

/// The scalar-field element of a 64-bit integer.
pub open spec fn fe_of_u64(v: u64) -> Fe {
    Fe { l0: v, l1: 0, l2: 0, l3: 0 }
}

/// The zero of the scalar field.
pub open spec fn fe_zero() -> Fe {
    fe_of_u64(0)
}

/// An element of the scalar field F_r, as four little-endian limbs.
#[derive(Clone, Copy, Debug, PartialEq, Eq, Structural)]
pub struct Fe {
    pub l0: u64,
    pub l1: u64,
    pub l2: u64,
    pub l3: u64,
}

/// An element of the base field F_q, as four little-endian limbs.
#[derive(Clone, Copy, Debug, PartialEq, Eq, Structural)]
pub struct Fq {
    pub l0: u64,
    pub l1: u64,
    pub l2: u64,
    pub l3: u64,
}

impl Fe {
    /// The integer that the limbs hold.
    pub open spec fn value(self) -> nat {
        limbs_value(self.l0, self.l1, self.l2, self.l3)
    }

    /// A canonical element: its integer is below `r`.
    pub open spec fn wf(self) -> bool {
        self.value() < modulus_r()
    }

    /// The zero element.
    pub fn zero() -> (z: Fe)
        ensures
            z == fe_zero(),
            z.wf(),
            z.value() == 0,
    {
        Fe { l0: 0, l1: 0, l2: 0, l3: 0 }
    }

    /// The one element.
    pub fn one() -> (o: Fe)
        ensures
            o.wf(),
            o.value() == 1,
    {
        Fe { l0: 1, l1: 0, l2: 0, l3: 0 }
    }

    /// The element of the integer `v` (every `u64` is below `r`).
    pub fn from_u64(v: u64) -> (f: Fe)
        ensures
            f == fe_of_u64(v),
            f.wf(),
            f.value() == v,
    {
        Fe { l0: v, l1: 0, l2: 0, l3: 0 }
    }

    /// The limbs, least significant first.
    pub fn limbs(&self) -> (l: [u64; 4])
        ensures
            l@ == seq![self.l0, self.l1, self.l2, self.l3],
    {
        [self.l0, self.l1, self.l2, self.l3]
    }

    /// The element held by the given limbs, least significant first.
    pub fn from_limbs(l: [u64; 4]) -> (f: Fe)
        ensures
            f == (Fe { l0: l@[0], l1: l@[1], l2: l@[2], l3: l@[3] }),
    {
        Fe { l0: l[0], l1: l[1], l2: l[2], l3: l[3] }
    }

    /// Whether the limbs hold an integer below `r` (compared limb by limb,
    /// most significant first).
    pub fn is_canonical(&self) -> (b: bool)
        ensures
            b == self.wf(),
    {
        let r0: u64 = 0x43e1_f593_f000_0001;
        let r1: u64 = 0x2833_e848_79b9_7091;
        let r2: u64 = 0xb850_45b6_8181_585d;
        let r3: u64 = 0x3064_4e72_e131_a029;
        proof {
            assert(modulus_r() == limbs_value(r0, r1, r2, r3));
            lemma_limbs_less(*self, Fe { l0: r0, l1: r1, l2: r2, l3: r3 });
        }
        if self.l3 != r3 {
            self.l3 < r3
        } else if self.l2 != r2 {
            self.l2 < r2
        } else if self.l1 != r1 {
            self.l1 < r1
        } else {
            self.l0 < r0
        }
    }

    /// Whether this element is zero.
    pub fn is_zero(&self) -> (b: bool)
        ensures
            b == (self.value() == 0),
    {
        self.l0 == 0 && self.l1 == 0 && self.l2 == 0 && self.l3 == 0
    }
}

impl Fq {
    /// The integer that the limbs hold.
    pub open spec fn value(self) -> nat {
        limbs_value(self.l0, self.l1, self.l2, self.l3)
    }

    /// A canonical element: its integer is below `q`.
    pub open spec fn wf(self) -> bool {
        self.value() < modulus_q()
    }

    /// The limbs, least significant first.
    pub fn limbs(&self) -> (l: [u64; 4])
        ensures
            l@ == seq![self.l0, self.l1, self.l2, self.l3],
    {
        [self.l0, self.l1, self.l2, self.l3]
    }

    /// The element held by the given limbs, least significant first.
    pub fn from_limbs(l: [u64; 4]) -> (f: Fq)
        ensures
            f == (Fq { l0: l@[0], l1: l@[1], l2: l@[2], l3: l@[3] }),
    {
        Fq { l0: l[0], l1: l[1], l2: l[2], l3: l[3] }
    }

    /// The element of a small integer.
    pub fn from_u64(v: u64) -> (f: Fq)
        ensures
            f.wf(),
            f.value() == v,
    {
        Fq { l0: v, l1: 0, l2: 0, l3: 0 }
    }
}

/// The limbs determine the integer and the integer determines the limbs.
pub proof fn lemma_limbs_injective(a: Fe, b: Fe)
    ensures
        (a.value() == b.value()) <==> (a == b),
{
    if a.value() == b.value() {
        lemma_limb_split(a.l0 as int, b.l0 as int,
            a.l1 + limb_base() * (a.l2 + limb_base() * a.l3),
            b.l1 + limb_base() * (b.l2 + limb_base() * b.l3));
        lemma_limb_split(a.l1 as int, b.l1 as int,
            a.l2 + limb_base() * a.l3, b.l2 + limb_base() * b.l3);
        lemma_limb_split(a.l2 as int, b.l2 as int, a.l3 as int, b.l3 as int);
    }
}

/// Integers held by limbs compare as their limbs do, most significant first.
pub proof fn lemma_limbs_less(a: Fe, b: Fe)
    ensures
        (a.value() < b.value()) <==> (a.l3 < b.l3 || (a.l3 == b.l3 && (a.l2 < b.l2 || (a.l2 == b.l2
            && (a.l1 < b.l1 || (a.l1 == b.l1 && a.l0 < b.l0)))))),
{
    let hb = limb_base() as int;
    lemma_limb_less(a.l2 as int, a.l3 as int, b.l2 as int, b.l3 as int);
    lemma_limb_less(a.l1 as int, a.l2 + hb * a.l3, b.l1 as int, b.l2 + hb * b.l3);
    lemma_limb_less(a.l0 as int, a.l1 + hb * (a.l2 + hb * a.l3), b.l0 as int, b.l1 + hb * (b.l2 + hb * b.l3));
    assert(a.l2 + hb * a.l3 >= 0) by (nonlinear_arith)
        requires a.l2 >= 0, a.l3 >= 0, hb > 0;
    assert(b.l2 + hb * b.l3 >= 0) by (nonlinear_arith)
        requires b.l2 >= 0, b.l3 >= 0, hb > 0;
    assert(a.l1 + hb * (a.l2 + hb * a.l3) >= 0) by (nonlinear_arith)
        requires a.l1 >= 0, a.l2 + hb * a.l3 >= 0, hb > 0;
    assert(b.l1 + hb * (b.l2 + hb * b.l3) >= 0) by (nonlinear_arith)
        requires b.l1 >= 0, b.l2 + hb * b.l3 >= 0, hb > 0;
    if a.l2 + hb * a.l3 == b.l2 + hb * b.l3 {
        lemma_limb_split(a.l2 as int, b.l2 as int, a.l3 as int, b.l3 as int);
    }
    if a.l1 + hb * (a.l2 + hb * a.l3) == b.l1 + hb * (b.l2 + hb * b.l3) {
        lemma_limb_split(a.l1 as int, b.l1 as int, a.l2 + hb * a.l3, b.l2 + hb * b.l3);
    }
}

proof fn lemma_limb_less(a: int, x: int, c: int, y: int)
    requires
        0 <= a < limb_base(),
        0 <= c < limb_base(),
        0 <= x,
        0 <= y,
    ensures
        (a + limb_base() * x < c + limb_base() * y) <==> (x < y || (x == y && a < c)),
{
    let b = limb_base() as int;
    assert((a + b * x < c + b * y) <==> (x < y || (x == y && a < c))) by (nonlinear_arith)
        requires
            0 <= a < b,
            0 <= c < b,
            0 <= x,
            0 <= y,
    {
        if x < y {
            assert(b * x + b <= b * y);
        } else if y < x {
            assert(b * y + b <= b * x);
        }
    }
}

proof fn lemma_limb_split(a: int, c: int, x: int, y: int)
    requires
        0 <= a < limb_base(),
        0 <= c < limb_base(),
        0 <= x,
        0 <= y,
        a + limb_base() * x == c + limb_base() * y,
    ensures
        a == c,
        x == y,
{
    let b = limb_base() as int;
    assert(a == c && x == y) by (nonlinear_arith)
        requires
            0 <= a < b,
            0 <= c < b,
            0 <= x,
            0 <= y,
            a + b * x == c + b * y,
    {
        if x < y {
            assert(b * x + b <= b * y);
        } else if y < x {
            assert(b * y + b <= b * x);
        }
    }
}

/// Little-endian digits read back give the integer they were taken from.
pub proof fn lemma_le_roundtrip(v: nat, n: nat)
    ensures
        le_bytes(v, n).len() == n,
        le_value(le_bytes(v, n)) == v % pow256(n),
    decreases n,
{
    if n > 0 {
        lemma_le_roundtrip(v / 256, (n - 1) as nat);
        let s = le_bytes(v, n);
        assert(s.drop_first() =~= le_bytes(v / 256, (n - 1) as nat));
        let p = pow256((n - 1) as nat);
        assert(p > 0) by {
            lemma_pow256_pos((n - 1) as nat);
        }
        assert((v % 256) + 256 * ((v / 256) % p) == v % (256 * p)) by {
            lemma_mod_split(v as int, p as int);
        }
    }
}

/// 256 to the power `n`.
pub open spec fn pow256(n: nat) -> nat
    decreases n,
{
    if n == 0 {
        1
    } else {
        256 * pow256((n - 1) as nat)
    }
}

proof fn lemma_pow256_pos(n: nat)
    ensures
        pow256(n) > 0,
    decreases n,
{
    if n > 0 {
        lemma_pow256_pos((n - 1) as nat);
    }
}

proof fn lemma_mod_split(v: int, p: int)
    requires
        v >= 0,
        p > 0,
    ensures
        (v % 256) + 256 * ((v / 256) % p) == v % (256 * p),
{
    vstd::arithmetic::div_mod::lemma_breakdown(v, 256, p);
}

/// 2^256 in terms of the base-256 power.
pub proof fn lemma_pow256_32()
    ensures
        pow256(32) == 0x1_0000_0000_0000_0000_0000_0000_0000_0000_0000_0000_0000_0000_0000_0000_0000_0000nat,
{
    reveal_with_fuel(pow256, 33);
}

/// Both moduli are below 2^254, so a canonical element fits in 32 bytes
/// with the two top bits free.
pub proof fn lemma_moduli_bounds()
    ensures
        modulus_r() < modulus_q(),
        modulus_q() < 0x4000_0000_0000_0000_0000_0000_0000_0000_0000_0000_0000_0000_0000_0000_0000_0000nat,
        limb_base() * limb_base() * limb_base() * limb_base()
            == 0x1_0000_0000_0000_0000_0000_0000_0000_0000_0000_0000_0000_0000_0000_0000_0000_0000nat,
{
}

/// The 8 little-endian bytes of a 64-bit integer.
pub fn u64_to_le_bytes(v: u64) -> (bytes: Vec<u8>)
    ensures
        bytes@ == le_bytes(v as nat, 8),
{
    let mut out: Vec<u8> = Vec::new();
    let mut x: u64 = v;
    let mut i: usize = 0;
    assert(pow256(0) == 1);
    while i < 8
        invariant
            i <= 8,
            x as nat == v as nat / pow256(i as nat),
            out@ + le_bytes(x as nat, (8 - i) as nat) == le_bytes(v as nat, 8),
        decreases 8 - i,
    {
        proof {
            let rest = le_bytes(x as nat, (8 - i) as nat);
            assert(rest == seq![(x as nat % 256) as u8] + le_bytes(x as nat / 256, (8 - i - 1) as nat));
            assert(out@.push((x % 256) as u8) + le_bytes(x as nat / 256, (8 - i - 1) as nat)
                =~= out@ + rest);
            lemma_pow256_pos(i as nat);
            vstd::arithmetic::div_mod::lemma_div_denominator(v as int, pow256(i as nat) as int, 256);
            assert(pow256((i + 1) as nat) == pow256(i as nat) * 256);
        }
        out.push((x % 256) as u8);
        x = x / 256;
        i = i + 1;
    }
    proof {
        assert(le_bytes(x as nat, 0) =~= Seq::<u8>::empty());
        assert(out@ + Seq::<u8>::empty() =~= out@);
    }
    out
}

/// The 64-bit integer of the first 8 little-endian bytes.
pub fn u64_from_le_bytes(bytes: &[u8]) -> (v: u64)
    requires
        bytes@.len() >= 8,
    ensures
        v as nat == le_value(bytes@.take(8)),
{
    let mut v: u64 = 0;
    let mut i: usize = 8;
    while i > 0
        invariant
            i <= 8,
            bytes@.len() >= 8,
            v as nat == le_value(bytes@.subrange(i as int, 8)),
            (v as nat) < pow256((8 - i) as nat),
        decreases i,
    {
        i = i - 1;
        proof {
            let s = bytes@.subrange(i as int, 8);
            assert(s.drop_first() =~= bytes@.subrange(i + 1, 8));
            assert(pow256((8 - i) as nat) == 256 * pow256((8 - i - 1) as nat));
            lemma_pow256_8_le((8 - i) as nat);
            assert(v * 256 + bytes@[i as int] < pow256((8 - i) as nat)) by (nonlinear_arith)
                requires
                    v < pow256((8 - i - 1) as nat),
                    bytes@[i as int] < 256,
                    pow256((8 - i) as nat) == 256 * pow256((8 - i - 1) as nat),
            ;
        }
        v = v * 256 + bytes[i] as u64;
    }
    proof {
        assert(bytes@.subrange(0, 8) =~= bytes@.take(8));
    }
    v
}

proof fn lemma_pow256_8_le(n: nat)
    requires
        n <= 8,
    ensures
        pow256(n) <= 0x1_0000_0000_0000_0000,
    decreases 8 - n,
{
    reveal_with_fuel(pow256, 9);
    if n < 8 {
        lemma_pow256_8_le(n + 1);
        lemma_pow256_pos(n);
    }
}

#[verifier::external_type_specification]
#[verifier::external_body]
pub struct ExSerializationError(ark_serialize::SerializationError);

/// arkworks `Add` on `Fr`: the sum modulo `r`.
#[verifier::external_body]
pub(crate) fn fe_add(a: &Fe, b: &Fe) -> (c: Fe)
    requires
        a.wf(),
        b.wf(),
    ensures
        c.wf(),
        c.value() == (a.value() + b.value()) % modulus_r(),
{
    let x = Fr::from_bigint(BigInt::new(a.limbs())).unwrap();
    let y = Fr::from_bigint(BigInt::new(b.limbs())).unwrap();
    Fe::from_limbs((x + y).into_bigint().0)
}

/// arkworks `Sub` on `Fr`: the difference modulo `r`.
#[verifier::external_body]
pub(crate) fn fe_sub(a: &Fe, b: &Fe) -> (c: Fe)
    requires
        a.wf(),
        b.wf(),
    ensures
        c.wf(),
        c.value() == (a.value() - b.value()) % (modulus_r() as int),
{
    let x = Fr::from_bigint(BigInt::new(a.limbs())).unwrap();
    let y = Fr::from_bigint(BigInt::new(b.limbs())).unwrap();
    Fe::from_limbs((x - y).into_bigint().0)
}

/// arkworks `Mul` on `Fr`: the product modulo `r`, which is not zero when
/// neither factor is (F_r is a field).
#[verifier::external_body]
pub(crate) fn fe_mul(a: &Fe, b: &Fe) -> (c: Fe)
    requires
        a.wf(),
        b.wf(),
    ensures
        c.wf(),
        c.value() == (a.value() * b.value()) % modulus_r(),
        a.value() != 0 && b.value() != 0 ==> c.value() != 0,
{
    let x = Fr::from_bigint(BigInt::new(a.limbs())).unwrap();
    let y = Fr::from_bigint(BigInt::new(b.limbs())).unwrap();
    Fe::from_limbs((x * y).into_bigint().0)
}

/// arkworks `Field::inverse` on `Fr`: `None` for zero, otherwise the element
/// whose product with `a` is one modulo `r`.
#[verifier::external_body]
pub(crate) fn fe_inverse(a: &Fe) -> (res: Option<Fe>)
    requires
        a.wf(),
    ensures
        res is None <==> a.value() == 0,
        res matches Some(i) ==> i.wf() && (a.value() * i.value()) % modulus_r() == 1,
{
    let x = Fr::from_bigint(BigInt::new(a.limbs())).unwrap();
    match x.inverse() {
        Some(i) => {
            Some(Fe::from_limbs(i.into_bigint().0))
        },
        None => None,
    }
}

/// arkworks `PrimeField::from_le_bytes_mod_order` on `Fr`: the little-endian
/// integer of the bytes, reduced modulo `r`.
#[verifier::external_body]
pub(crate) fn fe_from_le_bytes_mod_order(bytes: &[u8]) -> (f: Fe)
    ensures
        f.wf(),
        f.value() == le_value(bytes@) % modulus_r(),
{
    Fe::from_limbs(Fr::from_le_bytes_mod_order(bytes).into_bigint().0)
}

/// arkworks `UniformRand` on `Fr` drawn from the operating system's
/// randomness: some canonical element; which one is left open.
#[verifier::external_body]
pub fn random_field_element() -> (f: Fe)
    ensures
        f.wf(),
{
    let mut rng = rand::rngs::OsRng;
    Fe::from_limbs(Fr::rand(&mut rng).into_bigint().0)
}

/// arkworks `serialize_compressed` on `Fr`: the 32 little-endian bytes of the
/// canonical integer.
#[verifier::external_body]
pub(crate) fn fe_to_bytes(a: &Fe) -> (bytes: Vec<u8>)
    requires
        a.wf(),
    ensures
        bytes@ == le_bytes(a.value(), 32),
{
    let x = Fr::from_bigint(BigInt::new(a.limbs())).unwrap();
    let mut out = Vec::new();
    x.serialize_compressed(&mut out).unwrap();
    out
}

/// arkworks `deserialize_compressed` on `Fr`: reads 32 little-endian bytes and
/// accepts them when their integer is below `r`; later bytes are not read.
#[verifier::external_body]
pub(crate) fn fe_from_bytes(bytes: &[u8]) -> (res: Result<Fe, ark_serialize::SerializationError>)
    ensures
        res is Ok <==> (bytes@.len() >= 32 && le_value(bytes@.take(32)) < modulus_r()),
        res matches Ok(f) ==> f.wf() && f.value() == le_value(bytes@.take(32)),
{
    let mut reader = bytes;
    match Fr::deserialize_compressed(&mut reader) {
        Ok(x) => {
            Ok(Fe::from_limbs(x.into_bigint().0))
        },
        Err(e) => Err(e),
    }
}

/// arkworks `Display` on `Fr`: the decimal digits of the canonical integer
/// without leading zeroes (nothing at all for zero).
#[verifier::external_body]
pub(crate) fn fe_to_decimal(a: &Fe) -> (s: String)
    requires
        a.wf(),
    ensures
        s@ == decimal_digits(a.value()),
{
    let x = Fr::from_bigint(BigInt::new(a.limbs())).unwrap();
    x.to_string()
}

/// arkworks `FromStr` on `Fr`: accepts a non-empty run of ASCII digits without
/// a leading zero (or the single digit zero) and yields its value modulo `r`.
#[verifier::external_body]
pub(crate) fn fe_from_decimal(s: &str) -> (res: Result<Fe, ()>)
    ensures
        res is Ok <==> is_canonical_decimal(s@),
        res matches Ok(f) ==> f.wf() && f.value() == decimal_value(s@) % modulus_r(),
{
    match <Fr as std::str::FromStr>::from_str(s) {
        Ok(x) => {
            Ok(Fe::from_limbs(x.into_bigint().0))
        },
        Err(()) => Err(()),
    }
}

/// arkworks `serialize_compressed` on `Fq`: the 32 little-endian bytes of the
/// canonical integer.
#[verifier::external_body]
pub(crate) fn fq_to_bytes(a: &Fq) -> (bytes: Vec<u8>)
    requires
        a.wf(),
    ensures
        bytes@ == le_bytes(a.value(), 32),
{
    let x = ark_bn254::Fq::from_bigint(BigInt::new(a.limbs())).unwrap();
    let mut out = Vec::new();
    x.serialize_compressed(&mut out).unwrap();
    out
}

/// `Display` of arkworks' `SerializationError`, after a prefix (the standard
/// library's `format!`); the error's own text is not described.
#[verifier::external_body]
pub(crate) fn describe_serialization_error(prefix: &str, e: &ark_serialize::SerializationError) -> (m: String)
    ensures
        crate::encoding::has_prefix(m@, prefix@),
{
    format!("{}{}", prefix, e)
}

} // verus!
