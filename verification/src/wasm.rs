//! The operations that the browser front end calls, on hexadecimal text:
//! note commitments and nullifiers, key generation and share exchange for
//! the audit nodes, and encryption and threshold decryption of audit keys.
//! Every failure is answered with a message naming the input that could not
//! be read.
use vstd::prelude::*;
use crate::curve::{g1_decompress_spec, g1_from_bytes, g1_to_bytes, G1Point};
use crate::encoding::{describe_hex_error, has_prefix, hex_decode, hex_decoded, hex_encode, hex_encoded, is_hex};
use crate::field::{
    describe_serialization_error, fe_from_bytes, fe_to_bytes, le_bytes, le_value, lemma_limbs_injective,
    modulus_r, Fe,
};
use crate::note::{note_commitment, note_nullifier, Note};
use crate::audit::{
    k_blinding, recombine, share_ids, shares_from_polynomial, AuditPublicKey, DecryptionShare, EncryptedAuditKey,
    PrivateKeyShare,
};
use crate::curve::{g1_mul, g1_mul_spec, gen_mul};
use crate::field::{fe_add, fe_from_le_bytes_mod_order, fe_sub, random_field_element, pow256};
use crate::curve::{sha256, sha256_spec};
use crate::audit::{fe_values, DkgPolynomial};
use crate::encoding::{describe_json_error, json_string_list, parse_string_list, prefixed, string_views};
use crate::audit::{fe_sum, int_sum, multiples_of_generator, point_sum};
use crate::lagrange::{distinct, poly_eval};

verus! {

/// What an audit node publishes and keeps after generating its keys: its
/// communication key pair, the commitments to its polynomial and the
/// evaluations it hands to the five nodes, all as hexadecimal text.
pub struct WasmNodeDkgResult {
    pub node_id: usize,
    pub communication_key: String,
    pub communication_secret: String,
    pub commitments: Vec<String>,
    pub shares: Vec<String>,
}

/// One node's decryption share as the front end hands it over.
pub struct WasmDecryptionShareInput {
    pub node_id: usize,
    pub share_point_hex: String,
}

/// Whether the bytes begin with the 32-byte encoding of a scalar-field
/// element (later bytes are not read).
pub open spec fn fe_readable(b: Seq<u8>) -> bool {
    b.len() >= 32 && le_value(b.take(32)) < modulus_r()
}

/// The integer of the first 32 bytes, little-endian.
pub open spec fn fe_read(b: Seq<u8>) -> nat {
    le_value(b.take(32))
}

/// Whether the bytes begin with the compressed encoding of a point of G1.
pub open spec fn point_readable(b: Seq<u8>) -> bool {
    b.len() >= 32 && g1_decompress_spec(b.take(32)) is Some
}

/// The point whose compressed encoding the bytes begin with.
pub open spec fn point_read(b: Seq<u8>) -> G1Point {
    g1_decompress_spec(b.take(32))->0
}

/// Whether hexadecimal text holds a scalar-field element.
pub open spec fn hex_fe_ok(s: Seq<char>) -> bool {
    is_hex(s) && fe_readable(hex_decoded(s))
}

/// The scalar that hexadecimal text holds.
pub open spec fn hex_fe(s: Seq<char>) -> nat {
    fe_read(hex_decoded(s))
}

/// Whether hexadecimal text holds a point of G1.
pub open spec fn hex_point_ok(s: Seq<char>) -> bool {
    is_hex(s) && point_readable(hex_decoded(s))
}

/// The point that hexadecimal text holds.
pub open spec fn hex_point(s: Seq<char>) -> G1Point {
    point_read(hex_decoded(s))
}

/// The canonical element of F_r with the value `v` (for `v` below `r`).
pub open spec fn fe_with_value(v: nat) -> Fe {
    choose|f: Fe| f.wf() && f.value() == v
}

/// The hexadecimal text of a scalar: its 32 little-endian bytes.
pub open spec fn fe_hex(v: nat) -> Seq<char> {
    hex_encoded(le_bytes(v, 32))
}

/// The hexadecimal text of a point: its 32-byte compressed encoding.
pub open spec fn point_hex(p: G1Point) -> Seq<char> {
    hex_encoded(p.compressed())
}

/// The message `m` for text `s` that could not be read: it begins with
/// `hex_prefix` when `s` is not hexadecimal, and with `value_prefix` when
/// its bytes do not hold the value.
pub open spec fn read_failure(s: Seq<char>, m: Seq<char>, hex_prefix: Seq<char>, value_prefix: Seq<char>) -> bool {
    if !is_hex(s) {
        has_prefix(m, hex_prefix)
    } else {
        has_prefix(m, value_prefix)
    }
}

/// A canonical element is the one `fe_with_value` picks for its value.
pub proof fn lemma_fe_with_value(f: Fe)
    requires
        f.wf(),
    ensures
        fe_with_value(f.value()) == f,
{
    let g = fe_with_value(f.value());
    assert(g.wf() && g.value() == f.value());
    lemma_limbs_injective(g, f);
}

/// Reads a scalar-field element from hexadecimal text.
fn read_hex_fe(s: &str, hex_prefix: &str, value_prefix: &str) -> (res: Result<Fe, String>)
    ensures
        res is Ok <==> hex_fe_ok(s@),
        res matches Ok(f) ==> f.wf() && f.value() == hex_fe(s@) && f == fe_with_value(hex_fe(s@)),
        res matches Err(m) ==> read_failure(s@, m@, hex_prefix@, value_prefix@),
{
    let bytes = match hex_decode(s) {
        Ok(b) => b,
        Err(e) => {
            return Err(describe_hex_error(hex_prefix, &e));
        },
    };
    match fe_from_bytes(bytes.as_slice()) {
        Ok(f) => {
            proof {
                lemma_fe_with_value(f);
            }
            Ok(f)
        },
        Err(e) => Err(describe_serialization_error(value_prefix, &e)),
    }
}

/// Reads a point of G1 from hexadecimal text.
fn read_hex_point(s: &str, hex_prefix: &str, value_prefix: &str) -> (res: Result<G1Point, String>)
    ensures
        res is Ok <==> hex_point_ok(s@),
        res matches Ok(p) ==> p == hex_point(s@) && p.wf() && p.on_curve(),
        res matches Err(m) ==> read_failure(s@, m@, hex_prefix@, value_prefix@),
{
    let bytes = match hex_decode(s) {
        Ok(b) => b,
        Err(e) => {
            return Err(describe_hex_error(hex_prefix, &e));
        },
    };
    match g1_from_bytes(bytes.as_slice()) {
        Ok(p) => Ok(p),
        Err(e) => Err(describe_serialization_error(value_prefix, &e)),
    }
}

/// The hexadecimal text of a scalar.
fn fe_to_hex(f: &Fe) -> (s: String)
    requires
        f.wf(),
    ensures
        s@ == fe_hex(f.value()),
{
    let bytes = fe_to_bytes(f);
    hex_encode(bytes.as_slice())
}

/// The hexadecimal text of a point.
fn point_to_hex(p: &G1Point) -> (s: String)
    requires
        p.wf(),
    ensures
        s@ == point_hex(*p),
{
    let bytes = g1_to_bytes(p);
    hex_encode(bytes.as_slice())
}

/// The commitment of the note with the given amount, secret and blinding
/// factor, in hexadecimal.
pub fn wasm_create_note_commitment(amount: u64, secret_hex: String, blinding_hex: String) -> (res: Result<String, String>)
    ensures
        res is Ok <==> hex_fe_ok(secret_hex@) && hex_fe_ok(blinding_hex@),
        res matches Ok(s) ==> s@ == fe_hex(note_commitment(amount, fe_with_value(hex_fe(secret_hex@)),
            fe_with_value(hex_fe(blinding_hex@))).value()),
        res matches Err(m) ==> if !hex_fe_ok(secret_hex@) {
            read_failure(secret_hex@, m@, "Secret Hex 解码失败: "@, "Secret 反序列化失败: "@)
        } else {
            read_failure(blinding_hex@, m@, "Blinding Hex 解码失败: "@, "Blinding 反序列化失败: "@)
        },
{
    let secret = read_hex_fe(secret_hex.as_str(), "Secret Hex 解码失败: ", "Secret 反序列化失败: ")?;
    let blinding = read_hex_fe(blinding_hex.as_str(), "Blinding Hex 解码失败: ", "Blinding 反序列化失败: ")?;
    let note = Note::new(amount, secret, blinding);
    let commitment = note.commitment();
    Ok(fe_to_hex(&commitment))
}

/// The nullifier of a note's secret at a leaf index, in hexadecimal.
pub fn wasm_create_note_nullifier(secret_hex: String, leaf_index: u64) -> (res: Result<String, String>)
    ensures
        res is Ok <==> hex_fe_ok(secret_hex@),
        res matches Ok(s) ==> s@ == fe_hex(note_nullifier(fe_with_value(hex_fe(secret_hex@)), leaf_index).value()),
        res matches Err(m) ==> read_failure(secret_hex@, m@, "Secret Hex 解码失败: "@, "Secret 反序列化失败: "@),
{
    let secret = read_hex_fe(secret_hex.as_str(), "Secret Hex 解码失败: ", "Secret 反序列化失败: ")?;
    let note = Note::new(0, secret, Fe::from_u64(0));
    let nullifier = note.nullifier(leaf_index);
    Ok(fe_to_hex(&nullifier))
}

/// Whether the bytes hold an audit-key ciphertext: a point of G1, then a
/// scalar-field element.
pub open spec fn ciphertext_readable(b: Seq<u8>) -> bool {
    b.len() >= 64 && point_readable(b) && le_value(b.subrange(32, 64)) < modulus_r()
}

/// The ciphertext that the bytes hold.
pub open spec fn ciphertext_read(b: Seq<u8>) -> EncryptedAuditKey {
    EncryptedAuditKey { ephemeral_public: point_read(b), masked_key: fe_with_value(le_value(b.subrange(32, 64))) }
}

/// Reads an audit-key ciphertext from hexadecimal text.
fn read_hex_ciphertext(s: &str) -> (res: Result<EncryptedAuditKey, String>)
    ensures
        res is Ok <==> is_hex(s@) && ciphertext_readable(hex_decoded(s@)),
        res matches Ok(c) ==> c == ciphertext_read(hex_decoded(s@)) && c.ephemeral_public.wf()
            && c.ephemeral_public.on_curve() && c.masked_key.wf(),
        res matches Err(m) ==> read_failure(s@, m@, "Hex 解码失败: "@, "密文反序列化失败: "@),
{
    let bytes = match hex_decode(s) {
        Ok(b) => b,
        Err(e) => {
            return Err(describe_hex_error("Hex 解码失败: ", &e));
        },
    };
    match EncryptedAuditKey::from_bytes(bytes.as_slice()) {
        Ok(c) => {
            proof {
                lemma_fe_with_value(c.masked_key);
            }
            Ok(c)
        },
        Err(e) => Err(prefixed("密文反序列化失败: ", e.describe().as_str())),
    }
}

/// Node `node_id`'s partial decryption of an audit-key ciphertext with its
/// key share: the point sk_j · R, in hexadecimal.
pub fn wasm_decrypt_share(ciphertext_hex: String, sk_share_hex: String, node_id: usize) -> (res: Result<String, String>)
    ensures
        res is Ok <==> is_hex(ciphertext_hex@) && ciphertext_readable(hex_decoded(ciphertext_hex@))
            && hex_fe_ok(sk_share_hex@),
        res matches Ok(s) ==> s@ == point_hex(g1_mul_spec(
            ciphertext_read(hex_decoded(ciphertext_hex@)).ephemeral_public, hex_fe(sk_share_hex@))),
        res matches Err(m) ==> if !(is_hex(ciphertext_hex@) && ciphertext_readable(hex_decoded(ciphertext_hex@))) {
            read_failure(ciphertext_hex@, m@, "Hex 解码失败: "@, "密文反序列化失败: "@)
        } else {
            read_failure(sk_share_hex@, m@, "Hex 解码失败: "@, "私钥碎片反序列化失败: "@)
        },
{
    let ciphertext = read_hex_ciphertext(ciphertext_hex.as_str())?;
    let sk = read_hex_fe(sk_share_hex.as_str(), "Hex 解码失败: ", "私钥碎片反序列化失败: ")?;
    let priv_share = PrivateKeyShare { node_id, share: sk };
    let dec_share = ciphertext.decrypt_share(&priv_share);
    Ok(point_to_hex(&dec_share.share_point))
}

/// Encrypts a symmetric key (hexadecimal scalar) under the joint audit key
/// (hexadecimal point) with a fresh random scalar: the ciphertext's 64
/// bytes, in hexadecimal.
pub fn wasm_encrypt_audit_key(global_pub_key_hex: String, sym_key_hex: String) -> (res: Result<String, String>)
    ensures
        res is Ok <==> hex_point_ok(global_pub_key_hex@) && hex_fe_ok(sym_key_hex@),
        res matches Ok(s) ==> exists|c: EncryptedAuditKey, rr: nat| rr < modulus_r()
            && #[trigger] hex_encoded(c.encoded()) == s@
            && c.ephemeral_public == #[trigger] gen_mul(rr as int) && c.masked_key.wf()
            && c.masked_key.value() == (hex_fe(sym_key_hex@) + k_blinding(g1_mul_spec(hex_point(global_pub_key_hex@), rr)))
                % modulus_r(),
        res matches Err(m) ==> if !hex_point_ok(global_pub_key_hex@) {
            if !is_hex(global_pub_key_hex@) {
                has_prefix(m@, "Hex 解码失败: "@)
            } else {
                has_prefix(m@, "公钥反序列化失败: "@)
            }
        } else {
            read_failure(sym_key_hex@, m@, "Hex 解码失败: "@, "对称密钥反序列化失败: "@)
        },
{
    let pub_key_bytes = match hex_decode(global_pub_key_hex.as_str()) {
        Ok(b) => b,
        Err(e) => {
            return Err(describe_hex_error("Hex 解码失败: ", &e));
        },
    };
    let pub_key = match AuditPublicKey::from_bytes(pub_key_bytes.as_slice()) {
        Ok(pk) => pk,
        Err(e) => {
            return Err(prefixed("公钥反序列化失败: ", e.describe().as_str()));
        },
    };
    let sym_key = read_hex_fe(sym_key_hex.as_str(), "Hex 解码失败: ", "对称密钥反序列化失败: ")?;
    let ciphertext = EncryptedAuditKey::encrypt(&pub_key, sym_key);
    let bytes = ciphertext.to_bytes();
    Ok(hex_encode(bytes.as_slice()))
}

/// The decryption shares that the front end's inputs hold.
pub open spec fn decoded_shares(inputs: Seq<WasmDecryptionShareInput>) -> Seq<DecryptionShare> {
    inputs.map_values(|d: WasmDecryptionShareInput|
        DecryptionShare { node_id: d.node_id, share_point: hex_point(d.share_point_hex@) })
}

/// Whether input `i` is the first whose share point cannot be read.
pub open spec fn first_unreadable_share(inputs: Seq<WasmDecryptionShareInput>, i: int) -> bool {
    &&& 0 <= i < inputs.len()
    &&& !hex_point_ok(inputs[i].share_point_hex@)
    &&& forall|j: int| 0 <= j < i ==> hex_point_ok(#[trigger] inputs[j].share_point_hex@)
}

/// Threshold decryption of an audit-key ciphertext from the nodes'
/// decryption shares, which come as read from their JSON list (or as the
/// reader's message, when the list could not be read): the recovered key,
/// in hexadecimal. At least three shares are needed. When the shares are
/// the partial decryptions r·F(j)·G of distinct nodes under a key polynomial
/// F whose constant term is the joint secret and which has no more
/// coefficients than there are shares, the encrypted key comes back.
pub fn wasm_threshold_decrypt(ciphertext_hex: String, shares: Result<Vec<WasmDecryptionShareInput>, String>)
    -> (res: Result<String, String>)
    ensures
        res is Ok <==> is_hex(ciphertext_hex@) && ciphertext_readable(hex_decoded(ciphertext_hex@))
            && shares is Ok && shares->Ok_0@.len() >= 3
            && forall|i: int| 0 <= i < shares->Ok_0@.len() ==> hex_point_ok(#[trigger] shares->Ok_0@[i].share_point_hex@),
        res matches Ok(s) ==> s@ == fe_hex(((ciphertext_read(hex_decoded(ciphertext_hex@)).masked_key.value()
            - k_blinding(recombine(decoded_shares(shares->Ok_0@), share_ids(decoded_shares(shares->Ok_0@)),
                shares->Ok_0@.len()))) % (modulus_r() as int)) as nat),
        res matches Err(m) ==> if !(is_hex(ciphertext_hex@) && ciphertext_readable(hex_decoded(ciphertext_hex@))) {
            read_failure(ciphertext_hex@, m@, "Hex 解码失败: "@, "密文反序列化失败: "@)
        } else if shares is Err {
            m@ == "JSON 解析失败: "@ + shares->Err_0@
        } else if shares->Ok_0@.len() < 3 {
            m@ == "需要至少 3 个节点的解密份额方可进行门限解密"@
        } else {
            exists|i: int| first_unreadable_share(shares->Ok_0@, i) && read_failure(
                #[trigger] shares->Ok_0@[i].share_point_hex@, m@, "Hex 解码失败: "@, "解密碎片点反序列化失败: "@)
        },
        forall|coeffs: Seq<int>, rr: int, sym: Fe|
            #[trigger] ciphertext_read(hex_decoded(ciphertext_hex@)).encrypts(sym, rr, poly_eval(coeffs, 0))
            && res is Ok && shares_from_polynomial(decoded_shares(shares->Ok_0@), coeffs, rr)
            && coeffs.len() <= shares->Ok_0@.len()
            && distinct(share_ids(decoded_shares(shares->Ok_0@)))
            ==> res->Ok_0@ == fe_hex(sym.value()),
{
    let ciphertext = read_hex_ciphertext(ciphertext_hex.as_str())?;
    let inputs = match shares {
        Ok(v) => v,
        Err(detail) => {
            return Err(prefixed("JSON 解析失败: ", detail.as_str()));
        },
    };
    if inputs.len() < 3 {
        return Err("需要至少 3 个节点的解密份额方可进行门限解密".to_owned());
    }
    let ghost expected = decoded_shares(inputs@);
    let mut decoded: Vec<DecryptionShare> = Vec::new();
    let mut i: usize = 0;
    while i < inputs.len()
        invariant
            i <= inputs@.len(),
            is_hex(ciphertext_hex@) && ciphertext_readable(hex_decoded(ciphertext_hex@)),
            shares is Ok && shares->Ok_0@ == inputs@,
            inputs@.len() >= 3,
            expected == decoded_shares(inputs@),
            decoded@ == expected.take(i as int),
            forall|j: int| 0 <= j < i ==> hex_point_ok(#[trigger] inputs@[j].share_point_hex@),
            forall|j: int| 0 <= j < i ==> (#[trigger] decoded@[j]).share_point.wf(),
        decreases inputs@.len() - i,
    {
        let input = &inputs[i];
        let point = match read_hex_point(input.share_point_hex.as_str(), "Hex 解码失败: ", "解密碎片点反序列化失败: ") {
            Ok(p) => p,
            Err(m) => {
                proof {
                    assert(first_unreadable_share(inputs@, i as int));
                }
                return Err(m);
            },
        };
        decoded.push(DecryptionShare { node_id: input.node_id, share_point: point });
        proof {
            assert(decoded@ =~= expected.take(i + 1));
        }
        i = i + 1;
    }
    proof {
        assert(decoded@ =~= expected);
    }
    let sym_key = match ciphertext.decrypt(decoded.as_slice()) {
        Ok(k) => k,
        Err(e) => {
            return Err(prefixed("门限解密失败: ", e.describe().as_str()));
        },
    };
    Ok(fe_to_hex(&sym_key))
}

/// The points that a list of hexadecimal texts holds.
pub open spec fn hex_points(hs: Seq<Seq<char>>) -> Seq<G1Point> {
    hs.map_values(|h: Seq<char>| hex_point(h))
}

/// The scalars that a list of hexadecimal texts holds.
pub open spec fn hex_fes(hs: Seq<Seq<char>>) -> Seq<Fe> {
    hs.map_values(|h: Seq<char>| fe_with_value(hex_fe(h)))
}

/// Whether text `i` is the first of the list that holds no point.
pub open spec fn first_unreadable_point(hs: Seq<Seq<char>>, i: int) -> bool {
    &&& 0 <= i < hs.len()
    &&& !hex_point_ok(hs[i])
    &&& forall|j: int| 0 <= j < i ==> hex_point_ok(#[trigger] hs[j])
}

/// Whether text `i` is the first of the list that holds no scalar.
pub open spec fn first_unreadable_fe(hs: Seq<Seq<char>>, i: int) -> bool {
    &&& 0 <= i < hs.len()
    &&& !hex_fe_ok(hs[i])
    &&& forall|j: int| 0 <= j < i ==> hex_fe_ok(#[trigger] hs[j])
}

/// The answer to aggregating the five nodes' constant-term commitments
/// given as hexadecimal texts: the hexadecimal joint key, their sum (so
/// (Σ a_i)·G when they are the multiples a_i·G), or the message for the
/// first text that holds no point, or for a count other than five.
pub open spec fn commitment_aggregation(hs: Seq<Seq<char>>, res: Result<String, String>) -> bool {
    &&& res is Ok <==> hs.len() == 5 && forall|i: int| 0 <= i < hs.len() ==> hex_point_ok(#[trigger] hs[i])
    &&& res matches Ok(s) ==> s@ == point_hex(point_sum(hex_points(hs)))
    &&& res matches Ok(s) ==> forall|exps: Seq<int>| #[trigger] multiples_of_generator(hex_points(hs), exps)
        ==> s@ == point_hex(gen_mul(int_sum(exps)))
    &&& res matches Err(m) ==> if hs.len() != 5 {
        m@ == "需要 5 个节点的承诺首项进行聚合"@
    } else {
        exists|i: int| first_unreadable_point(hs, i)
            && read_failure(#[trigger] hs[i], m@, "Hex 解码失败: "@, "承诺点反序列化失败: "@)
    }
}

/// The answer to aggregating the five evaluations that a node received,
/// given as hexadecimal texts: the hexadecimal key share, their sum modulo
/// r, or the message for the first text that holds no scalar, or for a
/// count other than five.
pub open spec fn share_aggregation(hs: Seq<Seq<char>>, res: Result<String, String>) -> bool {
    &&& res is Ok <==> hs.len() == 5 && forall|i: int| 0 <= i < hs.len() ==> hex_fe_ok(#[trigger] hs[i])
    &&& res matches Ok(s) ==> s@ == fe_hex((fe_sum(hex_fes(hs)) % (modulus_r() as int)) as nat)
    &&& res matches Err(m) ==> if hs.len() != 5 {
        m@ == "需要恰好 5 个多项式评估 Share 进行聚合"@
    } else {
        exists|i: int| first_unreadable_fe(hs, i)
            && read_failure(#[trigger] hs[i], m@, "Hex 解码失败: "@, "Share 反序列化失败: "@)
    }
}

/// The joint audit public key from the five nodes' constant-term
/// commitments A_{i,0}, given as hexadecimal texts.
pub fn aggregate_commitment_hexes(a0_hexes: Vec<String>) -> (res: Result<String, String>)
    ensures
        commitment_aggregation(string_views(a0_hexes@), res),
{
    let ghost hs = string_views(a0_hexes@);
    if a0_hexes.len() != 5 {
        return Err("需要 5 个节点的承诺首项进行聚合".to_owned());
    }
    let mut points: Vec<G1Point> = Vec::new();
    let mut i: usize = 0;
    while i < a0_hexes.len()
        invariant
            i <= a0_hexes@.len(),
            a0_hexes@.len() == 5,
            hs == string_views(a0_hexes@),
            points@ == hex_points(hs).take(i as int),
            forall|j: int| 0 <= j < i ==> hex_point_ok(#[trigger] hs[j]),
            forall|j: int| 0 <= j < i ==> (#[trigger] points@[j]).wf(),
        decreases a0_hexes@.len() - i,
    {
        let point = match read_hex_point(a0_hexes[i].as_str(), "Hex 解码失败: ", "承诺点反序列化失败: ") {
            Ok(p) => p,
            Err(m) => {
                proof {
                    assert(first_unreadable_point(hs, i as int));
                }
                return Err(m);
            },
        };
        points.push(point);
        proof {
            assert(points@ =~= hex_points(hs).take(i + 1));
        }
        i = i + 1;
    }
    proof {
        assert(points@ =~= hex_points(hs));
    }
    let global_pk = AuditPublicKey::aggregate(points.as_slice());
    Ok(point_to_hex(&global_pk.point))
}

/// The joint audit public key from a JSON list of the five nodes'
/// hexadecimal constant-term commitments.
pub fn wasm_aggregate_global_public_key(commitments_json: String) -> (res: Result<String, String>)
    ensures
        json_string_list(commitments_json@) is None ==> (res matches Err(m) && has_prefix(m@, "JSON 解析失败: "@)),
        json_string_list(commitments_json@) matches Some(hs) ==> commitment_aggregation(hs, res),
{
    match parse_string_list(commitments_json.as_str()) {
        Ok(a0_hexes) => aggregate_commitment_hexes(a0_hexes),
        Err(e) => Err(describe_json_error("JSON 解析失败: ", &e)),
    }
}

/// A node's key share from the five evaluations it received, given as
/// hexadecimal texts.
pub fn aggregate_share_hexes(share_hexes: Vec<String>, node_id: usize) -> (res: Result<String, String>)
    ensures
        share_aggregation(string_views(share_hexes@), res),
{
    let ghost hs = string_views(share_hexes@);
    if share_hexes.len() != 5 {
        return Err("需要恰好 5 个多项式评估 Share 进行聚合".to_owned());
    }
    let mut shares: Vec<Fe> = Vec::new();
    let mut i: usize = 0;
    while i < share_hexes.len()
        invariant
            i <= share_hexes@.len(),
            share_hexes@.len() == 5,
            hs == string_views(share_hexes@),
            shares@ == hex_fes(hs).take(i as int),
            forall|j: int| 0 <= j < i ==> hex_fe_ok(#[trigger] hs[j]),
            forall|j: int| 0 <= j < i ==> (#[trigger] shares@[j]).wf(),
        decreases share_hexes@.len() - i,
    {
        let val = match read_hex_fe(share_hexes[i].as_str(), "Hex 解码失败: ", "Share 反序列化失败: ") {
            Ok(f) => f,
            Err(m) => {
                proof {
                    assert(first_unreadable_fe(hs, i as int));
                }
                return Err(m);
            },
        };
        shares.push(val);
        proof {
            assert(shares@ =~= hex_fes(hs).take(i + 1));
        }
        i = i + 1;
    }
    proof {
        assert(shares@ =~= hex_fes(hs));
    }
    let sk_share = PrivateKeyShare::aggregate(shares.as_slice(), node_id);
    Ok(fe_to_hex(&sk_share.share))
}

/// Node `node_id`'s key share from a JSON list of the five hexadecimal
/// evaluations it received.
pub fn wasm_aggregate_shares(shares_json: String, node_id: usize) -> (res: Result<String, String>)
    ensures
        json_string_list(shares_json@) is None ==> (res matches Err(m) && has_prefix(m@, "JSON 解析失败: "@)),
        json_string_list(shares_json@) matches Some(hs) ==> share_aggregation(hs, res),
{
    match parse_string_list(shares_json.as_str()) {
        Ok(share_hexes) => aggregate_share_hexes(share_hexes, node_id),
        Err(e) => Err(describe_json_error("JSON 解析失败: ", &e)),
    }
}

/// The ciphertext of a DKG evaluation `share` that the node whose
/// communication secret is `sk` can open, made with the scalar `rr`: the
/// point rr·G, then share + H(rr·sk·G) modulo r.
pub open spec fn dkg_share_ciphertext(share: nat, sk: int, rr: nat) -> Seq<u8> {
    gen_mul(rr as int).compressed() + le_bytes((share + k_blinding(gen_mul(sk * rr))) % modulus_r(), 32)
}

/// Encrypts a DKG evaluation to the holder of the secret behind the
/// communication key `recipient`, with the scalar `r`: (r·G, share + H(r·PK)),
/// in hexadecimal.
pub fn encrypt_dkg_share_with(share: &Fe, recipient: &G1Point, r: &Fe) -> (s: String)
    requires
        share.wf(),
        recipient.wf(),
        r.wf(),
    ensures
        s@ == hex_encoded(gen_mul(r.value() as int).compressed()
            + le_bytes((share.value() + k_blinding(g1_mul_spec(*recipient, r.value()))) % modulus_r(), 32)),
        gen_mul(r.value() as int).wf(),
        gen_mul(r.value() as int).on_curve(),
        forall|sk: int| #[trigger] gen_mul(sk) == *recipient
            ==> s@ == hex_encoded(dkg_share_ciphertext(share.value(), sk, r.value())),
{
    let g = G1Point::generator();
    let c1 = g1_mul(&g, r);
    let shared_secret = g1_mul(recipient, r);
    let k = EncryptedAuditKey::derive_k_blinding(&shared_secret);
    let c2 = fe_add(share, &k);
    proof {
        vstd::arithmetic::div_mod::lemma_small_mod(r.value(), modulus_r());
        assert(c1 == gen_mul(r.value() as int));
    }
    let mut bytes = g1_to_bytes(&c1);
    let mut c2_bytes = fe_to_bytes(&c2);
    bytes.append(&mut c2_bytes);
    hex_encode(bytes.as_slice())
}

/// Encrypts a DKG evaluation (hexadecimal scalar) to the node whose
/// communication key is given (hexadecimal point), with a fresh random
/// scalar: the 64-byte ciphertext, in hexadecimal.
pub fn wasm_encrypt_dkg_share(share_hex: String, recipient_pubkey_hex: String) -> (res: Result<String, String>)
    ensures
        res is Ok <==> hex_fe_ok(share_hex@) && hex_point_ok(recipient_pubkey_hex@),
        res matches Ok(s) ==> exists|rr: nat| rr < modulus_r() && #[trigger] gen_mul(rr as int).wf()
            && gen_mul(rr as int).on_curve()
            && s@ == hex_encoded(gen_mul(rr as int).compressed() + le_bytes((hex_fe(share_hex@)
                + k_blinding(g1_mul_spec(hex_point(recipient_pubkey_hex@), rr))) % modulus_r(), 32))
            && (forall|sk: int| #[trigger] gen_mul(sk) == hex_point(recipient_pubkey_hex@)
                ==> s@ == hex_encoded(dkg_share_ciphertext(hex_fe(share_hex@), sk, rr))),
        res matches Err(m) ==> if !hex_fe_ok(share_hex@) {
            read_failure(share_hex@, m@, "Share Hex 解码失败: "@, "Share 反序列化失败: "@)
        } else {
            read_failure(recipient_pubkey_hex@, m@, "公钥 Hex 解码失败: "@, "公钥点反序列化失败: "@)
        },
{
    let share = read_hex_fe(share_hex.as_str(), "Share Hex 解码失败: ", "Share 反序列化失败: ")?;
    let recipient = read_hex_point(recipient_pubkey_hex.as_str(), "公钥 Hex 解码失败: ", "公钥点反序列化失败: ")?;
    let r = random_field_element();
    Ok(encrypt_dkg_share_with(&share, &recipient, &r))
}

/// Whether the bytes hold a DKG share ciphertext: exactly 64 bytes, a point
/// of G1 and then a scalar-field element.
pub open spec fn dkg_ciphertext_readable(b: Seq<u8>) -> bool {
    b.len() == 64 && point_readable(b) && le_value(b.subrange(32, 64)) < modulus_r()
}

/// Opens a DKG evaluation encrypted to this node (hexadecimal ciphertext)
/// with its communication secret (hexadecimal scalar): C_2 - H(sk·C_1), in
/// hexadecimal. A ciphertext made for the node's key opens to the
/// evaluation it was made from.
pub fn wasm_decrypt_dkg_share(encrypted_share_hex: String, my_comm_secret_hex: String) -> (res: Result<String, String>)
    ensures
        res is Ok <==> is_hex(encrypted_share_hex@) && dkg_ciphertext_readable(hex_decoded(encrypted_share_hex@))
            && hex_fe_ok(my_comm_secret_hex@),
        res matches Ok(s) ==> s@ == fe_hex(((le_value(hex_decoded(encrypted_share_hex@).subrange(32, 64))
            - k_blinding(g1_mul_spec(point_read(hex_decoded(encrypted_share_hex@)), hex_fe(my_comm_secret_hex@))))
            % (modulus_r() as int)) as nat),
        res matches Err(m) ==> if !is_hex(encrypted_share_hex@) {
            has_prefix(m@, "密文 Hex 解码失败: "@)
        } else if hex_decoded(encrypted_share_hex@).len() != 64 {
            m@ == "密文长度应为 64 字节"@
        } else if !point_readable(hex_decoded(encrypted_share_hex@)) {
            has_prefix(m@, "密文 C1 反序列化失败: "@)
        } else if le_value(hex_decoded(encrypted_share_hex@).subrange(32, 64)) >= modulus_r() {
            has_prefix(m@, "密文 C2 反序列化失败: "@)
        } else {
            read_failure(my_comm_secret_hex@, m@, "私钥 Hex 解码失败: "@, "私钥反序列化失败: "@)
        },
        forall|share: nat, sk: nat, rr: nat| share < modulus_r() && sk < modulus_r()
            && gen_mul(rr as int).wf() && gen_mul(rr as int).on_curve()
            && #[trigger] hex_encoded(dkg_share_ciphertext(share, sk as int, rr)) == encrypted_share_hex@
            && my_comm_secret_hex@ == fe_hex(sk)
            ==> res is Ok && res->Ok_0@ == fe_hex(share),
{
    let cipher_bytes = match hex_decode(encrypted_share_hex.as_str()) {
        Ok(b) => b,
        Err(e) => {
            proof {
                lemma_dkg_ciphertext_text(encrypted_share_hex@);
            }
            return Err(describe_hex_error("密文 Hex 解码失败: ", &e));
        },
    };
    proof {
        lemma_dkg_ciphertext_text(encrypted_share_hex@);
        lemma_fe_hex_text(my_comm_secret_hex@);
    }
    if cipher_bytes.len() != 64 {
        return Err("密文长度应为 64 字节".to_owned());
    }
    let c1_bytes = vstd::slice::slice_subrange(cipher_bytes.as_slice(), 0, 32);
    let c2_bytes = vstd::slice::slice_subrange(cipher_bytes.as_slice(), 32, 64);
    proof {
        assert(c1_bytes@.take(32) =~= cipher_bytes@.take(32));
        assert(c2_bytes@.take(32) =~= cipher_bytes@.subrange(32, 64));
    }
    let c1 = match g1_from_bytes(c1_bytes) {
        Ok(p) => p,
        Err(e) => {
            return Err(describe_serialization_error("密文 C1 反序列化失败: ", &e));
        },
    };
    let c2 = match fe_from_bytes(c2_bytes) {
        Ok(f) => f,
        Err(e) => {
            return Err(describe_serialization_error("密文 C2 反序列化失败: ", &e));
        },
    };
    let sk = read_hex_fe(my_comm_secret_hex.as_str(), "私钥 Hex 解码失败: ", "私钥反序列化失败: ")?;
    let shared_secret = g1_mul(&c1, &sk);
    let k = EncryptedAuditKey::derive_k_blinding(&shared_secret);
    let share = fe_sub(&c2, &k);
    proof {
        assert forall|sv: nat, skv: nat, rr: nat| sv < modulus_r() && skv < modulus_r()
            && gen_mul(rr as int).wf() && gen_mul(rr as int).on_curve()
            && #[trigger] hex_encoded(dkg_share_ciphertext(sv, skv as int, rr)) == encrypted_share_hex@
            && my_comm_secret_hex@ == fe_hex(skv)
            implies share.value() == sv by {
            assert(c1 == gen_mul(rr as int));
            assert(shared_secret == gen_mul((rr as int) * sk.value()));
            assert((rr as int) * (skv as int) == (skv as int) * (rr as int)) by (nonlinear_arith);
            lemma_unmask(sv as int, k_blinding(gen_mul((skv as int) * (rr as int))) as int);
        }
    }
    Ok(fe_to_hex(&share))
}

/// Hexadecimal text of a DKG share ciphertext reads back as the ciphertext:
/// 64 bytes, the point's encoding and then the masked evaluation.
proof fn lemma_dkg_ciphertext_text(text: Seq<char>)
    ensures
        forall|sv: nat, skv: int, rr: nat| sv < modulus_r()
            && #[trigger] hex_encoded(dkg_share_ciphertext(sv, skv, rr)) == text ==> {
                let v = (sv + k_blinding(gen_mul(skv * rr))) % modulus_r();
                &&& is_hex(text)
                &&& hex_decoded(text) == dkg_share_ciphertext(sv, skv, rr)
                &&& hex_decoded(text).len() == 64
                &&& hex_decoded(text).take(32) == gen_mul(rr as int).compressed()
                &&& le_value(hex_decoded(text).subrange(32, 64)) == v
                &&& v < modulus_r()
            },
{
    assert forall|sv: nat, skv: int, rr: nat| sv < modulus_r()
        && #[trigger] hex_encoded(dkg_share_ciphertext(sv, skv, rr)) == text implies {
            let v = (sv + k_blinding(gen_mul(skv * rr))) % modulus_r();
            &&& is_hex(text)
            &&& hex_decoded(text) == dkg_share_ciphertext(sv, skv, rr)
            &&& hex_decoded(text).len() == 64
            &&& hex_decoded(text).take(32) == gen_mul(rr as int).compressed()
            &&& le_value(hex_decoded(text).subrange(32, 64)) == v
            &&& v < modulus_r()
        } by {
        let ct = dkg_share_ciphertext(sv, skv, rr);
        let v = (sv + k_blinding(gen_mul(skv * rr))) % modulus_r();
        crate::encoding::lemma_hex_roundtrip(ct);
        crate::field::lemma_le_roundtrip(gen_mul(rr as int).compressed_value(), 32);
        crate::field::lemma_le_roundtrip(v, 32);
        crate::field::lemma_pow256_32();
        crate::field::lemma_moduli_bounds();
        vstd::arithmetic::div_mod::lemma_small_mod(v, pow256(32));
        assert(ct.take(32) =~= gen_mul(rr as int).compressed());
        assert(ct.subrange(32, 64) =~= le_bytes(v, 32));
    }
}

/// The hexadecimal text of a scalar below r reads back as that scalar.
proof fn lemma_fe_hex_text(text: Seq<char>)
    ensures
        forall|v: nat| v < modulus_r() && #[trigger] fe_hex(v) == text ==> hex_fe_ok(text) && hex_fe(text) == v,
{
    assert forall|v: nat| v < modulus_r() && #[trigger] fe_hex(v) == text implies hex_fe_ok(text) && hex_fe(text) == v by {
        crate::encoding::lemma_hex_roundtrip(le_bytes(v, 32));
        crate::field::lemma_le_roundtrip(v, 32);
        crate::field::lemma_pow256_32();
        crate::field::lemma_moduli_bounds();
        vstd::arithmetic::div_mod::lemma_small_mod(v, pow256(32));
        assert(le_bytes(v, 32).take(32) =~= le_bytes(v, 32));
    }
}

/// Masking a scalar below r with a blinding below r and removing the
/// blinding again gives the scalar back.
proof fn lemma_unmask(sv: int, kb: int)
    requires
        0 <= sv < modulus_r(),
        0 <= kb < modulus_r(),
    ensures
        ((sv + kb) % (modulus_r() as int) - kb) % (modulus_r() as int) == sv,
{
    let r = modulus_r() as int;
    vstd::arithmetic::div_mod::lemma_sub_mod_noop(sv + kb, kb, r);
    vstd::arithmetic::div_mod::lemma_mod_twice(sv + kb, r);
    vstd::arithmetic::div_mod::lemma_small_mod(kb as nat, r as nat);
    vstd::arithmetic::div_mod::lemma_small_mod(sv as nat, r as nat);
}

/// The text that, after the seed, derives coefficient `i` of a node's
/// polynomial: the ASCII bytes of `coeff_` and the decimal digit `i`.
pub open spec fn coeff_label(i: nat) -> Seq<u8> {
    seq![99u8, 111u8, 101u8, 102u8, 102u8, 95u8, (48 + i) as u8]
}

/// The text that, after the seed, derives a node's communication secret:
/// the ASCII bytes of `comm_secret`.
pub open spec fn comm_secret_label() -> Seq<u8> {
    seq![99u8, 111u8, 109u8, 109u8, 95u8, 115u8, 101u8, 99u8, 114u8, 101u8, 116u8]
}

/// The scalar that a digest derives: its little-endian integer modulo r.
pub open spec fn digest_scalar(d: Seq<u8>) -> int {
    (le_value(d) % modulus_r()) as int
}

/// The scalars that a list of digests derives.
pub open spec fn digest_scalars(ds: Seq<Vec<u8>>) -> Seq<int> {
    ds.map_values(|d: Vec<u8>| digest_scalar(d@))
}

/// Whether `res` is what a node with polynomial coefficients `coeffs` and
/// communication secret `secret` publishes: the key secret·G and the
/// secret, the commitments a_k·G, and its polynomial's values at the node
/// ids 1 to 5, all in hexadecimal.
pub open spec fn dkg_result_of(res: WasmNodeDkgResult, node_id: usize, coeffs: Seq<int>, secret: int) -> bool {
    &&& res.node_id == node_id
    &&& res.communication_secret@ == fe_hex(secret as nat)
    &&& res.communication_key@ == point_hex(gen_mul(secret))
    &&& res.commitments@.len() == coeffs.len()
    &&& forall|k: int| 0 <= k < coeffs.len() ==> #[trigger] res.commitments@[k]@ == point_hex(gen_mul(coeffs[k]))
    &&& res.shares@.len() == 5
    &&& forall|j: int| 0 <= j < 5 ==> #[trigger] res.shares@[j]@
        == fe_hex((poly_eval(coeffs, j + 1) % (modulus_r() as int)) as nat)
}

/// A node's keys from the digests that derive them: one coefficient of its
/// polynomial from each digest of `coeff_digests`, in order, and its
/// communication secret from `secret_digest`.
pub fn dkg_keys_from_digests(node_id: usize, coeff_digests: Vec<Vec<u8>>, secret_digest: Vec<u8>)
    -> (res: WasmNodeDkgResult)
    ensures
        dkg_result_of(res, node_id, digest_scalars(coeff_digests@), digest_scalar(secret_digest@)),
{
    let ghost coeffs = digest_scalars(coeff_digests@);
    let mut coefficients: Vec<Fe> = Vec::new();
    let mut i: usize = 0;
    while i < coeff_digests.len()
        invariant
            i <= coeff_digests@.len(),
            coeffs == digest_scalars(coeff_digests@),
            fe_values(coefficients@) == coeffs.take(i as int),
            forall|k: int| 0 <= k < i ==> (#[trigger] coefficients@[k]).wf(),
        decreases coeff_digests@.len() - i,
    {
        let coeff = fe_from_le_bytes_mod_order(coeff_digests[i].as_slice());
        let ghost prev = coefficients@;
        coefficients.push(coeff);
        proof {
            assert(coeffs[i as int] == coeff.value() as int);
            assert(fe_values(coefficients@) =~= fe_values(prev).push(coeff.value() as int));
            assert(coeffs.take(i + 1) =~= coeffs.take(i as int).push(coeffs[i as int]));
        }
        i = i + 1;
    }
    proof {
        assert(fe_values(coefficients@) =~= coeffs);
    }
    let poly = DkgPolynomial { node_id, coefficients };
    let comms = poly.commitments();
    let mut commitments: Vec<String> = Vec::new();
    let mut k: usize = 0;
    while k < comms.len()
        invariant
            k <= comms@.len(),
            comms@.len() == coeffs.len(),
            fe_values(poly.coefficients@) == coeffs,
            forall|t: int| 0 <= t < comms@.len() ==> #[trigger] comms@[t] == gen_mul(poly.coefficients@[t].value() as int),
            forall|t: int| 0 <= t < comms@.len() ==> (#[trigger] comms@[t]).wf(),
            commitments@.len() == k,
            forall|t: int| 0 <= t < k ==> #[trigger] commitments@[t]@ == point_hex(gen_mul(coeffs[t])),
        decreases comms@.len() - k,
    {
        let text = point_to_hex(&comms[k]);
        commitments.push(text);
        proof {
            assert(coeffs[k as int] == poly.coefficients@[k as int].value() as int);
        }
        k = k + 1;
    }
    let mut shares: Vec<String> = Vec::new();
    let mut j: u64 = 1;
    while j <= 5
        invariant
            1 <= j <= 6,
            poly.wf(),
            fe_values(poly.coefficients@) == coeffs,
            shares@.len() == j - 1,
            forall|t: int| 0 <= t < j - 1 ==> #[trigger] shares@[t]@
                == fe_hex((poly_eval(coeffs, t + 1) % (modulus_r() as int)) as nat),
        decreases 6 - j,
    {
        let x = Fe::from_u64(j);
        let eval_val = poly.evaluate(x);
        shares.push(fe_to_hex(&eval_val));
        j = j + 1;
    }
    let comm_secret = fe_from_le_bytes_mod_order(secret_digest.as_slice());
    let g = G1Point::generator();
    let comm_public = g1_mul(&g, &comm_secret);
    proof {
        vstd::arithmetic::div_mod::lemma_small_mod(comm_secret.value(), modulus_r());
    }
    WasmNodeDkgResult {
        node_id,
        communication_key: point_to_hex(&comm_public),
        communication_secret: fe_to_hex(&comm_secret),
        commitments,
        shares,
    }
}

/// The bytes of `a` followed by those of `b`.
fn concat_bytes(a: &[u8], b: &[u8]) -> (c: Vec<u8>)
    ensures
        c@ == a@ + b@,
{
    let mut c: Vec<u8> = Vec::new();
    let mut i: usize = 0;
    while i < a.len()
        invariant
            i <= a@.len(),
            c@ == a@.take(i as int),
        decreases a@.len() - i,
    {
        c.push(a[i]);
        proof {
            assert(c@ =~= a@.take(i + 1));
        }
        i = i + 1;
    }
    let mut j: usize = 0;
    while j < b.len()
        invariant
            j <= b@.len(),
            c@ == a@ + b@.take(j as int),
        decreases b@.len() - j,
    {
        c.push(b[j]);
        proof {
            assert(c@ =~= a@ + b@.take(j + 1));
        }
        j = j + 1;
    }
    proof {
        assert(a@.take(a@.len() as int) =~= a@);
        assert(b@.take(b@.len() as int) =~= b@);
    }
    c
}

/// Deterministic key generation for audit node `node_id` from a 32-byte
/// seed (hexadecimal): three polynomial coefficients, each SHA-256 of the
/// seed and `coeff_i` read modulo r, their commitments, the evaluations for
/// the nodes 1 to 5, and a communication key pair whose secret is SHA-256
/// of the seed and `comm_secret` read modulo r.
pub fn wasm_generate_dkg_keys(node_id: usize, seed_hex: String) -> (res: Result<WasmNodeDkgResult, String>)
    ensures
        res is Ok <==> is_hex(seed_hex@) && hex_decoded(seed_hex@).len() == 32,
        res matches Ok(keys) ==> dkg_result_of(keys, node_id,
            Seq::new(3, |i: int| digest_scalar(sha256_spec(hex_decoded(seed_hex@) + coeff_label(i as nat)))),
            digest_scalar(sha256_spec(hex_decoded(seed_hex@) + comm_secret_label()))),
        res matches Err(m) ==> if !is_hex(seed_hex@) {
            has_prefix(m@, "Seed Hex 解码失败: "@)
        } else {
            m@ == "Seed 长度必须为 32 字节"@
        },
{
    let seed_bytes = match hex_decode(seed_hex.as_str()) {
        Ok(b) => b,
        Err(e) => {
            return Err(describe_hex_error("Seed Hex 解码失败: ", &e));
        },
    };
    if seed_bytes.len() != 32 {
        return Err("Seed 长度必须为 32 字节".to_owned());
    }
    let ghost expected = Seq::new(3, |i: int| digest_scalar(sha256_spec(seed_bytes@ + coeff_label(i as nat))));
    let mut coeff_digests: Vec<Vec<u8>> = Vec::new();
    let mut i: u8 = 0;
    while i < 3
        invariant
            i <= 3,
            expected == Seq::new(3, |i: int| digest_scalar(sha256_spec(seed_bytes@ + coeff_label(i as nat)))),
            coeff_digests@.len() == i,
            digest_scalars(coeff_digests@) == expected.take(i as int),
        decreases 3 - i,
    {
        let label: Vec<u8> = vec![99u8, 111u8, 101u8, 102u8, 102u8, 95u8, 48u8 + i];
        proof {
            assert(label@ =~= coeff_label(i as nat));
        }
        let data = concat_bytes(seed_bytes.as_slice(), label.as_slice());
        let digest = sha256(data.as_slice());
        coeff_digests.push(digest);
        proof {
            assert(digest_scalars(coeff_digests@) =~= expected.take(i + 1));
        }
        i = i + 1;
    }
    proof {
        assert(digest_scalars(coeff_digests@) =~= expected);
    }
    let secret_label: Vec<u8> = vec![99u8, 111u8, 109u8, 109u8, 95u8, 115u8, 101u8, 99u8, 114u8, 101u8, 116u8];
    proof {
        assert(secret_label@ =~= comm_secret_label());
    }
    let secret_data = concat_bytes(seed_bytes.as_slice(), secret_label.as_slice());
    let secret_digest = sha256(secret_data.as_slice());
    Ok(dkg_keys_from_digests(node_id, coeff_digests, secret_digest))
}

} // verus!
