//! Replaying an audit from on-chain data: finding the audit-key ciphertext
//! among the logged event data and recovering the symmetric key with the
//! key shares of nodes 1, 3 and 5.
use vstd::prelude::*;
use vstd::utf8::encode_utf8;
use crate::audit::{k_blinding, recombine, share_ids, AuditError, DecryptionShare, EncryptedAuditKey, PrivateKeyShare};
use crate::curve::g1_mul_spec;
use crate::encoding::{hex_decode, hex_decoded, is_hex};
use crate::field::{fe_from_bytes, modulus_r};
use crate::wasm::{ciphertext_read, ciphertext_readable, fe_hex, hex_fe, hex_fe_ok, lemma_fe_with_value};

verus! {

/// One audit node's entry in the key file: its id and its aggregated
/// private key share in hexadecimal.
pub struct NodeKeyRecord {
    pub node_id: usize,
    pub aggregated_private_share: String,
}

/// Why an audit replay stops.
#[derive(Debug)]
pub enum ReplayError {
    /// No logged event data contains the ciphertext.
    CiphertextNotFound,
    /// The ciphertext is not hexadecimal.
    CiphertextHex,
    /// The ciphertext's bytes are not a ciphertext.
    CiphertextBytes(AuditError),
    /// The key file has no entry at this position.
    MissingNode(usize),
    /// The key share at this position is not hexadecimal.
    ShareHex(usize),
    /// The key share at this position is not a scalar-field element.
    ShareValue(usize),
    /// Threshold decryption refused the shares.
    Decryption(AuditError),
}

/// Whether `n` occurs in `h` at position `i`.
pub open spec fn occurs_at(h: Seq<u8>, n: Seq<u8>, i: int) -> bool {
    0 <= i && i + n.len() <= h.len() && h.subrange(i, i + n.len()) == n
}

/// Whether `n` occurs somewhere in `h`.
pub open spec fn contains_bytes(h: Seq<u8>, n: Seq<u8>) -> bool {
    exists|i: int| #[trigger] occurs_at(h, n, i)
}

/// Whether some logged event data contains the text `target`.
pub open spec fn logged(log_data: Seq<String>, target: &str) -> bool {
    exists|i: int| 0 <= i < log_data.len() && #[trigger] contains_bytes(encode_utf8(log_data[i]@), encode_utf8(target@))
}

/// The positions in the key file of the nodes that decrypt: nodes 1, 3, 5.
pub open spec fn selected_positions() -> Seq<int> {
    seq![0int, 2int, 4int]
}

/// The decryption shares that the selected nodes make for ciphertext `c`.
pub open spec fn replay_shares(nodes: Seq<NodeKeyRecord>, c: EncryptedAuditKey) -> Seq<DecryptionShare> {
    selected_positions().map_values(|p: int| DecryptionShare {
        node_id: nodes[p].node_id,
        share_point: g1_mul_spec(c.ephemeral_public, hex_fe(nodes[p].aggregated_private_share@)),
    })
}

/// Whether the text `needle` occurs in the text `hay`, byte for byte (the
/// standard library's `str::contains` with a string pattern).
pub fn text_contains(hay: &str, needle: &str) -> (b: bool)
    ensures
        b == contains_bytes(encode_utf8(hay@), encode_utf8(needle@)),
{
    let h = hay.as_bytes();
    let n = needle.as_bytes();
    if n.len() > h.len() {
        return false;
    }
    let hl = h.len();
    let last = hl - n.len();
    let mut i: usize = 0;
    loop
        invariant
            h@ == encode_utf8(hay@),
            n@ == encode_utf8(needle@),
            n@.len() <= h@.len(),
            hl == h@.len(),
            last == h@.len() - n@.len(),
            i <= last,
            forall|j: int| 0 <= j < i ==> !occurs_at(h@, n@, j),
        decreases last - i,
    {
        let mut k: usize = 0;
        let mut same = true;
        proof {
            assert(h@.subrange(i as int, i as int) =~= n@.take(0));
        }
        while k < n.len()
            invariant
                h@ == encode_utf8(hay@),
                n@ == encode_utf8(needle@),
                n@.len() <= h@.len(),
                hl == h@.len(),
                i <= last,
                last == h@.len() - n@.len(),
                k <= n@.len(),
                same == (h@.subrange(i as int, i + k) =~= n@.take(k as int)),
            decreases n@.len() - k,
        {
            proof {
                assert(h@.subrange(i as int, i + k + 1) =~= h@.subrange(i as int, i + k).push(h@[i + k]));
                assert(n@.take(k + 1) =~= n@.take(k as int).push(n@[k as int]));
                if h@.subrange(i as int, i + k + 1) =~= n@.take(k + 1) {
                    assert(h@.subrange(i as int, i + k) =~= h@.subrange(i as int, i + k + 1).drop_last());
                    assert(n@.take(k as int) =~= n@.take(k + 1).drop_last());
                    assert(h@.subrange(i as int, i + k + 1)[k as int] == h@[i + k]);
                    assert(n@.take(k + 1)[k as int] == n@[k as int]);
                }
            }
            same = same && h[i + k] == n[k];
            k = k + 1;
        }
        proof {
            assert(n@.take(n@.len() as int) =~= n@);
        }
        if same {
            proof {
                assert(occurs_at(h@, n@, i as int));
            }
            return true;
        }
        if i == last {
            proof {
                assert forall|j: int| #[trigger] occurs_at(h@, n@, j) implies false by {
                    assert(0 <= j <= i);
                    if j == i {
                        assert(h@.subrange(i as int, i + n@.len()) =~= n@);
                    }
                }
            }
            return false;
        }
        i = i + 1;
    }
}

/// The ciphertext `target` when some logged event data contains it.
pub fn find_ciphertext(log_data: &Vec<String>, target: &str) -> (res: Option<String>)
    ensures
        res is Some <==> logged(log_data@, target),
        res matches Some(s) ==> s@ == target@,
{
    let mut i: usize = 0;
    while i < log_data.len()
        invariant
            i <= log_data@.len(),
            forall|j: int| 0 <= j < i ==> !contains_bytes(#[trigger] encode_utf8(log_data@[j]@), encode_utf8(target@)),
        decreases log_data@.len() - i,
    {
        if text_contains(log_data[i].as_str(), target) {
            return Some(target.to_owned());
        }
        i = i + 1;
    }
    None
}

/// Recovers the symmetric key of an audit from the event data logged on
/// chain, the ciphertext to look for, and the key file's nodes: the
/// ciphertext must occur in the logs; the nodes at positions 0, 2 and 4
/// (nodes 1, 3, 5) make their decryption shares with their key shares, and
/// threshold decryption recovers the key, in hexadecimal.
pub fn replay_audit_decryption(nodes: &Vec<NodeKeyRecord>, log_data: &Vec<String>, sample_ciphertext: &str)
    -> (res: Result<String, ReplayError>)
    ensures
        res is Ok <==> logged(log_data@, sample_ciphertext) && is_hex(sample_ciphertext@)
            && ciphertext_readable(hex_decoded(sample_ciphertext@)) && nodes@.len() >= 5
            && forall|t: int| 0 <= t < 3 ==> hex_fe_ok(#[trigger] nodes@[selected_positions()[t]].aggregated_private_share@),
        res matches Ok(s) ==> {
            let c = ciphertext_read(hex_decoded(sample_ciphertext@));
            let shares = replay_shares(nodes@, c);
            s@ == fe_hex(((c.masked_key.value() - k_blinding(recombine(shares, share_ids(shares), 3)))
                % (modulus_r() as int)) as nat)
        },
        res matches Err(ReplayError::CiphertextNotFound) ==> !logged(log_data@, sample_ciphertext),
        res matches Err(ReplayError::CiphertextHex) ==> logged(log_data@, sample_ciphertext)
            && !is_hex(sample_ciphertext@),
        res matches Err(ReplayError::CiphertextBytes(_)) ==> logged(log_data@, sample_ciphertext)
            && is_hex(sample_ciphertext@) && !ciphertext_readable(hex_decoded(sample_ciphertext@)),
        res matches Err(ReplayError::MissingNode(p)) ==> (p == 0 || p == 2 || p == 4) && p >= nodes@.len(),
        res matches Err(ReplayError::ShareHex(p)) ==> (p == 0 || p == 2 || p == 4) && p < nodes@.len()
            && !is_hex(nodes@[p as int].aggregated_private_share@),
        res matches Err(ReplayError::ShareValue(p)) ==> (p == 0 || p == 2 || p == 4) && p < nodes@.len()
            && is_hex(nodes@[p as int].aggregated_private_share@)
            && !hex_fe_ok(nodes@[p as int].aggregated_private_share@),
        !(res matches Err(ReplayError::Decryption(_))),
{
    let ciphertext_hex = match find_ciphertext(log_data, sample_ciphertext) {
        Some(s) => s,
        None => {
            return Err(ReplayError::CiphertextNotFound);
        },
    };
    let ciphertext_bytes = match hex_decode(ciphertext_hex.as_str()) {
        Ok(b) => b,
        Err(_) => {
            return Err(ReplayError::CiphertextHex);
        },
    };
    let ciphertext = match EncryptedAuditKey::from_bytes(ciphertext_bytes.as_slice()) {
        Ok(c) => c,
        Err(e) => {
            return Err(ReplayError::CiphertextBytes(e));
        },
    };
    proof {
        lemma_fe_with_value(ciphertext.masked_key);
        assert(ciphertext == ciphertext_read(hex_decoded(sample_ciphertext@)));
    }
    let ghost expected = replay_shares(nodes@, ciphertext);
    let positions: [usize; 3] = [0, 2, 4];
    let mut decryption_shares: Vec<DecryptionShare> = Vec::new();
    let mut t: usize = 0;
    while t < 3
        invariant
            t <= 3,
            positions@ == seq![0usize, 2usize, 4usize],
            expected == replay_shares(nodes@, ciphertext),
            ciphertext.ephemeral_public.wf(),
            decryption_shares@ == expected.take(t as int),
            forall|u: int| 0 <= u < t ==> (#[trigger] decryption_shares@[u]).share_point.wf(),
            forall|u: int| 0 <= u < t ==> selected_positions()[u] < nodes@.len()
                && hex_fe_ok(#[trigger] nodes@[selected_positions()[u]].aggregated_private_share@),
        decreases 3 - t,
    {
        let idx = positions[t];
        if idx >= nodes.len() {
            return Err(ReplayError::MissingNode(idx));
        }
        let node = &nodes[idx];
        proof {
            assert(selected_positions()[t as int] == idx as int);
        }
        let sk_share_bytes = match hex_decode(node.aggregated_private_share.as_str()) {
            Ok(b) => b,
            Err(_) => {
                proof {
                    assert(selected_positions()[t as int] == idx as int);
                }
                return Err(ReplayError::ShareHex(idx));
            },
        };
        let sk_share = match fe_from_bytes(sk_share_bytes.as_slice()) {
            Ok(f) => f,
            Err(_) => {
                proof {
                    assert(selected_positions()[t as int] == idx as int);
                }
                return Err(ReplayError::ShareValue(idx));
            },
        };
        let priv_key_share = PrivateKeyShare { node_id: node.node_id, share: sk_share };
        let dec_share = ciphertext.decrypt_share(&priv_key_share);
        decryption_shares.push(dec_share);
        proof {
            assert(decryption_shares@ =~= expected.take(t + 1));
        }
        t = t + 1;
    }
    proof {
        assert(decryption_shares@ =~= expected);
        assert forall|u: int| 0 <= u < 3 implies hex_fe_ok(
            #[trigger] nodes@[selected_positions()[u]].aggregated_private_share@) by {
        }
    }
    match ciphertext.decrypt(decryption_shares.as_slice()) {
        Ok(sym_key) => {
            let bytes = crate::field::fe_to_bytes(&sym_key);
            Ok(crate::encoding::hex_encode(bytes.as_slice()))
        },
        Err(e) => Err(ReplayError::Decryption(e)),
    }
}

/// One transaction of a chain broadcast: the function it called, if named,
/// and the contract it went to.
pub struct BroadcastCall {
    pub function: Option<String>,
    pub contract_address: String,
}

/// Whether a transaction called a function whose name contains `transact`.
pub open spec fn calls_transact(c: BroadcastCall) -> bool {
    c.function matches Some(f) && contains_bytes(encode_utf8(f@), encode_utf8("transact"@))
}

/// The shielded pool's address found among the first `n` transactions: the
/// address of the first that calls `transact` (a later one when that address
/// is empty), or the empty text.
pub open spec fn pool_address_among(calls: Seq<BroadcastCall>, n: nat) -> Seq<char>
    decreases n,
{
    if n == 0 {
        Seq::empty()
    } else {
        let before = pool_address_among(calls, (n - 1) as nat);
        if before.len() == 0 && calls_transact(calls[n - 1]) {
            calls[n - 1].contract_address@
        } else {
            before
        }
    }
}

/// The shielded pool's address: the contract of the first transaction that
/// calls a function named with `transact`, or the empty text.
pub fn pool_address(calls: &Vec<BroadcastCall>) -> (addr: String)
    ensures
        addr@ == pool_address_among(calls@, calls@.len()),
{
    let mut pool_addr = String::new();
    let mut i: usize = 0;
    while i < calls.len()
        invariant
            i <= calls@.len(),
            pool_addr@ == pool_address_among(calls@, i as nat),
        decreases calls@.len() - i,
    {
        let call = &calls[i];
        match &call.function {
            Some(func) => {
                if text_contains(func.as_str(), "transact") && pool_addr.as_str().is_empty() {
                    pool_addr = call.contract_address.clone();
                }
            },
            None => {},
        }
        i = i + 1;
    }
    pool_addr
}

} // verus!
