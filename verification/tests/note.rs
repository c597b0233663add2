use privacy_stablecoin::field::Fe;
use privacy_stablecoin::note::{fe_to_string, random_field_element, string_to_fe, Note};

#[test]
fn test_note_commitment() {
    let secret = random_field_element();
    let blinding = random_field_element();
    let note = Note::new(1000, secret, blinding);

    let commitment = note.commitment();

    // the commitment is deterministic
    let commitment2 = note.commitment();
    assert_eq!(commitment, commitment2);
}

#[test]
fn test_note_nullifier_uniqueness() {
    let secret = random_field_element();
    let blinding = random_field_element();
    let note = Note::new(1000, secret, blinding);

    // different leaf indices give different nullifiers
    let nullifier_0 = note.nullifier(0);
    let nullifier_1 = note.nullifier(1);

    assert_ne!(nullifier_0, nullifier_1);
}

#[test]
fn commitment_matches_circomlib_poseidon_of_small_inputs() {
    // Poseidon(1, 2, 3) and Poseidon(1, 2) as published for circomlib
    let note = Note::new(1, Fe::from_u64(2), Fe::from_u64(3));
    assert_eq!(
        fe_to_string(&note.commitment()),
        "6542985608222806190361240322586112750744169038454362455181422643027100751666"
    );
    let n = Note::new(0, Fe::from_u64(1), Fe::from_u64(0)).nullifier(2);
    assert_eq!(
        fe_to_string(&n),
        "7853200120776062878684798364095072458815029376092732009249414926327459813530"
    );
}

#[test]
fn commitment_depends_on_amount() {
    let secret = Fe::from_u64(11);
    let blinding = Fe::from_u64(12);
    assert_ne!(Note::new(1, secret, blinding).commitment(), Note::new(2, secret, blinding).commitment());
}

#[test]
fn decimal_text_round_trip() {
    let f = Fe::from_u64(1234567890123);
    let s = fe_to_string(&f);
    assert_eq!(s, "1234567890123");
    assert_eq!(string_to_fe(&s), Ok(f));
    // zero prints as 0, which parses back
    assert_eq!(fe_to_string(&Fe::zero()), "0");
    assert_eq!(string_to_fe(&fe_to_string(&Fe::zero())), Ok(Fe::zero()));
    assert!(string_to_fe("").is_err());
    assert_eq!(string_to_fe("0"), Ok(Fe::zero()));
    assert!(string_to_fe("012").is_err());
    assert!(string_to_fe("12a").is_err());
    assert_eq!(string_to_fe("12a"), Err("FieldElement parse error".to_string()));
}

#[test]
fn decimal_text_reduces_modulo_r() {
    // r itself reads as zero, r + 5 as five
    let r = "21888242871839275222246405745257275088548364400416034343698204186575808495617";
    assert_eq!(string_to_fe(r), Ok(Fe::zero()));
    let r5 = "21888242871839275222246405745257275088548364400416034343698204186575808495622";
    assert_eq!(string_to_fe(r5), Ok(Fe::from_u64(5)));
}
