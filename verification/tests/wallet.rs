use privacy_stablecoin::field::Fe;
use privacy_stablecoin::wallet::Wallet;

#[test]
fn test_wallet_deposit_flow() {
    let mut wallet = Wallet::new();

    // starts empty
    assert_eq!(wallet.balance(), 0);

    let (note, commitment) = wallet.create_deposit_note(1000);

    wallet.confirm_deposit(note, commitment);

    assert_eq!(wallet.balance(), 1000);
}

#[test]
fn test_wallet_multiple_deposits() {
    let mut wallet = Wallet::new();

    for i in 1..=5 {
        let (note, commitment) = wallet.create_deposit_note(i * 100);
        wallet.confirm_deposit(note, commitment);
    }

    // 100 + 200 + 300 + 400 + 500 = 1500
    assert_eq!(wallet.balance(), 1500);
    assert_eq!(wallet.unspent_notes().len(), 5);
}

#[test]
fn test_wallet_spend_note() {
    let mut wallet = Wallet::new();

    let (note, commitment) = wallet.create_deposit_note(1000);
    wallet.confirm_deposit(note, commitment);

    assert_eq!(wallet.balance(), 1000);

    wallet.mark_spent(0);

    assert_eq!(wallet.balance(), 0);
    assert_eq!(wallet.unspent_notes().len(), 0);
}

#[test]
fn external_commitments_take_leaf_indices() {
    let mut wallet = Wallet::from_secret_key(Fe::from_u64(42));
    wallet.sync_external_commitment(Fe::from_u64(5));
    let (note, commitment) = wallet.create_deposit_note(70);
    assert_eq!(note.secret, Fe::from_u64(42));
    assert_eq!(note.amount, 70);
    assert_eq!(commitment, note.commitment());
    wallet.confirm_deposit(note, commitment);
    let unspent = wallet.unspent_notes();
    assert_eq!(unspent.len(), 1);
    assert_eq!(unspent[0].leaf_index, 1);
    // marking an index the wallet does not hold changes nothing
    wallet.mark_spent(0);
    assert_eq!(wallet.balance(), 70);
    wallet.mark_spent(1);
    assert_eq!(wallet.balance(), 0);
}

#[test]
fn spending_one_of_several_notes() {
    let mut wallet = Wallet::default();
    for amount in [10u64, 20, 30] {
        let (note, commitment) = wallet.create_deposit_note(amount);
        wallet.confirm_deposit(note, commitment);
    }
    wallet.mark_spent(1);
    assert_eq!(wallet.balance(), 40);
    let amounts: Vec<u64> = wallet.unspent_notes().iter().map(|n| n.note.amount).collect();
    assert_eq!(amounts, vec![10, 30]);
}
