use vxb_wallet::selection::UtxoEntry;
use vxb_wallet::spend::{
    can_unlock, change_amount, check_lustration, decimal_string, extract_expected_utxos,
    find_spending_key_for_utxo, output_notification_medium, proofs_match_tip, unlock_inputs, ChangeError,
    LustrationError, UnlockError, UtxoNotificationMedium,
};
use vxb_wallet::types::Digest;

fn d(x: u64) -> Digest {
    Digest(x, 7, 7, 7, 7)
}

fn utxo(amount: i128) -> UtxoEntry {
    UtxoEntry { id: 0, amount, confirm_height: 0, release_date: None }
}

#[test]
fn decimal_strings() {
    assert_eq!(decimal_string(0), "0");
    assert_eq!(decimal_string(7), "7");
    assert_eq!(decimal_string(10), "10");
    assert_eq!(decimal_string(1234567890), "1234567890");
    assert_eq!(decimal_string(u64::MAX), u64::MAX.to_string());
}

#[test]
fn lustration_refused_unless_accepted() {
    let err = check_lustration(true, false, Some(4242)).unwrap_err();
    assert_eq!(
        err.0,
        "All inputs with AOCL ranges at or below 4242 must lustrate. You must accept lustrations before making this transaction."
    );
    assert_eq!(
        err.message(),
        "Lustration is required for this transaction: All inputs with AOCL ranges at or below 4242 must lustrate. You must accept lustrations before making this transaction."
    );
    assert!(check_lustration(true, true, Some(4242)).is_ok());
    assert!(check_lustration(false, false, None).is_ok());
}

#[test]
fn lustration_error_message_wraps_text() {
    let e = LustrationError("x".to_string());
    assert_eq!(e.message(), "Lustration is required for this transaction: x");
}

#[test]
fn change_returns_the_surplus() {
    let inputs = vec![utxo(60), utxo(50)];
    assert_eq!(change_amount(90, 5, &inputs), Ok(Some(15)));
    assert_eq!(change_amount(100, 10, &inputs), Ok(None));
    assert_eq!(change_amount(120, 0, &inputs), Ok(None));
}

#[test]
fn change_overflow_is_reported() {
    let inputs = vec![utxo(i128::MAX)];
    assert_eq!(change_amount(-10, 0, &inputs), Err(ChangeError::Overflow));
}

#[test]
fn spending_key_lookup_finds_first_match() {
    let keys = vec![d(1), d(2), d(2)];
    assert_eq!(find_spending_key_for_utxo(&keys, d(2)), Some(1));
    assert_eq!(find_spending_key_for_utxo(&keys, d(3)), None);
    assert!(can_unlock(&keys, d(1)));
    assert!(!can_unlock(&keys, d(9)));
}

#[test]
fn owned_outputs_use_owned_medium() {
    let keys = vec![d(1)];
    assert_eq!(
        output_notification_medium(&keys, d(1), UtxoNotificationMedium::OffChain, UtxoNotificationMedium::OnChain),
        (UtxoNotificationMedium::OffChain, true)
    );
    assert_eq!(
        output_notification_medium(&keys, d(2), UtxoNotificationMedium::OffChain, UtxoNotificationMedium::OnChain),
        (UtxoNotificationMedium::OnChain, false)
    );
}

#[test]
fn expected_utxos_are_offchain_and_owned() {
    let keys = vec![d(1), d(2)];
    let outputs = vec![(true, d(2)), (false, d(1)), (true, d(3)), (true, d(1))];
    assert_eq!(extract_expected_utxos(&outputs, &keys), vec![(0, 1), (3, 0)]);
}

#[test]
fn proofs_must_belong_to_the_tip() {
    assert!(proofs_match_tip(120, 120));
    assert!(!proofs_match_tip(119, 120));
}

#[test]
fn unlock_pairs_inputs_with_keys() {
    let keys = vec![d(1), d(2), d(3), d(2)];
    assert_eq!(unlock_inputs(&vec![d(2), d(3)], &keys, &vec![None, None]), Ok(vec![1, 2]));
    // Extra proofs or inputs are left out, as when zipping.
    assert_eq!(unlock_inputs(&vec![d(2), d(9)], &keys, &vec![None]), Ok(vec![1]));
    assert_eq!(unlock_inputs(&vec![d(2)], &keys, &vec![None, None]), Ok(vec![1]));
    assert_eq!(unlock_inputs(&vec![], &keys, &vec![]), Ok(vec![]));
}

#[test]
fn unlock_reports_first_failure() {
    let keys = vec![d(1), d(2)];
    assert_eq!(
        unlock_inputs(&vec![d(1), d(9), d(2)], &keys, &vec![None, None, Some("late".to_string())]),
        Err(UnlockError::NoSpendingKey)
    );
    assert_eq!(
        unlock_inputs(&vec![d(1), d(2), d(9)], &keys, &vec![None, Some("bad leaf".to_string()), None]),
        Err(UnlockError::BadProofData("bad leaf".to_string()))
    );
    // The key is checked before the proof data.
    assert_eq!(
        unlock_inputs(&vec![d(9)], &keys, &vec![Some("bad leaf".to_string())]),
        Err(UnlockError::NoSpendingKey)
    );
    assert_eq!(UnlockError::NoSpendingKey.message(), "No spending key found for utxo");
    assert_eq!(
        UnlockError::BadProofData("bad leaf".to_string()).message(),
        "Server returned bad mutator set membership proof recovery data: bad leaf"
    );
}
