use vxb_wallet::selection::{
    candidate_order, check_unlocked_count, pick_inputs, required_amount, stable_sort_by_rule, str_eq,
    InputError, InputSelectionRule, UtxoEntry,
};

fn utxo(id: i64, amount: i128, confirm_height: i64, release_date: Option<u64>) -> UtxoEntry {
    UtxoEntry { id, amount, confirm_height, release_date }
}

#[test]
fn parses_all_rule_names() {
    assert_eq!(InputSelectionRule::from_str("minimum"), Ok(InputSelectionRule::Minimum));
    assert_eq!(InputSelectionRule::from_str("maximum"), Ok(InputSelectionRule::Maximum));
    assert_eq!(InputSelectionRule::from_str("oldest"), Ok(InputSelectionRule::Oldest));
    assert_eq!(InputSelectionRule::from_str("newest"), Ok(InputSelectionRule::Newest));
    assert_eq!(InputSelectionRule::from_str("random"), Ok(InputSelectionRule::Random));
}

#[test]
fn rejects_unknown_rule_names() {
    assert_eq!(InputSelectionRule::from_str("Minimum"), Err(()));
    assert_eq!(InputSelectionRule::from_str(""), Err(()));
    assert_eq!(InputSelectionRule::from_str("oldest "), Err(()));
    assert_eq!(InputSelectionRule::from_str("largest"), Err(()));
}

#[test]
fn default_rule_is_oldest() {
    assert_eq!(InputSelectionRule::default(), InputSelectionRule::Oldest);
}

#[test]
fn str_eq_compares_characters() {
    assert!(str_eq("abc", "abc"));
    assert!(!str_eq("abc", "abd"));
    assert!(!str_eq("ab", "abc"));
    assert!(str_eq("", ""));
}

#[test]
fn minimum_sorts_ascending_and_keeps_ties() {
    let input = vec![utxo(1, 5, 10, None), utxo(2, 3, 11, None), utxo(3, 5, 9, None), utxo(4, 1, 12, None)];
    let out = InputSelectionRule::Minimum.apply(input);
    let ids: Vec<i64> = out.iter().map(|u| u.id).collect();
    assert_eq!(ids, vec![4, 2, 1, 3]);
}

#[test]
fn maximum_sorts_descending_and_keeps_ties() {
    let input = vec![utxo(1, 5, 10, None), utxo(2, 3, 11, None), utxo(3, 5, 9, None), utxo(4, 7, 12, None)];
    let out = InputSelectionRule::Maximum.apply(input);
    let ids: Vec<i64> = out.iter().map(|u| u.id).collect();
    assert_eq!(ids, vec![4, 1, 3, 2]);
}

#[test]
fn oldest_and_newest_sort_by_confirmation_height() {
    let input = vec![utxo(1, 5, 10, None), utxo(2, 3, 8, None), utxo(3, 5, 10, None), utxo(4, 7, 12, None)];
    let oldest = InputSelectionRule::Oldest.apply(input.clone());
    let ids: Vec<i64> = oldest.iter().map(|u| u.id).collect();
    assert_eq!(ids, vec![2, 1, 3, 4]);
    let newest = InputSelectionRule::Newest.apply(input);
    let ids: Vec<i64> = newest.iter().map(|u| u.id).collect();
    assert_eq!(ids, vec![4, 1, 3, 2]);
}

#[test]
fn random_rule_permutes() {
    let input: Vec<UtxoEntry> = (0..20).map(|i| utxo(i, i as i128, i, None)).collect();
    let out = InputSelectionRule::Random.apply(input.clone());
    let mut ids: Vec<i64> = out.iter().map(|u| u.id).collect();
    ids.sort();
    assert_eq!(ids, (0..20).collect::<Vec<i64>>());
    let moved = (0..5).any(|_| InputSelectionRule::Random.apply(input.clone()) != input);
    assert!(moved);
}

#[test]
fn stable_sort_handles_empty_and_single() {
    assert!(stable_sort_by_rule(InputSelectionRule::Minimum, vec![]).is_empty());
    let one = stable_sort_by_rule(InputSelectionRule::Newest, vec![utxo(9, 1, 1, None)]);
    assert_eq!(one, vec![utxo(9, 1, 1, None)]);
}

#[test]
fn candidate_order_drops_pending_and_preselected() {
    let unspent = vec![utxo(1, 50, 3, None), utxo(2, 10, 1, None), utxo(3, 30, 2, None), utxo(4, 20, 4, None)];
    let out = candidate_order(unspent, &vec![3], InputSelectionRule::Minimum, &vec![4]);
    let ids: Vec<i64> = out.iter().map(|u| u.id).collect();
    assert_eq!(ids, vec![2, 1]);
}

#[test]
fn required_amount_sums_outputs_and_fee() {
    assert_eq!(required_amount(&vec![100, 250, 7], 3), 360);
    assert_eq!(required_amount(&vec![], 5), 5);
}

#[test]
fn picks_until_required_amount_is_reached() {
    let ordered = vec![utxo(1, 40, 1, None), utxo(2, 40, 2, None), utxo(3, 40, 3, None)];
    let (inputs, ids) = pick_inputs(&ordered, vec![], vec![], 70, 1_000);
    assert_eq!(ids, vec![1, 2]);
    assert_eq!(inputs.len(), 2);
}

#[test]
fn skips_time_locked_utxos() {
    let ordered = vec![utxo(1, 100, 1, Some(5_000)), utxo(2, 40, 2, Some(500)), utxo(3, 40, 3, None)];
    let (_, ids) = pick_inputs(&ordered, vec![], vec![], 70, 1_000);
    assert_eq!(ids, vec![2, 3]);
}

#[test]
fn preselected_inputs_come_first_and_count() {
    let ordered = vec![utxo(1, 40, 1, None), utxo(2, 40, 2, None)];
    let pre = vec![utxo(7, 60, 9, None)];
    let (inputs, ids) = pick_inputs(&ordered, pre, vec![7], 90, 0);
    assert_eq!(ids, vec![7, 1]);
    assert_eq!(inputs[0].id, 7);
    let (inputs, ids) = pick_inputs(&ordered, vec![utxo(7, 100, 9, None)], vec![7], 90, 0);
    assert_eq!(ids, vec![7]);
    assert_eq!(inputs.len(), 1);
}

#[test]
fn takes_everything_when_funds_are_short() {
    let ordered = vec![utxo(1, 10, 1, None), utxo(2, 20, 2, None)];
    let (_, ids) = pick_inputs(&ordered, vec![], vec![], 1_000, 0);
    assert_eq!(ids, vec![1, 2]);
}

#[test]
fn unlocked_count_must_match() {
    assert_eq!(check_unlocked_count(3, 3), Ok(()));
    let err = check_unlocked_count(2, 3).unwrap_err();
    assert_eq!(err, InputError::CountMismatch);
    assert_eq!(err.message(), "Inputs and db_idxs must have the same length");
}
