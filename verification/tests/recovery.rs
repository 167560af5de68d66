use vxb_wallet::recovery::{
    deduplicate_recovery_data, filter_unspent_utxos, have_matching_keys, not_yet_claimed,
    same_index_set, scan_for_spent_utxos, AbsoluteIndexSet,
};
use vxb_wallet::types::Digest;

fn set(xs: &[u128]) -> AbsoluteIndexSet {
    AbsoluteIndexSet { indices: xs.to_vec() }
}

fn d(x: u64) -> Digest {
    Digest(x, x + 1, x + 2, x + 3, x + 4)
}

#[test]
fn index_set_equality() {
    assert!(same_index_set(&set(&[1, 2, 3]), &set(&[1, 2, 3])));
    assert!(!same_index_set(&set(&[1, 2, 3]), &set(&[1, 2, 4])));
    assert!(!same_index_set(&set(&[1, 2]), &set(&[1, 2, 3])));
}

#[test]
fn deduplicate_keeps_first_of_each() {
    let items = vec!["a", "b", "c", "d", "e"];
    let keys = vec![set(&[1]), set(&[2]), set(&[1]), set(&[3]), set(&[2])];
    assert_eq!(deduplicate_recovery_data(items, &keys), vec!["a", "b", "d"]);
}

#[test]
fn deduplicate_without_repeats_changes_nothing() {
    let items = vec![10, 20, 30];
    let keys = vec![set(&[1, 9]), set(&[2, 9]), set(&[3, 9])];
    assert_eq!(deduplicate_recovery_data(items.clone(), &keys), items);
}

#[test]
fn filter_unspent_keeps_unspent_entries() {
    let items: Vec<usize> = (0..30).collect();
    let mut spent = vec![true; 30];
    spent[26] = false;
    spent[28] = false;
    spent[29] = false;
    assert_eq!(filter_unspent_utxos(items, &spent), vec![26, 28, 29]);
}

#[test]
fn matching_keys_keeps_known_receivers() {
    let items = vec!["x", "y", "z"];
    let preimages = vec![d(1), d(5), d(9)];
    let known = vec![d(9), d(1)];
    assert_eq!(have_matching_keys(items, &preimages, &known), vec!["x", "z"]);
}

#[test]
fn not_yet_claimed_drops_known_utxos() {
    let items = vec![1, 2, 3];
    let keys = vec![set(&[1]), set(&[2]), set(&[3])];
    let claimed = vec![set(&[2])];
    assert_eq!(not_yet_claimed(items, &keys, &claimed), vec![1, 3]);
}

#[test]
fn spent_scan_finds_block_inputs() {
    let items = vec![1, 2, 3];
    let keys = vec![set(&[1]), set(&[2]), set(&[3])];
    let inputs = vec![set(&[3]), set(&[7])];
    assert_eq!(scan_for_spent_utxos(items, &keys, &inputs), vec![3]);
}

#[test]
fn deduplicate_twice_is_deduplicate_once() {
    let keys = vec![set(&[4]), set(&[4]), set(&[5]), set(&[4, 1]), set(&[5])];
    let items: Vec<usize> = (0..keys.len()).collect();
    let once = deduplicate_recovery_data(items, &keys);
    assert_eq!(once, vec![0, 2, 3]);
    let once_keys: Vec<AbsoluteIndexSet> = once.iter().map(|&i| AbsoluteIndexSet { indices: keys[i].indices.clone() }).collect();
    let twice = deduplicate_recovery_data(once.clone(), &once_keys);
    assert_eq!(twice, once);
}
