use vxb_wallet::block::{assign_aocl_indices, find_last, num_aocl_leafs_prior, scan_for_expected_utxos};
use vxb_wallet::commands::{
    cache_files_to_list, check_export_password, mnemonic_words, new_wallet_scan_config, CacheFile, ScanConfig,
};
use vxb_wallet::key_cache::{KeyCache, KeyInfo};
use vxb_wallet::rpc::{
    block_height_range, broadcast_error_from_transport, broadcast_outcome, classify_transport_error,
    BroadcastError, RangeError, TransportErrorKind,
};
use vxb_wallet::types::{Digest, KeyType};

fn d(x: u64) -> Digest {
    Digest(x, 1, 2, 3, 4)
}

#[test]
fn aocl_leafs_before_block() {
    assert_eq!(num_aocl_leafs_prior(100, 5, false), 93);
    assert_eq!(num_aocl_leafs_prior(100, 5, true), 95);
}

#[test]
fn last_occurrence_wins() {
    let ds = vec![d(1), d(2), d(1)];
    assert_eq!(find_last(&ds, d(1)), Some(2));
    assert_eq!(find_last(&ds, d(3)), None);
}

#[test]
fn incoming_utxos_get_aocl_indices() {
    let records = vec![d(10), d(11), d(12), d(13)];
    let incoming = vec![d(12), d(10)];
    assert_eq!(assign_aocl_indices(500, &records, &incoming), vec![(1, 500), (0, 502)]);
}

#[test]
fn expected_utxos_found_in_output_order() {
    let records = vec![d(10), d(11), d(12)];
    let expected = vec![d(12), d(11), d(99)];
    assert_eq!(scan_for_expected_utxos(&records, &expected), vec![1, 0]);
}

#[test]
fn height_ranges() {
    assert_eq!(block_height_range(0, 100), Err(RangeError::Genesis));
    assert_eq!(block_height_range(1, 100), Ok((1, 100)));
    assert_eq!(block_height_range(300, 1), Ok((300, 300)));
    assert_eq!(block_height_range(300, 0), Ok((300, 299)));
}

#[test]
fn transport_errors_are_classified() {
    assert_eq!(classify_transport_error(true, true), TransportErrorKind::Timeout);
    assert_eq!(classify_transport_error(false, true), TransportErrorKind::Connection);
    assert_eq!(classify_transport_error(false, false), TransportErrorKind::Server);
    assert!(matches!(broadcast_error_from_transport(false, true, "refused".to_string()), BroadcastError::Connection(t) if t == "refused"));
    assert!(matches!(broadcast_error_from_transport(false, false, "500".to_string()), BroadcastError::Server(t) if t == "500"));
    assert!(matches!(broadcast_error_from_transport(true, false, "t".to_string()), BroadcastError::Timeout));
}

#[test]
fn broadcast_outcomes() {
    assert_eq!(broadcast_outcome(true, "abc".to_string()).unwrap(), "abc");
    assert!(matches!(broadcast_outcome(false, "abc".to_string()), Err(BroadcastError::UnspecifiedServerError)));
}

#[test]
fn export_password_checks() {
    assert_eq!(check_export_password(&None, &"x".to_string()), Err("password is not set".to_string()));
    assert_eq!(check_export_password(&Some("pw".to_string()), &"x".to_string()), Err("wrong password".to_string()));
    assert_eq!(check_export_password(&Some("pw".to_string()), &"pw".to_string()), Ok(()));
}

#[test]
fn new_wallet_starts_at_tip() {
    assert_eq!(
        new_wallet_scan_config(25, 7, true, Some(1000)),
        ScanConfig { num_keys: 25, start_height: 1000, recover_from_sym_digest_keys: false }
    );
    assert_eq!(
        new_wallet_scan_config(25, 7, false, None),
        ScanConfig { num_keys: 25, start_height: 7, recover_from_sym_digest_keys: false }
    );
}

#[test]
fn cache_listing_hides_unsynced_files_of_current_network() {
    let files = vec![
        CacheFile { network: "main".to_string(), range: (0, 100) },
        CacheFile { network: "main".to_string(), range: (100, 200) },
        CacheFile { network: "testnet".to_string(), range: (100, 200) },
    ];
    let kept = cache_files_to_list(files, &"main".to_string(), 150);
    assert_eq!(kept.len(), 2);
    assert_eq!(kept[0].range, (0, 100));
    assert_eq!(kept[1].network, "testnet");
}

#[test]
fn mnemonic_splits_on_white_space() {
    assert_eq!(mnemonic_words("  abandon ability\table\n"), vec!["abandon", "ability", "able"]);
    assert_eq!(mnemonic_words(""), Vec::<String>::new());
    assert_eq!(mnemonic_words("one"), vec!["one"]);
    assert_eq!(mnemonic_words("a\u{3000}b\u{a0}c"), vec!["a", "b", "c"]);
    assert_eq!(mnemonic_words("x y").len(), "x y".split_whitespace().count());
}

#[test]
fn key_cache_reads_back_writes() {
    let mut cache = KeyCache::new();
    let k1 = KeyInfo { key_type: KeyType::Generation, privacy_preimage: d(1), lock_script_hash: d(2) };
    let k2 = KeyInfo { key_type: KeyType::Symmetric, privacy_preimage: d(3), lock_script_hash: d(4) };
    assert_eq!(cache.get_key(KeyType::Generation, 5), None);
    cache.add_key(5, k1);
    cache.add_key(5, k2);
    assert_eq!(cache.get_key(KeyType::Generation, 5), Some(k1));
    assert_eq!(cache.get_key(KeyType::Symmetric, 5), Some(k2));
    assert_eq!(cache.get_key(KeyType::EcHybrid, 5), None);
    let k3 = KeyInfo { key_type: KeyType::Generation, privacy_preimage: d(9), lock_script_hash: d(9) };
    cache.add_key(5, k3);
    assert_eq!(cache.get_key(KeyType::Generation, 5), Some(k3));
}
