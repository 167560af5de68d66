use vxb_wallet::keys::{AddressRecord, KeyError, KeyIndices, KeyScan, KeySlot, key_slots};
use vxb_wallet::types::{key_types, Digest, KeyType};

fn d(x: u64) -> Digest {
    Digest(x, 0, 0, 0, 0)
}

#[test]
fn fresh_wallet_knows_one_key_per_type() {
    let k = KeyIndices::new(20);
    assert_eq!(k.all_known_keys(false).len(), key_types().len());
    for t in key_types() {
        assert_eq!(k.ephemeral_key_index(t), 1);
    }
}

#[test]
fn watched_keys_are_known_plus_future() {
    let mut k = KeyIndices::new(20);
    k.set_ephemeral_key_index(KeyType::EcHybrid, 7);
    let known = k.all_known_keys(false).len();
    let watched: usize = key_types().into_iter().map(|t| k.known_and_future_keys(t, false).len()).sum();
    assert_eq!(known + key_types().len() * 20, watched);
    let known = k.all_known_keys(true).len();
    let watched: usize = key_types().into_iter().map(|t| k.known_and_future_keys(t, true).len()).sum();
    assert_eq!(known + (key_types().len() + 1) * 20, watched);
}

#[test]
fn bump_raises_indices_past_used_keys() {
    let mut k = KeyIndices::new(25);
    let before: usize = key_types().into_iter().map(|t| k.known_and_future_keys(t, false).len()).sum();
    k.bump_key_indices(&vec![
        (KeyType::Generation, Some(2)),
        (KeyType::Symmetric, Some(4)),
        (KeyType::EcHybrid, None),
        (KeyType::ViewingAddress, None),
    ]);
    let after: usize = key_types().into_iter().map(|t| k.known_and_future_keys(t, false).len()).sum();
    assert_eq!(6 + before, after);
    assert_eq!(3, k.ephemeral_key_index(KeyType::Generation));
    assert_eq!(5, k.ephemeral_key_index(KeyType::Symmetric));
    assert_eq!(1, k.ephemeral_key_index(KeyType::EcHybrid));
    assert_eq!(1, k.ephemeral_key_index(KeyType::ViewingAddress));
    let known = k.all_known_keys(false);
    assert_eq!(3, known.iter().filter(|s| s.key_type == KeyType::Generation).count());
    assert_eq!(5, known.iter().filter(|s| s.key_type == KeyType::Symmetric).count());
}

#[test]
fn bump_never_lowers_and_is_idempotent() {
    let mut k = KeyIndices::new(5);
    k.set_ephemeral_key_index(KeyType::Generation, 10);
    let entries = vec![(KeyType::Generation, Some(3)), (KeyType::Generation, Some(12)), (KeyType::Symmetric, Some(0))];
    k.bump_key_indices(&entries);
    assert_eq!(k.ephemeral_key_index(KeyType::Generation), 13);
    assert_eq!(k.ephemeral_key_index(KeyType::Symmetric), 1);
    let once = k;
    k.bump_key_indices(&entries);
    assert_eq!(k, once);
}

#[test]
fn generate_new_address_appends() {
    let mut k = KeyIndices::new(5);
    for t in [KeyType::Generation, KeyType::EcHybrid, KeyType::ViewingAddress] {
        let before = k.known_address_indices(t).unwrap();
        let mut generated = vec![];
        for _ in 0..6 {
            generated.push(k.generate_new_address(t).unwrap() as i32);
        }
        let after = k.known_address_indices(t).unwrap();
        assert_eq!(after, [before, generated].concat());
    }
}

#[test]
fn symmetric_addresses_are_refused() {
    let mut k = KeyIndices::new(5);
    assert_eq!(k.known_address_indices(KeyType::Symmetric), Err(KeyError::SymmetricNotShown));
    assert_eq!(k.generate_new_address(KeyType::Symmetric), Err(KeyError::SymmetricNotGenerated));
    assert_eq!(KeyError::SymmetricNotShown.message(), "Symmetric keys cannot be shown in a secure manner");
    assert_eq!(KeyError::SymmetricNotGenerated.message(), "Symmetric keys should not be used");
}

#[test]
fn indices_beyond_i32_are_refused() {
    let mut k = KeyIndices::new(5);
    k.set_ephemeral_key_index(KeyType::Generation, 2_147_483_648);
    assert_eq!(k.known_address_indices(KeyType::Generation), Err(KeyError::IndexTooLarge));
    assert_eq!(k.generate_new_address(KeyType::Generation), Err(KeyError::IndexTooLarge));
    assert_eq!(k.ephemeral_key_index(KeyType::Generation), 2_147_483_648);
    assert_eq!(KeyError::IndexTooLarge.message(), "Key index cannot exceed i32::MAX");
}

#[test]
fn digest_recovery_doubles_symmetric_slots() {
    let slots = key_slots(2, 4, KeyType::Symmetric, true);
    assert_eq!(
        slots,
        vec![
            KeySlot { key_type: KeyType::Symmetric, index: 2, from_digest: false },
            KeySlot { key_type: KeyType::Symmetric, index: 3, from_digest: false },
            KeySlot { key_type: KeyType::Symmetric, index: 2, from_digest: true },
            KeySlot { key_type: KeyType::Symmetric, index: 3, from_digest: true },
        ]
    );
    assert_eq!(key_slots(2, 4, KeyType::Generation, true).len(), 2);
    assert!(key_slots(5, 3, KeyType::Generation, false).is_empty());
    let k = KeyIndices::new(2);
    let watched = k.known_and_future_keys(KeyType::Symmetric, true);
    assert_eq!(watched.len(), 6);
    assert_eq!(watched.iter().filter(|s| s.from_digest).count(), 3);
    assert_eq!(watched.iter().filter(|s| !s.from_digest).count(), 3);
    assert_eq!(watched[0], KeySlot { key_type: KeyType::Symmetric, index: 0, from_digest: false });
    assert_eq!(watched[3], KeySlot { key_type: KeyType::Symmetric, index: 0, from_digest: true });
}

#[test]
fn key_scan_follows_matches_until_a_gap() {
    let receivers = vec![d(2), d(5), d(40)];
    let mut scan = KeyScan::new();
    let n = 4;
    let mut windows = 0;
    while let Some((start, end)) = scan.next_window(n) {
        windows += 1;
        let window: Vec<(u64, Digest)> = (start..end).map(|i| (i, d(i))).collect();
        scan.record_window(&window, &receivers);
    }
    assert_eq!(scan.result(), Some(5));
    assert_eq!(windows, 3);
}

#[test]
fn key_scan_without_matches_finds_nothing() {
    let mut scan = KeyScan::new();
    let (start, end) = scan.next_window(3).unwrap();
    assert_eq!((start, end), (0, 3));
    let window: Vec<(u64, Digest)> = (start..end).map(|i| (i, d(i + 100))).collect();
    scan.record_window(&window, &vec![d(1)]);
    assert_eq!(scan.result(), None);
    assert_eq!(scan.next_window(3), None);
}

#[test]
fn address_record_keeps_fields() {
    let r = AddressRecord::new("nolgam1full".to_string(), "nolgam1…".to_string(), 4, Some("savings".to_string()));
    assert_eq!(r.key_index, 4);
    assert_eq!(r.address, "nolgam1full");
    assert_eq!(r.address_short_form, "nolgam1…");
    assert_eq!(r.label.as_deref(), Some("savings"));
}

#[test]
fn bumping_with_a_found_key_makes_it_known() {
    let mut k = KeyIndices::new(10);
    k.bump_key_indices(&vec![(KeyType::Generation, Some(7))]);
    let known = k.known_address_indices(KeyType::Generation).unwrap();
    assert!(known.contains(&7));
    assert_eq!(known.len(), 8);
}
