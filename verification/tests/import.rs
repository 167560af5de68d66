use vxb_wallet::block::any_received;
use vxb_wallet::import::{judge_membership_proof, ImportError, ImportVerdict};
use vxb_wallet::key_cache::{KeyCache, KeyInfo};
use vxb_wallet::keys::KeySlot;
use vxb_wallet::types::{Digest, KeyType};

fn d(x: u64) -> Digest {
    Digest(x, x, x, x, x)
}

#[test]
fn membership_proof_verdicts() {
    let bad = || Some("index out of range".to_string());
    assert_eq!(judge_membership_proof(false, 0, bad(), false), ImportVerdict::Skip);
    assert_eq!(judge_membership_proof(true, 2, None, true), ImportVerdict::Fail(ImportError::UnexpectedProofCount));
    assert_eq!(judge_membership_proof(true, 0, None, true), ImportVerdict::Fail(ImportError::UnexpectedProofCount));
    assert_eq!(
        judge_membership_proof(true, 1, bad(), true),
        ImportVerdict::Fail(ImportError::BadProofData("index out of range".to_string()))
    );
    assert_eq!(judge_membership_proof(true, 1, None, true), ImportVerdict::Keep);
    assert_eq!(judge_membership_proof(true, 1, None, false), ImportVerdict::Skip);
    assert_eq!(ImportError::UnexpectedProofCount.message(), "Expected only 1 MSMP to be returned by the server.");
    assert_eq!(
        ImportError::BadProofData("index out of range".to_string()).message(),
        "Server returned bad mutator set membership proof recovery data: index out of range"
    );
}

#[test]
fn announced_utxos_count_only_when_in_block() {
    assert!(any_received(&vec![d(1), d(2)], &vec![d(5), d(2)]));
    assert!(!any_received(&vec![d(1), d(2)], &vec![d(5)]));
    assert!(!any_received(&vec![], &vec![d(5)]));
}

#[test]
fn cache_lookup_skips_digest_keys() {
    let mut cache = KeyCache::new();
    let k = KeyInfo { key_type: KeyType::Symmetric, privacy_preimage: d(1), lock_script_hash: d(2) };
    cache.add_key(3, k);
    let slots = vec![
        KeySlot { key_type: KeyType::Symmetric, index: 3, from_digest: false },
        KeySlot { key_type: KeyType::Symmetric, index: 3, from_digest: true },
        KeySlot { key_type: KeyType::Symmetric, index: 4, from_digest: false },
        KeySlot { key_type: KeyType::Generation, index: 3, from_digest: false },
    ];
    assert_eq!(cache.lookup_slots(&slots), vec![Some(k), None, None, None]);
}
