use vxb_wallet::sync::{
    premine_matches, should_check_premine, start_height, Continue, PremineMatch, SyncEvent, SyncMachine,
    SyncStatus, SYNC_PAUSED, SYNC_STOPPED, SYNC_SYNCING, SYNC_WAIT_PAUSE,
};
use vxb_wallet::types::Digest;

#[test]
fn new_machine_is_stopped() {
    let m = SyncMachine::new();
    assert_eq!(m.status(), SyncStatus { height: 0, syncing: false, updated_to_tip: false });
}

#[test]
fn begin_reports_previous_height_and_batch_start() {
    let mut m = SyncMachine::new();
    assert_eq!(m.begin(250), (SyncEvent::SyncHeight(249), 200));
    assert_eq!(m.height, 250);
    assert_eq!(m.syncing, SYNC_STOPPED);
    m.first_batch_fetched();
    assert_eq!(m.syncing, SYNC_SYNCING);
    let mut m = SyncMachine::new();
    assert_eq!(m.begin(1), (SyncEvent::SyncHeight(1), 0));
    let mut m = SyncMachine::new();
    assert_eq!(m.begin(0), (SyncEvent::SyncHeight(0), 0));
}

#[test]
fn prefetch_every_batch() {
    assert!(SyncMachine::prefetch_needed(112));
    assert!(SyncMachine::prefetch_needed(212));
    assert!(!SyncMachine::prefetch_needed(12));
    assert!(!SyncMachine::prefetch_needed(113));
    assert!(!SyncMachine::prefetch_needed(13));
}

#[test]
fn paused_machine_waits_one_second() {
    let mut m = SyncMachine::new();
    assert_eq!(m.check_paused(), Some(1));
    assert_eq!(m.syncing, SYNC_PAUSED);
    m.begin(5);
    m.first_batch_fetched();
    assert_eq!(m.check_paused(), None);
}

#[test]
fn tip_reached_reports_once() {
    let mut m = SyncMachine::new();
    m.begin(10);
    m.first_batch_fetched();
    assert_eq!(m.tip_reached(10), (true, SyncEvent::SyncFinish(10), 60));
    assert_eq!(m.tip_reached(10), (false, SyncEvent::SyncFinish(10), 60));
    assert!(m.status().updated_to_tip);
}

#[test]
fn stale_blocks_do_not_update_pending_transactions() {
    let mut m = SyncMachine::new();
    m.begin(10);
    m.first_batch_fetched();
    assert!(!m.should_update(10_000_000, 9_999_000));
    m.tip_reached(10);
    assert!(m.should_update(10_000_000, 9_999_000));
    assert!(!m.should_update(10_000_000, 10_000_000 - 26 * 60 * 1000 - 1));
    assert!(m.should_update(10_000_000, 10_000_000 - 26 * 60 * 1000));
    assert!(!m.should_update(10_000_000, 10_000_001));
}

#[test]
fn applied_block_advances_height() {
    let mut m = SyncMachine::new();
    m.begin(10);
    m.first_batch_fetched();
    assert_eq!(m.block_applied(None, 1_000, 0), (Some(SyncEvent::SyncHeight(10)), 1_000));
    assert_eq!(m.height, 11);
    assert_eq!(m.block_applied(None, 1_050, 1_000), (None, 1_000));
    assert_eq!(m.height, 12);
    assert_eq!(m.block_applied(None, 1_101, 1_000), (Some(SyncEvent::SyncHeight(12)), 1_101));
}

#[test]
fn fork_rewinds_height() {
    let mut m = SyncMachine::new();
    m.begin(10);
    m.first_batch_fetched();
    m.tip_reached(10);
    assert_eq!(m.fork_detected(7), SyncEvent::SyncHeight(7));
    assert!(!m.updated_to_tip);
    assert_eq!(m.height, 10);
    assert_eq!(m.block_applied(Some(7), 5_000, 4_990), (None, 4_990));
    assert_eq!(m.height, 8);
    assert!(!m.updated_to_tip);
}

#[test]
fn waiting_task_counts_as_paused() {
    let mut m = SyncMachine::new();
    m.begin(3);
    m.first_batch_fetched();
    m.begin_wait();
    assert!(m.is_paused());
    assert!(!m.request_pause());
    assert_eq!(m.after_pause(false), Continue::Run);
    assert_eq!(m.syncing, SYNC_SYNCING);
}

#[test]
fn cancel_stops_on_wakeup() {
    let mut m = SyncMachine::new();
    m.begin(1);
    m.first_batch_fetched();
    assert_eq!(m.after_pause(false), Continue::Run);
    assert_eq!(m.after_step(), Continue::Run);
    m.request_cancel();
    assert_eq!(m.after_pause(false), Continue::Run);
    assert_eq!(m.after_error(false), Continue::Run);
    assert_eq!(m.after_pause(true), Continue::Stop);
    assert_eq!(m.syncing, SYNC_STOPPED);
    let mut m2 = SyncMachine::new();
    m2.request_cancel();
    assert_eq!(m2.after_step(), Continue::Stop);
    let mut m3 = SyncMachine::new();
    m3.request_cancel();
    assert_eq!(m3.after_error(true), Continue::Stop);
}

#[test]
fn reset_pauses_then_resumes() {
    let mut m = SyncMachine::new();
    m.begin(50);
    m.first_batch_fetched();
    assert!(m.request_pause());
    assert_eq!(m.syncing, SYNC_WAIT_PAUSE);
    assert!(!m.is_paused());
    assert_eq!(m.check_paused(), Some(1));
    assert!(m.is_paused());
    assert!(!m.request_pause());
    m.reset_done(20, true);
    assert_eq!(m.height, 21);
    assert_eq!(m.syncing, SYNC_SYNCING);
    m.reset_done(5, false);
    assert_eq!(m.height, 21);
}

#[test]
fn start_height_follows_tip() {
    assert_eq!(start_height(Some(99), 5), 100);
    assert_eq!(start_height(None, 5), 5);
}

#[test]
fn premine_checked_only_once() {
    assert!(should_check_premine(0, false));
    assert!(!should_check_premine(0, true));
    assert!(!should_check_premine(3, false));
}

#[test]
fn premine_ids_enumerate_all_pairs() {
    let a = Digest(1, 0, 0, 0, 0);
    let b = Digest(2, 0, 0, 0, 0);
    let keys = vec![a, b];
    let utxos = vec![b, a, a];
    assert_eq!(
        premine_matches(&keys, &utxos),
        vec![
            PremineMatch { id: 1, key: 0, utxo: 1 },
            PremineMatch { id: 2, key: 0, utxo: 2 },
            PremineMatch { id: 3, key: 1, utxo: 0 },
        ]
    );
}

#[test]
fn event_throttle_is_shared_between_wallets() {
    let mut a = SyncMachine::new();
    let mut b = SyncMachine::new();
    a.begin(10);
    a.first_batch_fetched();
    b.begin(20);
    b.first_batch_fetched();
    let (ev_a, last) = a.block_applied(None, 1_000, 0);
    assert_eq!(ev_a, Some(SyncEvent::SyncHeight(10)));
    let (ev_b, last) = b.block_applied(None, 1_050, last);
    assert_eq!(ev_b, None);
    assert_eq!(last, 1_000);
    assert_eq!(b.height, 21);
}

#[test]
fn pause_requested_while_fetching_first_batch_is_overwritten() {
    let mut m = SyncMachine::new();
    m.begin(10);
    assert!(m.request_pause());
    assert_eq!(m.syncing, SYNC_WAIT_PAUSE);
    m.first_batch_fetched();
    assert_eq!(m.syncing, SYNC_SYNCING);
    assert_eq!(m.check_paused(), None);
}
