use vstd::prelude::*;
use crate::types::Digest;

verus! {

/// Synchronisation has stopped.
pub const SYNC_STOPPED: i8 = 0;
/// Blocks are being fetched and applied.
pub const SYNC_SYNCING: i8 = 1;
/// The sync task is idle, waiting for a new block or a wake-up.
pub const SYNC_PAUSED: i8 = 2;
/// A caller asked the sync task to pause and waits for it to do so.
pub const SYNC_WAIT_PAUSE: i8 = 3;

/// Blocks are fetched from the node in batches of this size.
pub const SYNC_BLOCK_BATCH_SIZE: u64 = 100;

/// The largest 64-bit prime, the modulus of block timestamps.
pub const FIELD_MODULUS: u64 = 18446744069414584321;

/// Blocks older than this many milliseconds do not trigger an update of
/// pending transactions.
pub const STALE_BLOCK_MILLIS: u64 = 1560000;

/// Sync progress is reported at most once per this many milliseconds.
pub const EVENT_INTERVAL_MILLIS: u64 = 100;

/// What the sync task reports to the user interface.
#[derive(Clone, Copy, Debug, PartialEq, Eq, Structural)]
pub enum SyncEvent {
    /// Progress: the height reached ("sync_height").
    SyncHeight(u64),
    /// The wallet has caught up with the node's tip ("sync_finish").
    SyncFinish(u64),
    /// A new block was fetched ("syncing_new_block").
    SyncingNewBlock(u64),
}

/// The state shown to the user.
#[derive(Clone, Copy, Debug, PartialEq, Eq, Structural)]
pub struct SyncStatus {
    pub height: u64,
    pub syncing: bool,
    pub updated_to_tip: bool,
}

/// The decisions of the wallet's block-synchronisation task.
///
/// The task itself (fetching blocks, applying them, sleeping and waking)
/// runs outside; it asks this machine what to do next and tells it what
/// happened.
#[derive(Clone, Copy, Debug, PartialEq, Eq, Structural)]
pub struct SyncMachine {
    /// The height of the next block to apply.
    pub height: u64,
    /// The wallet has reached the node's tip since the last progress event.
    pub updated_to_tip: bool,
    /// One of `SYNC_STOPPED`, `SYNC_SYNCING`, `SYNC_PAUSED`, `SYNC_WAIT_PAUSE`.
    pub syncing: i8,
    /// The task has been asked to stop.
    pub cancel: bool,
}

/// How the task goes on after a step.
#[derive(Clone, Copy, Debug, PartialEq, Eq, Structural)]
pub enum Continue {
    Run,
    Stop,
}

/// Whether block `h` is where the next batch should be fetched ahead of time.
pub open spec fn prefetch_at(h: u64) -> bool {
    h > 13 && (h - 12) % (SYNC_BLOCK_BATCH_SIZE as int) == 0
}

/// Whether a block with timestamp `block_ms` is too old, at time `now_ms`,
/// to trigger an update of pending transactions. Timestamps are field
/// elements, so a block from the future counts as very old.
pub open spec fn is_stale(now_ms: u64, block_ms: u64) -> bool {
    now_ms < block_ms || now_ms - block_ms > STALE_BLOCK_MILLIS
}

impl SyncMachine {
    /// A machine that has not started.
    pub fn new() -> (res: Self)
        ensures
            res == (SyncMachine { height: 0, updated_to_tip: false, syncing: SYNC_STOPPED, cancel: false }),
    {
        SyncMachine { height: 0, updated_to_tip: false, syncing: SYNC_STOPPED, cancel: false }
    }

    /// The state shown to the user.
    pub fn status(&self) -> (res: SyncStatus)
        ensures
            res == (SyncStatus { height: self.height, syncing: self.syncing != SYNC_STOPPED, updated_to_tip: self.updated_to_tip }),
    {
        SyncStatus { height: self.height, syncing: self.syncing != SYNC_STOPPED, updated_to_tip: self.updated_to_tip }
    }

    /// Start syncing at height `start`, the first block the wallet has not
    /// applied.
    ///
    /// Returns the height to report and the height from which the first batch
    /// of blocks is fetched. The machine's syncing state is left as it is:
    /// it becomes `SYNC_SYNCING` only once that batch has been fetched (see
    /// `first_batch_fetched`).
    pub fn begin(&mut self, start: u64) -> (res: (SyncEvent, u64))
        ensures
            *final(self) == (SyncMachine { height: start, updated_to_tip: false, ..*old(self) }),
            res.0 == SyncEvent::SyncHeight(if start > 1 { (start - 1) as u64 } else { start }),
            res.1 == start - start % SYNC_BLOCK_BATCH_SIZE,
    {
        let shown = if start > 1 { start - 1 } else { start };
        self.updated_to_tip = false;
        self.height = start;
        (SyncEvent::SyncHeight(shown), start - start % SYNC_BLOCK_BATCH_SIZE)
    }

    /// The first batch of blocks was fetched, or fetching it failed: the
    /// machine is syncing, whatever state was set while the batch was fetched.
    pub fn first_batch_fetched(&mut self)
        ensures
            *final(self) == (SyncMachine { syncing: SYNC_SYNCING, ..*old(self) }),
    {
        self.syncing = SYNC_SYNCING;
    }

    /// Before each step: unless the machine is syncing, it pauses and asks
    /// the task to wait one second.
    pub fn check_paused(&mut self) -> (res: Option<u64>)
        ensures
            old(self).syncing != SYNC_SYNCING ==> res == Some(1u64)
                && *final(self) == (SyncMachine { syncing: SYNC_PAUSED, ..*old(self) }),
            old(self).syncing == SYNC_SYNCING ==> res is None && *final(self) == *old(self),
    {
        if self.syncing != SYNC_SYNCING {
            self.syncing = SYNC_PAUSED;
            return Some(1);
        }
        None
    }

    /// Whether the next batch of blocks should be fetched ahead of block `h`.
    pub fn prefetch_needed(h: u64) -> (res: bool)
        ensures
            res == prefetch_at(h),
    {
        h > 13 && (h - 12) % SYNC_BLOCK_BATCH_SIZE == 0
    }

    /// The node has no block at height `h`: the wallet is at the tip.
    ///
    /// Returns whether this is the first time since the last progress event,
    /// the event to report, and how many seconds to wait for a new block.
    pub fn tip_reached(&mut self, h: u64) -> (res: (bool, SyncEvent, u64))
        ensures
            res.0 == !old(self).updated_to_tip,
            res.1 == SyncEvent::SyncFinish(h),
            res.2 == 60,
            *final(self) == (SyncMachine { updated_to_tip: true, ..*old(self) }),
    {
        let first = !self.updated_to_tip;
        self.updated_to_tip = true;
        (first, SyncEvent::SyncFinish(h), 60)
    }

    /// Whether applying a block with timestamp `block_ms` should also update
    /// the wallet's pending transactions: only when the wallet was at the tip
    /// and the block is recent.
    pub fn should_update(&self, now_ms: u64, block_ms: u64) -> (res: bool)
        ensures
            res == (self.updated_to_tip && !is_stale(now_ms, block_ms)),
    {
        self.updated_to_tip && !(now_ms < block_ms || now_ms - block_ms > STALE_BLOCK_MILLIS)
    }

    /// Applying the block at the current height found a fork at height `f`:
    /// the wallet rolled back to `f`. The machine is no longer at the tip,
    /// and `f` is reported; the block cache is reset next, and then
    /// `block_applied` is told of the fork.
    pub fn fork_detected(&mut self, f: u64) -> (res: SyncEvent)
        ensures
            res == SyncEvent::SyncHeight(f),
            *final(self) == (SyncMachine { updated_to_tip: false, ..*old(self) }),
    {
        self.updated_to_tip = false;
        SyncEvent::SyncHeight(f)
    }

    /// The block at the current height was applied.
    ///
    /// On a fork at height `f` (already reported by `fork_detected`) sync
    /// goes on at `f + 1`. Otherwise it goes on at the next height, and
    /// reports progress if the last report, made at `last_event_ms` by any
    /// wallet's sync task (the time is shared by all of them), is older than
    /// the interval.
    ///
    /// Returns the event to report and the shared time of the last report
    /// afterwards.
    pub fn block_applied(&mut self, fork: Option<u64>, now_ms: u64, last_event_ms: u64) -> (res: (Option<SyncEvent>, u64))
        requires
            old(self).height < u64::MAX,
            fork matches Some(f) ==> f < u64::MAX,
            fork is None ==> now_ms >= last_event_ms,
        ensures
            fork matches Some(f) ==> res == (None::<SyncEvent>, last_event_ms)
                && *final(self) == (SyncMachine { height: (f + 1) as u64, ..*old(self) }),
            fork is None && now_ms - last_event_ms > EVENT_INTERVAL_MILLIS ==> res == (Some(SyncEvent::SyncHeight(old(self).height)), now_ms)
                && *final(self) == (SyncMachine { height: (old(self).height + 1) as u64, updated_to_tip: false, ..*old(self) }),
            fork is None && now_ms - last_event_ms <= EVENT_INTERVAL_MILLIS ==> res == (None::<SyncEvent>, last_event_ms)
                && *final(self) == (SyncMachine { height: (old(self).height + 1) as u64, ..*old(self) }),
    {
        match fork {
            Some(f) => {
                self.height = f + 1;
                (None, last_event_ms)
            },
            None => {
                let h = self.height;
                let mut ev = None;
                let mut last = last_event_ms;
                if now_ms - last_event_ms > EVENT_INTERVAL_MILLIS {
                    self.updated_to_tip = false;
                    last = now_ms;
                    ev = Some(SyncEvent::SyncHeight(h));
                }
                self.height = h + 1;
                (ev, last)
            },
        }
    }

    /// Ask the task to stop.
    pub fn request_cancel(&mut self)
        ensures
            *final(self) == (SyncMachine { cancel: true, ..*old(self) }),
    {
        self.cancel = true;
    }

    /// A step asked the task to wait: it is paused while it waits.
    pub fn begin_wait(&mut self)
        ensures
            *final(self) == (SyncMachine { syncing: SYNC_PAUSED, ..*old(self) }),
    {
        self.syncing = SYNC_PAUSED;
    }

    /// The task waited after a step that asked for a pause; `notified` tells
    /// whether it was woken up rather than timing out.
    pub fn after_pause(&mut self, notified: bool) -> (res: Continue)
        ensures
            notified && old(self).cancel ==> res == Continue::Stop
                && *final(self) == (SyncMachine { syncing: SYNC_STOPPED, ..*old(self) }),
            !(notified && old(self).cancel) ==> res == Continue::Run
                && *final(self) == (SyncMachine { syncing: SYNC_SYNCING, ..*old(self) }),
    {
        if notified && self.cancel {
            self.syncing = SYNC_STOPPED;
            return Continue::Stop;
        }
        self.syncing = SYNC_SYNCING;
        Continue::Run
    }

    /// A step finished without asking for a pause.
    pub fn after_step(&mut self) -> (res: Continue)
        ensures
            old(self).cancel ==> res == Continue::Stop
                && *final(self) == (SyncMachine { syncing: SYNC_STOPPED, ..*old(self) }),
            !old(self).cancel ==> res == Continue::Run && *final(self) == *old(self),
    {
        if self.cancel {
            self.syncing = SYNC_STOPPED;
            return Continue::Stop;
        }
        Continue::Run
    }

    /// A step failed and the task waited five seconds or until woken.
    pub fn after_error(&mut self, notified: bool) -> (res: Continue)
        ensures
            notified && old(self).cancel ==> res == Continue::Stop
                && *final(self) == (SyncMachine { syncing: SYNC_STOPPED, ..*old(self) }),
            !(notified && old(self).cancel) ==> res == Continue::Run && *final(self) == *old(self),
    {
        if notified && self.cancel {
            self.syncing = SYNC_STOPPED;
            return Continue::Stop;
        }
        Continue::Run
    }

    /// Before resetting to an earlier height: unless the task is paused, ask
    /// it to pause. Returns whether the caller must wait until it has.
    pub fn request_pause(&mut self) -> (res: bool)
        ensures
            old(self).syncing != SYNC_PAUSED ==> res && *final(self) == (SyncMachine { syncing: SYNC_WAIT_PAUSE, ..*old(self) }),
            old(self).syncing == SYNC_PAUSED ==> !res && *final(self) == *old(self),
    {
        if self.syncing != SYNC_PAUSED {
            self.syncing = SYNC_WAIT_PAUSE;
            return true;
        }
        false
    }

    /// Whether the task has paused.
    pub fn is_paused(&self) -> (res: bool)
        ensures
            res == (self.syncing == SYNC_PAUSED),
    {
        self.syncing == SYNC_PAUSED
    }

    /// The reset to height `h` finished, successfully or not; sync resumes,
    /// and after a successful reset it goes on at `h + 1`.
    pub fn reset_done(&mut self, h: u64, ok: bool)
        requires
            ok ==> h < u64::MAX,
        ensures
            ok ==> *final(self) == (SyncMachine { height: (h + 1) as u64, syncing: SYNC_SYNCING, ..*old(self) }),
            !ok ==> *final(self) == (SyncMachine { syncing: SYNC_SYNCING, ..*old(self) }),
    {
        if ok {
            self.height = h + 1;
        }
        self.syncing = SYNC_SYNCING;
    }
}

/// A pause request is honoured at the task's next step: after the request
/// the machine is not syncing, so the next step pauses, and a caller waiting
/// for the pause can go on.
pub proof fn law_pause_request_honoured(m: SyncMachine)
    ensures
        ({
            let requested = if m.syncing != SYNC_PAUSED { SyncMachine { syncing: SYNC_WAIT_PAUSE, ..m } } else { m };
            let stepped = if requested.syncing != SYNC_SYNCING { SyncMachine { syncing: SYNC_PAUSED, ..requested } } else { requested };
            &&& requested.syncing != SYNC_SYNCING
            &&& stepped.syncing == SYNC_PAUSED
        }),
{
}

/// The height from which a wallet starts syncing: the block after its tip, or
/// the configured start height for a wallet that has not synced yet.
pub fn start_height(tip: Option<u64>, scan_start: u64) -> (res: u64)
    requires
        tip matches Some(t) ==> t < u64::MAX,
    ensures
        tip matches Some(t) ==> res == t + 1,
        tip is None ==> res == scan_start,
{
    match tip {
        Some(t) => t + 1,
        None => scan_start,
    }
}

/// The genesis block is checked for premine UTXOs only once per wallet: when
/// it has not synced yet and expects no UTXOs.
pub fn should_check_premine(start: u64, has_expected_utxos: bool) -> (res: bool)
    ensures
        res == (start == 0 && !has_expected_utxos),
{
    start == 0 && !has_expected_utxos
}

/// A premine UTXO that belongs to one of the wallet's keys.
#[derive(Clone, Copy, Debug, PartialEq, Eq, Structural)]
pub struct PremineMatch {
    /// Id given to the expected UTXO: the pair's position in the key-major
    /// enumeration of all (key, premine UTXO) pairs.
    pub id: i64,
    /// Position of the key.
    pub key: usize,
    /// Position of the premine UTXO.
    pub utxo: usize,
}

/// The matches of key `k` among the first `n` premine UTXOs.
pub open spec fn key_matches(k: int, key_lock: Digest, utxo_locks: Seq<Digest>, n: int) -> Seq<PremineMatch>
    decreases n,
{
    if n <= 0 {
        Seq::empty()
    } else {
        let prev = key_matches(k, key_lock, utxo_locks, n - 1);
        if utxo_locks[n - 1] == key_lock {
            prev.push(PremineMatch { id: (k * utxo_locks.len() + n - 1) as i64, key: k as usize, utxo: (n - 1) as usize })
        } else {
            prev
        }
    }
}

/// The matches of the first `k` keys, key after key.
pub open spec fn premine_spec(key_locks: Seq<Digest>, utxo_locks: Seq<Digest>, k: int) -> Seq<PremineMatch>
    decreases k,
{
    if k <= 0 {
        Seq::empty()
    } else {
        premine_spec(key_locks, utxo_locks, k - 1) + key_matches(k - 1, key_locks[k - 1], utxo_locks, utxo_locks.len() as int)
    }
}

/// The match of key `k` with premine UTXO `j`, numbered in the key-major
/// enumeration of all (key, premine UTXO) pairs.
pub open spec fn premine_pair(k: int, j: int, m: int) -> PremineMatch {
    PremineMatch { id: (k * m + j) as i64, key: k as usize, utxo: j as usize }
}

/// `e` is a genuine match: its key and premine UTXO exist and have the same
/// lock-script hash, and its id numbers the pair.
pub open spec fn is_premine_match(key_locks: Seq<Digest>, utxo_locks: Seq<Digest>, e: PremineMatch) -> bool {
    &&& e.key < key_locks.len()
    &&& e.utxo < utxo_locks.len()
    &&& utxo_locks[e.utxo as int] == key_locks[e.key as int]
    &&& e.id == e.key * utxo_locks.len() + e.utxo
}

proof fn lemma_key_matches(k: int, key_locks: Seq<Digest>, utxo_locks: Seq<Digest>, n: int)
    requires
        0 <= k < key_locks.len() <= usize::MAX,
        0 <= n <= utxo_locks.len() <= usize::MAX,
        k * utxo_locks.len() + utxo_locks.len() <= i64::MAX,
    ensures
        forall|q: int| 0 <= q < key_matches(k, key_locks[k], utxo_locks, n).len() ==> {
            let e = #[trigger] key_matches(k, key_locks[k], utxo_locks, n)[q];
            &&& is_premine_match(key_locks, utxo_locks, e)
            &&& e.key == k
            &&& e.utxo < n
        },
        forall|q1: int, q2: int| 0 <= q1 < q2 < key_matches(k, key_locks[k], utxo_locks, n).len()
            ==> (#[trigger] key_matches(k, key_locks[k], utxo_locks, n)[q1]).utxo
                < (#[trigger] key_matches(k, key_locks[k], utxo_locks, n)[q2]).utxo,
        forall|j: int| 0 <= j < n && #[trigger] utxo_locks[j] == key_locks[k]
            ==> key_matches(k, key_locks[k], utxo_locks, n).contains(premine_pair(k, j, utxo_locks.len() as int)),
    decreases n,
{
    let m = utxo_locks.len() as int;
    let r = key_matches(k, key_locks[k], utxo_locks, n);
    if n > 0 {
        let p = key_matches(k, key_locks[k], utxo_locks, n - 1);
        lemma_key_matches(k, key_locks, utxo_locks, n - 1);
        assert(0 <= k * m) by (nonlinear_arith)
            requires 0 <= k, 0 <= m;
        assert forall|q: int| 0 <= q < p.len() implies #[trigger] r[q] == p[q] by {}
        assert forall|q: int| 0 <= q < r.len() implies ({
            let e = #[trigger] r[q];
            &&& is_premine_match(key_locks, utxo_locks, e)
            &&& e.key == k
            &&& e.utxo < n
        }) by {
            if q < p.len() {
                assert(r[q] == p[q]);
            }
        }
        assert forall|q1: int, q2: int| 0 <= q1 < q2 < r.len() implies (#[trigger] r[q1]).utxo < (#[trigger] r[q2]).utxo by {
            if q2 < p.len() {
                assert(r[q1] == p[q1] && r[q2] == p[q2]);
            } else {
                assert(r[q1] == p[q1]);
            }
        }
        assert forall|j: int| 0 <= j < n && #[trigger] utxo_locks[j] == key_locks[k]
            implies r.contains(premine_pair(k, j, m)) by {
            if j < n - 1 {
                let q = choose|q: int| 0 <= q < p.len() && p[q] == premine_pair(k, j, m);
                assert(r[q] == premine_pair(k, j, m));
            } else {
                assert(r[r.len() - 1] == premine_pair(k, j, m));
            }
        }
    }
}

proof fn lemma_premine_spec(key_locks: Seq<Digest>, utxo_locks: Seq<Digest>, n: int)
    requires
        0 <= n <= key_locks.len() <= usize::MAX,
        utxo_locks.len() <= usize::MAX,
        key_locks.len() * utxo_locks.len() <= i64::MAX,
    ensures
        forall|q: int| 0 <= q < premine_spec(key_locks, utxo_locks, n).len() ==> {
            let e = #[trigger] premine_spec(key_locks, utxo_locks, n)[q];
            &&& is_premine_match(key_locks, utxo_locks, e)
            &&& e.key < n
        },
        forall|q1: int, q2: int| 0 <= q1 < q2 < premine_spec(key_locks, utxo_locks, n).len()
            ==> (#[trigger] premine_spec(key_locks, utxo_locks, n)[q1]).id < (#[trigger] premine_spec(key_locks, utxo_locks, n)[q2]).id,
        forall|k: int, j: int| 0 <= k < n && 0 <= j < utxo_locks.len() && #[trigger] utxo_locks[j] == #[trigger] key_locks[k]
            ==> premine_spec(key_locks, utxo_locks, n).contains(premine_pair(k, j, utxo_locks.len() as int)),
    decreases n,
{
    let m = utxo_locks.len() as int;
    let r = premine_spec(key_locks, utxo_locks, n);
    if n > 0 {
        let k = n - 1;
        let p = premine_spec(key_locks, utxo_locks, k);
        let km = key_matches(k, key_locks[k], utxo_locks, m);
        lemma_premine_spec(key_locks, utxo_locks, k);
        assert(k * m + m <= key_locks.len() * m) by (nonlinear_arith)
            requires k + 1 <= key_locks.len(), 0 <= m;
        lemma_key_matches(k, key_locks, utxo_locks, m);
        assert(r =~= p + km);
        assert forall|q: int| 0 <= q < p.len() implies #[trigger] r[q] == p[q] by {}
        assert forall|q: int| 0 <= q < km.len() implies #[trigger] r[p.len() + q] == km[q] by {}
        assert forall|q: int| 0 <= q < r.len() implies ({
            let e = #[trigger] r[q];
            &&& is_premine_match(key_locks, utxo_locks, e)
            &&& e.key < n
        }) by {
            if q < p.len() {
                assert(r[q] == p[q]);
            } else {
                assert(r[q] == km[q - p.len()]);
            }
        }
        assert forall|q1: int, q2: int| 0 <= q1 < q2 < r.len() implies (#[trigger] r[q1]).id < (#[trigger] r[q2]).id by {
            if q2 < p.len() {
                assert(r[q1] == p[q1] && r[q2] == p[q2]);
            } else if q1 >= p.len() {
                assert(r[q1] == km[q1 - p.len()] && r[q2] == km[q2 - p.len()]);
            } else {
                let e1 = p[q1];
                let e2 = km[q2 - p.len()];
                assert(r[q1] == e1 && r[q2] == e2);
                let a = e1.key as int;
                let b = e1.utxo as int;
                assert(a * m + b < k * m) by (nonlinear_arith)
                    requires 0 <= a < k, 0 <= b < m;
                assert(k * m <= k * m + (e2.utxo as int));
            }
        }
        assert forall|kk: int, j: int| 0 <= kk < n && 0 <= j < m && #[trigger] utxo_locks[j] == #[trigger] key_locks[kk]
            implies r.contains(premine_pair(kk, j, m)) by {
            if kk < k {
                let q = choose|q: int| 0 <= q < p.len() && p[q] == premine_pair(kk, j, m);
                assert(r[q] == premine_pair(kk, j, m));
            } else {
                assert(km.contains(premine_pair(kk, j, m)));
                let q = choose|q: int| 0 <= q < km.len() && km[q] == premine_pair(kk, j, m);
                assert(r[p.len() + q] == premine_pair(kk, j, m));
            }
        }
    }
}

/// The premine UTXOs found are exactly the wallet's: every pair of a key and
/// a premine UTXO with the same lock-script hash is found, whatever the other
/// keys match, with the id that numbers the pair key-major; everything found
/// is such a pair; and ids increase, so no pair is found twice.
pub proof fn law_premine_matches(key_locks: Seq<Digest>, utxo_locks: Seq<Digest>)
    requires
        key_locks.len() <= usize::MAX,
        utxo_locks.len() <= usize::MAX,
        key_locks.len() * utxo_locks.len() <= i64::MAX,
    ensures
        forall|k: int, j: int| 0 <= k < key_locks.len() && 0 <= j < utxo_locks.len() && #[trigger] utxo_locks[j] == #[trigger] key_locks[k]
            ==> premine_spec(key_locks, utxo_locks, key_locks.len() as int).contains(premine_pair(k, j, utxo_locks.len() as int)),
        forall|q: int| 0 <= q < premine_spec(key_locks, utxo_locks, key_locks.len() as int).len()
            ==> is_premine_match(key_locks, utxo_locks, #[trigger] premine_spec(key_locks, utxo_locks, key_locks.len() as int)[q]),
        forall|q1: int, q2: int| 0 <= q1 < q2 < premine_spec(key_locks, utxo_locks, key_locks.len() as int).len()
            ==> (#[trigger] premine_spec(key_locks, utxo_locks, key_locks.len() as int)[q1]).id
                < (#[trigger] premine_spec(key_locks, utxo_locks, key_locks.len() as int)[q2]).id,
{
    lemma_premine_spec(key_locks, utxo_locks, key_locks.len() as int);
}

/// Find the premine UTXOs that belong to the wallet.
///
/// `key_locks` are the lock-script hashes of the receiving addresses of the
/// wallet's keys, `utxo_locks` those of the premine UTXOs.
pub fn premine_matches(key_locks: &Vec<Digest>, utxo_locks: &Vec<Digest>) -> (res: Vec<PremineMatch>)
    requires
        key_locks@.len() * utxo_locks@.len() <= i64::MAX,
    ensures
        res@ == premine_spec(key_locks@, utxo_locks@, key_locks@.len() as int),
        forall|k: int, j: int| 0 <= k < key_locks@.len() && 0 <= j < utxo_locks@.len() && #[trigger] utxo_locks@[j] == #[trigger] key_locks@[k]
            ==> res@.contains(premine_pair(k, j, utxo_locks@.len() as int)),
        forall|q: int| 0 <= q < res@.len() ==> is_premine_match(key_locks@, utxo_locks@, #[trigger] res@[q]),
{
    let m = utxo_locks.len();
    let num_keys: usize = key_locks.len();
    proof {
        law_premine_matches(key_locks@, utxo_locks@);
    }
    let mut res: Vec<PremineMatch> = Vec::new();
    let mut id: i64 = 0;
    let mut k: usize = 0;
    while k < num_keys
        invariant
            num_keys == key_locks@.len(),
            m == utxo_locks@.len(),
            k <= key_locks@.len(),
            key_locks@.len() * m <= i64::MAX,
            id == k * m,
            res@ == premine_spec(key_locks@, utxo_locks@, k as int),
        decreases key_locks@.len() - k,
    {
        proof {
            assert((k + 1) * m <= key_locks@.len() * m) by (nonlinear_arith)
                requires k + 1 <= key_locks@.len();
            assert((k + 1) * m == k * m + m) by (nonlinear_arith);
        }
        let lock = key_locks[k];
        let ghost before = res@;
        let mut j: usize = 0;
        while j < m
            invariant
                m == utxo_locks@.len(),
                k < key_locks@.len(),
                lock == key_locks@[k as int],
                j <= m,
                id == k * m + j,
                k * m + m <= i64::MAX,
                res@ == before + key_matches(k as int, lock, utxo_locks@, j as int),
            decreases m - j,
        {
            if utxo_locks[j] == lock {
                res.push(PremineMatch { id, key: k, utxo: j });
                assert(res@ =~= before + key_matches(k as int, lock, utxo_locks@, j as int + 1));
            } else {
                assert(res@ =~= before + key_matches(k as int, lock, utxo_locks@, j as int + 1));
            }
            id = id + 1;
            j = j + 1;
        }
        k = k + 1;
    }
    res
}

} // verus!
