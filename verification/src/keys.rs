use vstd::prelude::*;
use crate::types::{Digest, KeyType, all_key_types, key_types};

verus! {

/// Why a request about addresses was refused.
#[derive(Clone, Copy, Debug, PartialEq, Eq, Structural)]
pub enum KeyError {
    /// Symmetric addresses cannot be shown in a secure manner.
    SymmetricNotShown,
    /// The wallet does not generate new symmetric addresses.
    SymmetricNotGenerated,
    /// Address records carry the key index as an `i32`.
    IndexTooLarge,
}

impl KeyError {
    /// The text of the error.
    pub fn message(&self) -> (res: &'static str)
        ensures
            res@ == key_error_text(*self),
    {
        match self {
            KeyError::SymmetricNotShown => "Symmetric keys cannot be shown in a secure manner",
            KeyError::SymmetricNotGenerated => "Symmetric keys should not be used",
            KeyError::IndexTooLarge => "Key index cannot exceed i32::MAX",
        }
    }
}

pub open spec fn key_error_text(e: KeyError) -> Seq<char> {
    match e {
        KeyError::SymmetricNotShown => "Symmetric keys cannot be shown in a secure manner"@,
        KeyError::SymmetricNotGenerated => "Symmetric keys should not be used"@,
        KeyError::IndexTooLarge => "Key index cannot exceed i32::MAX"@,
    }
}

/// The wallet's derivation counters.
///
/// For each key type the index is that of the *next* key to derive, which is
/// also the number of keys of that type the wallet knows.
#[derive(Clone, Copy, Debug, PartialEq, Eq, Structural)]
pub struct KeyIndices {
    pub generation: u64,
    pub symmetric: u64,
    pub ec_hybrid: u64,
    pub viewing_address: u64,
    /// How many keys past the known ones are watched for incoming UTXOs.
    pub num_future_keys: u64,
}

impl KeyIndices {
    /// The derivation index of a key type.
    pub open spec fn index(self, t: KeyType) -> u64 {
        match t {
            KeyType::Generation => self.generation,
            KeyType::Symmetric => self.symmetric,
            KeyType::EcHybrid => self.ec_hybrid,
            KeyType::ViewingAddress => self.viewing_address,
        }
    }

    /// `self` with the index of `t` replaced by `v`.
    pub open spec fn with_index(self, t: KeyType, v: u64) -> KeyIndices {
        match t {
            KeyType::Generation => KeyIndices { generation: v, ..self },
            KeyType::Symmetric => KeyIndices { symmetric: v, ..self },
            KeyType::EcHybrid => KeyIndices { ec_hybrid: v, ..self },
            KeyType::ViewingAddress => KeyIndices { viewing_address: v, ..self },
        }
    }

    /// A fresh wallet knows one key of each type.
    pub fn new(num_future_keys: u64) -> (res: Self)
        ensures
            forall|t: KeyType| #[trigger] res.index(t) == 1,
            res.num_future_keys == num_future_keys,
    {
        KeyIndices {
            generation: 1,
            symmetric: 1,
            ec_hybrid: 1,
            viewing_address: 1,
            num_future_keys,
        }
    }

    /// The index of the next key of type `t`.
    pub fn ephemeral_key_index(&self, t: KeyType) -> (res: u64)
        ensures
            res == self.index(t),
    {
        match t {
            KeyType::Generation => self.generation,
            KeyType::Symmetric => self.symmetric,
            KeyType::EcHybrid => self.ec_hybrid,
            KeyType::ViewingAddress => self.viewing_address,
        }
    }

    /// Set the index of the next key of type `t`.
    pub fn set_ephemeral_key_index(&mut self, t: KeyType, val: u64)
        ensures
            *final(self) == old(self).with_index(t, val),
    {
        match t {
            KeyType::Generation => self.generation = val,
            KeyType::Symmetric => self.symmetric = val,
            KeyType::EcHybrid => self.ec_hybrid = val,
            KeyType::ViewingAddress => self.viewing_address = val,
        }
    }

    /// The number of keys watched past the known ones.
    pub fn num_future_keys(&self) -> (res: u64)
        ensures
            res == self.num_future_keys,
    {
        self.num_future_keys
    }
}

/// The index that a recorded key-use asks for: one past the highest used key
/// index, or 1 when no key of the type was used.
pub open spec fn bump_target(m: Option<u64>) -> int {
    match m {
        Some(x) => x + 1,
        None => 1,
    }
}

/// The index of `t` after raising `old` to every target in `entries` that
/// concerns `t`.
pub open spec fn bumped_index(old: int, entries: Seq<(KeyType, Option<u64>)>, t: KeyType) -> int
    decreases entries.len(),
{
    if entries.len() == 0 {
        old
    } else {
        let prev = bumped_index(old, entries.drop_last(), t);
        let e = entries.last();
        if e.0 == t && bump_target(e.1) > prev {
            bump_target(e.1)
        } else {
            prev
        }
    }
}

/// No entry names `u64::MAX` as its highest used index.
pub open spec fn targets_fit(entries: Seq<(KeyType, Option<u64>)>) -> bool {
    forall|i: int| 0 <= i < entries.len() ==> (#[trigger] entries[i]).1 != Some(u64::MAX)
}

impl KeyIndices {
    /// Raise the derivation indices so that each key type's index is past the
    /// highest key index that has been used.
    ///
    /// `entries` pairs a key type with its highest used key index (`None`
    /// when no key of that type was used). An index never decreases.
    pub fn bump_key_indices(&mut self, entries: &Vec<(KeyType, Option<u64>)>)
        requires
            targets_fit(entries@),
        ensures
            forall|t: KeyType| #[trigger] final(self).index(t) as int == bumped_index(old(self).index(t) as int, entries@, t),
            final(self).num_future_keys == old(self).num_future_keys,
    {
        let ghost start = *self;
        let mut i: usize = 0;
        while i < entries.len()
            invariant
                i <= entries@.len(),
                targets_fit(entries@),
                self.num_future_keys == start.num_future_keys,
                forall|t: KeyType| #[trigger] self.index(t) as int == bumped_index(start.index(t) as int, entries@.take(i as int), t),
            decreases entries@.len() - i,
        {
            let (t, m) = entries[i];
            assert(entries@[i as int].1 != Some(u64::MAX));
            let new_index: u64 = match m {
                Some(x) => x + 1,
                None => 1,
            };
            let cur = self.ephemeral_key_index(t);
            let ghost before = *self;
            if new_index > cur {
                self.set_ephemeral_key_index(t, new_index);
            }
            proof {
                let pre = entries@.take(i as int);
                let post = entries@.take(i as int + 1);
                assert(post.drop_last() =~= pre);
                assert(post.last() == (t, m));
                assert(bump_target(m) == new_index as int);
                assert forall|u: KeyType| #[trigger] self.index(u) as int == bumped_index(start.index(u) as int, post, u) by {
                    assert(bumped_index(start.index(u) as int, post, u) == {
                        let prev = bumped_index(start.index(u) as int, pre, u);
                        if post.last().0 == u && bump_target(post.last().1) > prev { bump_target(post.last().1) } else { prev }
                    });
                    assert(before.index(u) as int == bumped_index(start.index(u) as int, pre, u));
                }
            }
            i = i + 1;
        }
        assert(entries@.take(entries@.len() as int) =~= entries@);
    }
}

/// Bumping never lowers an index.
pub proof fn law_bump_monotone(old: int, entries: Seq<(KeyType, Option<u64>)>, t: KeyType)
    ensures
        bumped_index(old, entries, t) >= old,
    decreases entries.len(),
{
    if entries.len() > 0 {
        law_bump_monotone(old, entries.drop_last(), t);
    }
}

/// The largest target in `entries` for `t`, or 0 when there is none.
pub open spec fn max_target(entries: Seq<(KeyType, Option<u64>)>, t: KeyType) -> int
    decreases entries.len(),
{
    if entries.len() == 0 {
        0
    } else {
        let prev = max_target(entries.drop_last(), t);
        let e = entries.last();
        if e.0 == t && bump_target(e.1) > prev {
            bump_target(e.1)
        } else {
            prev
        }
    }
}

/// Bumping sets each index to the larger of its old value and the largest
/// target for its type, whatever the order of the entries.
pub proof fn law_bump_is_max(old: int, entries: Seq<(KeyType, Option<u64>)>, t: KeyType)
    requires
        old >= 0,
    ensures
        bumped_index(old, entries, t) == if max_target(entries, t) > old { max_target(entries, t) } else { old },
    decreases entries.len(),
{
    if entries.len() > 0 {
        law_bump_is_max(old, entries.drop_last(), t);
    }
}

/// Bumping twice with the same entries is the same as bumping once.
pub proof fn law_bump_idempotent(old: int, entries: Seq<(KeyType, Option<u64>)>, t: KeyType)
    requires
        old >= 0,
    ensures
        bumped_index(bumped_index(old, entries, t), entries, t) == bumped_index(old, entries, t),
{
    law_bump_is_max(old, entries, t);
    law_bump_monotone(old, entries, t);
    law_bump_is_max(bumped_index(old, entries, t), entries, t);
}

/// The values of a sequence of `i32`s as integers.
pub open spec fn as_ints(v: Seq<i32>) -> Seq<int> {
    v.map_values(|x: i32| x as int)
}

/// The single finding that key `m` of type `t` was the highest one used.
pub open spec fn found_entry(t: KeyType, m: u64) -> Seq<(KeyType, Option<u64>)> {
    seq![(t, Some(m))]
}

/// The index of `t` after bumping with that single finding.
pub open spec fn bump_found(k: KeyIndices, t: KeyType, m: u64) -> int {
    bumped_index(k.index(t) as int, found_entry(t, m), t)
}

/// After a scan found that key `m` of type `t` received a UTXO, bumping with
/// that finding makes the wallet know key `m`: it is among the known indices,
/// and so among the keys the wallet can spend with.
pub proof fn law_bump_covers_found_key(k: KeyIndices, t: KeyType, m: u64)
    requires
        m < u64::MAX,
    ensures
        bump_found(k, t, m) > m,
        known_indices(k.with_index(t, bump_found(k, t, m) as u64), t).contains(m as int),
{
    let e = found_entry(t, m);
    assert(e.drop_last() =~= Seq::<(KeyType, Option<u64>)>::empty());
    let b = bump_found(k, t, m);
    assert(bumped_index(k.index(t) as int, e.drop_last(), t) == k.index(t));
    assert(e.last() == (t, Some(m)));
    assert(b > m);
    assert(b <= u64::MAX);
    let k2 = k.with_index(t, b as u64);
    assert(k2.index(t) == b);
    assert(known_indices(k2, t)[m as int] == m as int);
}

/// The key indices whose addresses are listed for a key type: all known ones.
pub open spec fn known_indices(k: KeyIndices, t: KeyType) -> Seq<int> {
    Seq::new(k.index(t) as nat, |i: int| i)
}

impl KeyIndices {
    /// The key indices of the addresses to list for key type `t`.
    ///
    /// Refuses symmetric keys, and indices that do not fit an `i32`.
    pub fn known_address_indices(&self, t: KeyType) -> (res: Result<Vec<i32>, KeyError>)
        ensures
            t == KeyType::Symmetric ==> res == Err::<Vec<i32>, KeyError>(KeyError::SymmetricNotShown),
            t != KeyType::Symmetric && self.index(t) > i32::MAX ==> res == Err::<Vec<i32>, KeyError>(KeyError::IndexTooLarge),
            t != KeyType::Symmetric && self.index(t) <= i32::MAX ==> (res matches Ok(v)
                && as_ints(v@) == known_indices(*self, t)),
    {
        if t == KeyType::Symmetric {
            return Err(KeyError::SymmetricNotShown);
        }
        let end = self.ephemeral_key_index(t);
        if end > 2147483647u64 {
            return Err(KeyError::IndexTooLarge);
        }
        let mut v: Vec<i32> = Vec::new();
        let mut i: u64 = 0;
        while i < end
            invariant
                end <= 2147483647,
                i <= end,
                v@.len() == i,
                as_ints(v@) == Seq::new(i as nat, |j: int| j),
            decreases end - i,
        {
            let ghost old_v = v@;
            let x = i as i32;
            assert(x as int == i as int);
            v.push(x);
            i = i + 1;
            assert forall|j: int| 0 <= j < i implies #[trigger] as_ints(v@)[j] == j by {
                if j < i - 1 {
                    assert(v@[j] == old_v[j]);
                    assert(as_ints(old_v)[j] == j);
                }
            }
            assert(as_ints(v@) =~= Seq::new(i as nat, |j: int| j));
        }
        Ok(v)
    }

    /// Reserve the next address of type `t`: returns its key index and
    /// advances the derivation index past it.
    ///
    /// Refuses symmetric keys, and indices that do not fit an `i32`; a refused
    /// request changes nothing.
    pub fn generate_new_address(&mut self, t: KeyType) -> (res: Result<u64, KeyError>)
        ensures
            t == KeyType::Symmetric ==> res == Err::<u64, KeyError>(KeyError::SymmetricNotGenerated)
                && *final(self) == *old(self),
            t != KeyType::Symmetric && old(self).index(t) > i32::MAX ==> res == Err::<u64, KeyError>(KeyError::IndexTooLarge)
                && *final(self) == *old(self),
            t != KeyType::Symmetric && old(self).index(t) <= i32::MAX ==> res == Ok::<u64, KeyError>(old(self).index(t))
                && *final(self) == old(self).with_index(t, (old(self).index(t) + 1) as u64),
    {
        if t == KeyType::Symmetric {
            return Err(KeyError::SymmetricNotGenerated);
        }
        let k = self.ephemeral_key_index(t);
        if k > 2147483647u64 {
            return Err(KeyError::IndexTooLarge);
        }
        self.set_ephemeral_key_index(t, k.saturating_add(1));
        Ok(k)
    }
}

/// Generating a new address appends exactly that address to the listed ones:
/// the known indices afterwards are the ones before, followed by the new one.
pub proof fn law_generate_appends(k: KeyIndices, t: KeyType)
    requires
        t != KeyType::Symmetric,
        k.index(t) <= i32::MAX,
    ensures
        known_indices(k.with_index(t, (k.index(t) + 1) as u64), t) == known_indices(k, t).push(k.index(t) as int),
{
    assert(k.with_index(t, (k.index(t) + 1) as u64).index(t) == k.index(t) + 1);
    assert(known_indices(k.with_index(t, (k.index(t) + 1) as u64), t) =~= known_indices(k, t).push(k.index(t) as int));
}

/// Which key a wallet holds at a derivation position.
///
/// `from_digest` marks the symmetric key whose seed is the privacy preimage
/// of the regular symmetric key at the same index; the wallet also watches
/// those when configured to recover funds sent to such addresses.
#[derive(Clone, Copy, Debug, PartialEq, Eq, Structural)]
pub struct KeySlot {
    pub key_type: KeyType,
    pub index: u64,
    pub from_digest: bool,
}

/// The number of positions in `start..end`.
pub open spec fn range_len(start: u64, end: u64) -> nat {
    if end > start { (end - start) as nat } else { 0 }
}

/// The regular keys of type `t` at positions `start..end`.
pub open spec fn regular_slots(start: u64, end: u64, t: KeyType, from_digest: bool) -> Seq<KeySlot> {
    Seq::new(range_len(start, end), |i: int| KeySlot { key_type: t, index: (start + i) as u64, from_digest })
}

/// The keys that the wallet derives for type `t` at positions `start..end`:
/// the regular ones and, for symmetric keys when recovery is switched on,
/// the digest-seeded ones after them.
pub open spec fn slots_spec(start: u64, end: u64, t: KeyType, recover: bool) -> Seq<KeySlot> {
    if t == KeyType::Symmetric && recover {
        regular_slots(start, end, t, false) + regular_slots(start, end, t, true)
    } else {
        regular_slots(start, end, t, false)
    }
}

fn push_slots(v: &mut Vec<KeySlot>, start: u64, end: u64, t: KeyType, from_digest: bool)
    ensures
        final(v)@ == old(v)@ + regular_slots(start, end, t, from_digest),
{
    let ghost v0 = v@;
    let mut i = start;
    assert(v@ =~= v0 + regular_slots(start, i, t, from_digest));
    while i < end
        invariant
            start <= i,
            end > start ==> i <= end,
            end <= start ==> i == start,
            v@ == v0 + regular_slots(start, i, t, from_digest),
        decreases end - i,
    {
        v.push(KeySlot { key_type: t, index: i, from_digest });
        i = i + 1;
        assert(v@ =~= v0 + regular_slots(start, i, t, from_digest));
    }
    assert(range_len(start, i) == range_len(start, end));
    assert(regular_slots(start, i, t, from_digest) =~= regular_slots(start, end, t, from_digest));
}

/// The keys of type `t` at positions `start..end`, in the order in which the
/// wallet derives them.
pub fn key_slots(start: u64, end: u64, t: KeyType, recover: bool) -> (res: Vec<KeySlot>)
    ensures
        res@ == slots_spec(start, end, t, recover),
{
    let mut v: Vec<KeySlot> = Vec::new();
    push_slots(&mut v, start, end, t, false);
    if t == KeyType::Symmetric && recover {
        push_slots(&mut v, start, end, t, true);
    }
    assert(v@ =~= slots_spec(start, end, t, recover));
    v
}

/// The known keys of one type: all positions below its derivation index.
pub open spec fn known_slots(k: KeyIndices, t: KeyType, recover: bool) -> Seq<KeySlot> {
    slots_spec(0, k.index(t), t, recover)
}

/// The known keys of every type, type after type.
pub open spec fn all_known_slots(k: KeyIndices, recover: bool) -> Seq<KeySlot> {
    known_slots(k, KeyType::Generation, recover) + known_slots(k, KeyType::Symmetric, recover)
        + known_slots(k, KeyType::EcHybrid, recover) + known_slots(k, KeyType::ViewingAddress, recover)
}

/// The keys watched for incoming UTXOs for one type: those at the known
/// positions and at `num_future_keys` positions more. With recovery on, both
/// the regular and the digest-seeded symmetric key of each position are
/// watched, so that funds sent to either address are found.
pub open spec fn watched_slots(k: KeyIndices, t: KeyType, recover: bool) -> Seq<KeySlot> {
    slots_spec(0, (k.index(t) + k.num_future_keys) as u64, t, recover)
}

/// How many keys the wallet derives per position of type `t`: two for
/// symmetric keys with recovery on, one otherwise.
pub open spec fn keys_per_position(t: KeyType, recover: bool) -> nat {
    if t == KeyType::Symmetric && recover { 2 } else { 1 }
}

/// No type's watched range runs past `u64::MAX`.
pub open spec fn watch_fits(k: KeyIndices) -> bool {
    forall|t: KeyType| #[trigger] k.index(t) + k.num_future_keys <= u64::MAX
}

impl KeyIndices {
    /// The known keys of type `t`.
    pub fn known_keys(&self, t: KeyType, recover: bool) -> (res: Vec<KeySlot>)
        ensures
            res@ == known_slots(*self, t, recover),
    {
        key_slots(0, self.ephemeral_key_index(t), t, recover)
    }

    /// The known keys of all types, type after type.
    pub fn all_known_keys(&self, recover: bool) -> (res: Vec<KeySlot>)
        ensures
            res@ == all_known_slots(*self, recover),
    {
        let mut v = self.known_keys(KeyType::Generation, recover);
        let mut s = self.known_keys(KeyType::Symmetric, recover);
        let mut e = self.known_keys(KeyType::EcHybrid, recover);
        let mut w = self.known_keys(KeyType::ViewingAddress, recover);
        v.append(&mut s);
        v.append(&mut e);
        v.append(&mut w);
        v
    }

    /// The keys of type `t` watched for incoming UTXOs.
    pub fn known_and_future_keys(&self, t: KeyType, recover: bool) -> (res: Vec<KeySlot>)
        requires
            watch_fits(*self),
        ensures
            res@ == watched_slots(*self, t, recover),
    {
        let end = self.ephemeral_key_index(t) + self.num_future_keys;
        key_slots(0, end, t, recover)
    }
}

/// Each type watches the keys of `num_future_keys` positions past the known
/// ones, and knows the keys of as many positions as its index; each position
/// holds `keys_per_position` keys.
pub proof fn law_watch_counts(k: KeyIndices, t: KeyType, recover: bool)
    requires
        watch_fits(k),
    ensures
        watched_slots(k, t, recover).len() == keys_per_position(t, recover) * (k.index(t) + k.num_future_keys),
        known_slots(k, t, recover).len() == keys_per_position(t, recover) * k.index(t),
{
    assert(k.index(t) + k.num_future_keys <= u64::MAX);
}

/// The keys watched over all types number the known keys plus the keys of
/// `num_future_keys` positions per key type.
pub proof fn law_watched_total(k: KeyIndices, recover: bool)
    requires
        watch_fits(k),
    ensures
        watched_slots(k, KeyType::Generation, recover).len() + watched_slots(k, KeyType::Symmetric, recover).len()
            + watched_slots(k, KeyType::EcHybrid, recover).len() + watched_slots(k, KeyType::ViewingAddress, recover).len()
            == all_known_slots(k, recover).len() + (all_key_types().len() + (if recover { 1int } else { 0int })) * k.num_future_keys,
{
    law_watch_counts(k, KeyType::Generation, recover);
    law_watch_counts(k, KeyType::Symmetric, recover);
    law_watch_counts(k, KeyType::EcHybrid, recover);
    law_watch_counts(k, KeyType::ViewingAddress, recover);
    assert(all_key_types().len() == 4);
    let n = k.num_future_keys as int;
    let s = k.symmetric as int;
    if recover {
        assert(2 * (s + n) == 2 * s + 2 * n) by (nonlinear_arith);
        assert(5 * n == n + 2 * n + n + n);
    } else {
        assert(4 * n == n + n + n + n);
    }
}

/// A fresh wallet knows exactly one key of each type.
pub proof fn law_fresh_wallet_knows_one_key_per_type(n: u64)
    ensures
        all_known_slots(KeyIndices { generation: 1, symmetric: 1, ec_hybrid: 1, viewing_address: 1, num_future_keys: n }, false).len()
            == all_key_types().len(),
{
}

/// A wallet whose index for a type is at least one knows at least one key of
/// that type; fresh wallets start at one and indices never fall.
pub proof fn law_known_keys_nonempty(k: KeyIndices, t: KeyType, recover: bool)
    requires
        k.index(t) >= 1,
    ensures
        known_slots(k, t, recover).len() >= 1,
        known_slots(k, t, recover)[0] == (KeySlot { key_type: t, index: 0, from_digest: false }),
{
}

/// The state of the scan that finds the highest key index of one type that
/// has received a UTXO.
///
/// The scan looks at `num_future_keys` positions past the highest match so
/// far; it ends at the first window without a match, so a gap of more than
/// `num_future_keys` unused keys hides the keys after it.
#[derive(Clone, Copy, Debug, PartialEq, Eq, Structural)]
pub struct KeyScan {
    pub max_index: Option<u64>,
    pub done: bool,
}

/// The first position of the next window.
pub open spec fn window_start(s: KeyScan) -> int {
    match s.max_index {
        Some(m) => m + 1,
        None => 0,
    }
}

/// The highest position in `window` whose preimage is one of `receivers`.
pub open spec fn max_match(window: Seq<(u64, Digest)>, receivers: Seq<Digest>) -> Option<u64>
    decreases window.len(),
{
    if window.len() == 0 {
        None
    } else {
        let prev = max_match(window.drop_last(), receivers);
        let e = window.last();
        if receivers.contains(e.1) {
            match prev {
                Some(p) => if e.0 > p { Some(e.0) } else { Some(p) },
                None => Some(e.0),
            }
        } else {
            prev
        }
    }
}

impl KeyScan {
    /// A scan that has found nothing yet.
    pub fn new() -> (res: Self)
        ensures
            res == (KeyScan { max_index: None, done: false }),
    {
        KeyScan { max_index: None, done: false }
    }

    /// The positions `start..end` of the next window to derive and check, or
    /// `None` once the scan has ended.
    pub fn next_window(&self, num_future_keys: u64) -> (res: Option<(u64, u64)>)
        requires
            window_start(*self) + num_future_keys <= u64::MAX,
        ensures
            self.done ==> res is None,
            !self.done ==> res == Some(((window_start(*self)) as u64, (window_start(*self) + num_future_keys) as u64)),
    {
        if self.done {
            return None;
        }
        let start: u64 = match self.max_index {
            Some(m) => m + 1,
            None => 0,
        };
        Some((start, start + num_future_keys))
    }

    /// Record the keys of one window: their positions and privacy preimages.
    ///
    /// If one of them is among the receiver preimages of the incoming UTXOs,
    /// the highest such position becomes the new maximum; otherwise the scan
    /// ends.
    pub fn record_window(&mut self, window: &Vec<(u64, Digest)>, receivers: &Vec<Digest>)
        ensures
            max_match(window@, receivers@) matches Some(m) ==> *final(self) == (KeyScan { max_index: Some(m), done: false }),
            max_match(window@, receivers@) is None ==> *final(self) == (KeyScan { max_index: old(self).max_index, done: true }),
            *final(self) == scan_step(*old(self), window@, receivers@),
    {
        let mut best: Option<u64> = None;
        let mut i: usize = 0;
        while i < window.len()
            invariant
                i <= window@.len(),
                best == max_match(window@.take(i as int), receivers@),
            decreases window@.len() - i,
        {
            let (idx, pre) = window[i];
            proof {
                assert(window@.take(i as int + 1).drop_last() =~= window@.take(i as int));
                assert(window@.take(i as int + 1).last() == (idx, pre));
            }
            if crate::recovery::contains_digest(receivers, pre) {
                best = match best {
                    Some(p) => if idx > p { Some(idx) } else { Some(p) },
                    None => Some(idx),
                };
            }
            i = i + 1;
        }
        assert(window@.take(window@.len() as int) =~= window@);
        match best {
            Some(m) => {
                self.max_index = Some(m);
                self.done = false;
            },
            None => {
                self.done = true;
            },
        }
    }

    /// The highest key index found to have received a UTXO, if any.
    pub fn result(&self) -> (res: Option<u64>)
        ensures
            res == self.max_index,
    {
        self.max_index
    }
}

/// A window's maximum match is one of its positions whose preimage is a
/// receiver preimage, and no matching position in the window is higher.
pub proof fn law_max_match(window: Seq<(u64, Digest)>, receivers: Seq<Digest>)
    ensures
        max_match(window, receivers) matches Some(m) ==> exists|i: int| 0 <= i < window.len() && #[trigger] window[i].0 == m
            && receivers.contains(window[i].1),
        max_match(window, receivers) matches Some(m) ==> forall|i: int| 0 <= i < window.len()
            && receivers.contains(#[trigger] window[i].1) ==> window[i].0 <= m,
        max_match(window, receivers) is None ==> forall|i: int| 0 <= i < window.len() ==> !receivers.contains(#[trigger] window[i].1),
    decreases window.len(),
{
    if window.len() > 0 {
        let w = window.drop_last();
        law_max_match(w, receivers);
        assert forall|i: int| 0 <= i < w.len() implies #[trigger] w[i] == window[i] by {}
        let last = window.len() - 1;
        if let Some(m) = max_match(window, receivers) {
            if receivers.contains(window[last].1) && (max_match(w, receivers) is None || window[last].0 > max_match(w, receivers)->0) {
                assert(window[last].0 == m);
            } else {
                let i = choose|i: int| 0 <= i < w.len() && #[trigger] w[i].0 == m && receivers.contains(w[i].1);
                assert(window[i].0 == m);
            }
            assert forall|i: int| 0 <= i < window.len() && receivers.contains(#[trigger] window[i].1) implies window[i].0 <= m by {
                if i < last {
                    assert(w[i] == window[i]);
                }
            }
        } else {
            assert forall|i: int| 0 <= i < window.len() implies !receivers.contains(#[trigger] window[i].1) by {
                if i < last {
                    assert(w[i] == window[i]);
                }
            }
        }
    }
}

/// The state after recording one window (see `KeyScan::record_window`).
pub open spec fn scan_step(s: KeyScan, window: Seq<(u64, Digest)>, receivers: Seq<Digest>) -> KeyScan {
    match max_match(window, receivers) {
        Some(m) => KeyScan { max_index: Some(m), done: false },
        None => KeyScan { max_index: s.max_index, done: true },
    }
}

/// The window of `n` keys from position `start`, each with the privacy
/// preimage `pre` derives for it.
pub open spec fn derived_window(pre: spec_fn(u64) -> Digest, start: int, n: u64) -> Seq<(u64, Digest)> {
    Seq::new(n as nat, |i: int| ((start + i) as u64, pre((start + i) as u64)))
}

/// The scan run for at most `fuel` windows from `s`, each window derived
/// with `pre` from where `next_window` puts it.
pub open spec fn scan_run(pre: spec_fn(u64) -> Digest, receivers: Seq<Digest>, n: u64, s: KeyScan, fuel: nat) -> KeyScan
    decreases fuel,
{
    if fuel == 0 || s.done {
        s
    } else {
        scan_run(pre, receivers, n, scan_step(s, derived_window(pre, window_start(s), n), receivers), (fuel - 1) as nat)
    }
}

/// The key at position `p` has received a UTXO: its preimage is a receiver
/// preimage.
pub open spec fn key_used(pre: spec_fn(u64) -> Digest, receivers: Seq<Digest>, p: int) -> bool {
    0 <= p <= u64::MAX && receivers.contains(pre(p as u64))
}

/// Every used key before `m` is followed by another used key at most `n`
/// positions later, and a key below `n` is used.
pub open spec fn chained_to(pre: spec_fn(u64) -> Digest, receivers: Seq<Digest>, n: u64, m: int) -> bool {
    &&& key_used(pre, receivers, m)
    &&& forall|p: int| 0 <= p < m && #[trigger] key_used(pre, receivers, p)
        ==> exists|q: int| p < q <= p + n && #[trigger] key_used(pre, receivers, q)
    &&& exists|q: int| 0 <= q < n && #[trigger] key_used(pre, receivers, q)
}

/// The outcome of a finished scan: with no used key among the first `n`,
/// nothing is found; otherwise the result is a used key that is reached
/// from the start by gaps of fewer than `n` unused keys, and is followed by
/// `n` unused keys.
pub open spec fn gap_outcome(pre: spec_fn(u64) -> Digest, receivers: Seq<Digest>, n: u64, r: KeyScan) -> bool {
    match r.max_index {
        None => forall|p: int| 0 <= p < n ==> !#[trigger] key_used(pre, receivers, p),
        Some(m) => {
            &&& chained_to(pre, receivers, n, m as int)
            &&& forall|q: int| m < q <= m + n ==> !#[trigger] key_used(pre, receivers, q)
        },
    }
}

/// What holds of every state of a scan from the start.
pub open spec fn scan_inv(pre: spec_fn(u64) -> Digest, receivers: Seq<Digest>, n: u64, s: KeyScan) -> bool {
    if s.done {
        gap_outcome(pre, receivers, n, s)
    } else {
        match s.max_index {
            None => true,
            Some(m) => chained_to(pre, receivers, n, m as int),
        }
    }
}

/// No used key is so high that the window after it runs past `u64::MAX`.
pub open spec fn windows_fit(pre: spec_fn(u64) -> Digest, receivers: Seq<Digest>, n: u64) -> bool {
    forall|p: int| #[trigger] key_used(pre, receivers, p) ==> p + 1 + n <= u64::MAX
}

proof fn lemma_scan_step(pre: spec_fn(u64) -> Digest, receivers: Seq<Digest>, n: u64, s: KeyScan)
    requires
        windows_fit(pre, receivers, n),
        !s.done,
        scan_inv(pre, receivers, n, s),
    ensures
        scan_inv(pre, receivers, n, scan_step(s, derived_window(pre, window_start(s), n), receivers)),
{
    let start = window_start(s);
    let w = derived_window(pre, start, n);
    law_max_match(w, receivers);
    assert(0 <= start);
    assert(start + n <= u64::MAX) by {
        if let Some(m) = s.max_index {
            assert(key_used(pre, receivers, m as int));
        }
    }
    assert forall|i: int| 0 <= i < n implies (#[trigger] w[i]).0 == start + i
        && (receivers.contains(w[i].1) <==> key_used(pre, receivers, start + i)) by {}
    match max_match(w, receivers) {
        Some(m2) => {
            let i2 = choose|i: int| 0 <= i < w.len() && #[trigger] w[i].0 == m2 && receivers.contains(w[i].1);
            assert(w[i2].0 == start + i2);
            assert(key_used(pre, receivers, m2 as int));
            assert forall|p: int| 0 <= p < m2 && #[trigger] key_used(pre, receivers, p)
                implies exists|q: int| p < q <= p + n && #[trigger] key_used(pre, receivers, q) by {
                if p >= start {
                    assert(m2 < start + n);
                    assert(p < m2 <= p + n && key_used(pre, receivers, m2 as int));
                } else {
                    let m = s.max_index->0;
                    assert(s.max_index is Some);
                    if p == m {
                        assert(p < m2 <= p + n && key_used(pre, receivers, m2 as int));
                    }
                }
            }
            if s.max_index is None {
                assert(0 <= m2 < n && key_used(pre, receivers, m2 as int));
            }
        },
        None => {
            assert forall|q: int| start <= q < start + n implies !#[trigger] key_used(pre, receivers, q) by {
                let i = q - start;
                assert(w[i].0 == q);
            }
        },
    }
}

proof fn lemma_scan_run(pre: spec_fn(u64) -> Digest, receivers: Seq<Digest>, n: u64, s: KeyScan, fuel: nat)
    requires
        windows_fit(pre, receivers, n),
        scan_inv(pre, receivers, n, s),
    ensures
        scan_inv(pre, receivers, n, scan_run(pre, receivers, n, s, fuel)),
    decreases fuel,
{
    if fuel > 0 && !s.done {
        lemma_scan_step(pre, receivers, n, s);
        lemma_scan_run(pre, receivers, n, scan_step(s, derived_window(pre, window_start(s), n), receivers), (fuel - 1) as nat);
    }
}

proof fn lemma_scan_advances(pre: spec_fn(u64) -> Digest, receivers: Seq<Digest>, n: u64, s: KeyScan)
    requires
        windows_fit(pre, receivers, n),
        !s.done,
        scan_inv(pre, receivers, n, s),
    ensures
        ({
            let t = scan_step(s, derived_window(pre, window_start(s), n), receivers);
            !t.done ==> window_start(s) < window_start(t) <= u64::MAX + 1
        }),
{
    let start = window_start(s);
    let w = derived_window(pre, start, n);
    law_max_match(w, receivers);
    assert(start + n <= u64::MAX) by {
        if let Some(m) = s.max_index {
            assert(key_used(pre, receivers, m as int));
        }
    }
    if let Some(m2) = max_match(w, receivers) {
        let i2 = choose|i: int| 0 <= i < w.len() && #[trigger] w[i].0 == m2 && receivers.contains(w[i].1);
        assert(w[i2].0 == start + i2);
    }
}

proof fn lemma_scan_finishes(pre: spec_fn(u64) -> Digest, receivers: Seq<Digest>, n: u64, s: KeyScan, fuel: nat)
    requires
        windows_fit(pre, receivers, n),
        scan_inv(pre, receivers, n, s),
        window_start(s) <= u64::MAX + 1,
        s.done || fuel >= u64::MAX + 2 - window_start(s),
    ensures
        scan_run(pre, receivers, n, s, fuel).done,
    decreases fuel,
{
    if !s.done {
        let t = scan_step(s, derived_window(pre, window_start(s), n), receivers);
        lemma_scan_step(pre, receivers, n, s);
        lemma_scan_advances(pre, receivers, n, s);
        lemma_scan_finishes(pre, receivers, n, t, (fuel - 1) as nat);
    }
}

/// The scan ends: run from the start, it has finished after at most
/// `u64::MAX + 2` windows, since each window that finds a key moves the next
/// one past it.
pub proof fn law_scan_finishes(pre: spec_fn(u64) -> Digest, receivers: Seq<Digest>, n: u64)
    requires
        windows_fit(pre, receivers, n),
    ensures
        scan_run(pre, receivers, n, KeyScan { max_index: None, done: false }, (u64::MAX + 2) as nat).done,
{
    lemma_scan_finishes(pre, receivers, n, KeyScan { max_index: None, done: false }, (u64::MAX + 2) as nat);
}

/// The whole scan stops at the first gap: run from the start, window after
/// window, a finished scan has found nothing when none of the first `n`
/// keys is used; otherwise it has found a used key that is reached from the
/// start through gaps of fewer than `n` unused keys and is followed by `n`
/// unused keys. Used keys past such a gap are not counted.
pub proof fn law_scan_stops_at_first_gap(pre: spec_fn(u64) -> Digest, receivers: Seq<Digest>, n: u64, fuel: nat)
    requires
        windows_fit(pre, receivers, n),
    ensures
        scan_run(pre, receivers, n, KeyScan { max_index: None, done: false }, fuel).done
            ==> gap_outcome(pre, receivers, n, scan_run(pre, receivers, n, KeyScan { max_index: None, done: false }, fuel)),
{
    lemma_scan_run(pre, receivers, n, KeyScan { max_index: None, done: false }, fuel);
}

/// What the user sees of one of the wallet's addresses.
#[derive(Debug, PartialEq, Eq)]
pub struct AddressRecord {
    pub key_index: i32,
    /// The full bech32m encoding of the address.
    pub address: String,
    /// Its abbreviated form.
    pub address_short_form: String,
    pub label: Option<String>,
}

impl AddressRecord {
    /// Describe the address with key index `key_index`, given its full and
    /// abbreviated encodings.
    pub fn new(address: String, address_short_form: String, key_index: i32, label: Option<String>) -> (res: Self)
        ensures
            res.key_index == key_index,
            res.address@ == address@,
            res.address_short_form@ == address_short_form@,
            res.label == label,
    {
        AddressRecord { key_index, address, address_short_form, label }
    }
}

} // verus!
